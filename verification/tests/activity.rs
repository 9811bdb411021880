//! The activity registry, its action seam, and the view-id convention.

use std::sync::atomic::{AtomicUsize, Ordering};
use std::sync::Arc;

use egui_workbench::activity::{
    shows_on_activity_bar, split_view_id, view_id_for, ActionError, Activity, ActivityRegistry,
    Ctx, View,
};
use egui_workbench::side_bar::Location;
use serde_json::Value;

/// Synthetic Ctx for tests: a marker, coerced to `&mut dyn Ctx`; the
/// synthetic activities below ignore their ctx entirely.
struct TestCtx;
impl Ctx for TestCtx {}

/// A throwaway icon: tests never actually render it.
fn empty_icon() -> egui::Image<'static> {
    egui::Image::new(egui::ImageSource::Bytes {
        uri: "tests/icon".into(),
        bytes: egui::load::Bytes::Static(&[]),
    })
}

/// A JSON object built from its fields.
fn object(fields: Vec<(&str, Value)>) -> Value {
    let mut map = serde_json::Map::new();
    for (key, value) in fields {
        map.insert(key.to_string(), value);
    }
    Value::Object(map)
}

/// Activity whose `dispatch_action` records the call count and echoes the
/// args.
struct EchoActivity {
    id: &'static str,
    calls: Arc<AtomicUsize>,
}
impl Activity<dyn Ctx> for EchoActivity {
    fn id(&self) -> &'static str {
        self.id
    }
    fn label(&self) -> &'static str {
        "Echo"
    }
    fn icon(&self) -> egui::Image<'static> {
        empty_icon()
    }
    fn dispatch_action(
        &self,
        _ctx: &mut (dyn Ctx + 'static),
        action: &str,
        args: Value,
    ) -> Result<Value, ActionError> {
        self.calls.fetch_add(1, Ordering::SeqCst);
        match action {
            "echo" => Ok(object(vec![("from", Value::String(self.id.to_string())), ("args", args)])),
            _ => Err(ActionError::UnknownAction {
                activity: self.id.to_string(),
                action: action.to_string(),
            }),
        }
    }
}

/// A leaf view that records each `render` call.
struct CountingView {
    id: &'static str,
    renders: Arc<AtomicUsize>,
}
impl<C: Ctx + ?Sized> View<C> for CountingView {
    fn id(&self) -> &'static str {
        self.id
    }
    fn render(&self, _ui: &mut egui::Ui, _ctx: &mut C) {
        self.renders.fetch_add(1, Ordering::SeqCst);
    }
}

/// Multi-view activity with a configurable default location.
struct MultiView {
    id: &'static str,
    location: Location,
    a: CountingView,
    b: CountingView,
}
impl Activity<dyn Ctx> for MultiView {
    fn id(&self) -> &'static str {
        self.id
    }
    fn label(&self) -> &'static str {
        "Multi"
    }
    fn icon(&self) -> egui::Image<'static> {
        empty_icon()
    }
    fn views(&self) -> Vec<&dyn View<dyn Ctx>> {
        vec![&self.a, &self.b]
    }
    fn default_location(&self) -> Location {
        self.location
    }
}

/// Single-view activity whose lone view's id equals the activity id.
struct SingleView {
    id: &'static str,
    view: CountingView,
}
impl Activity<dyn Ctx> for SingleView {
    fn id(&self) -> &'static str {
        self.id
    }
    fn label(&self) -> &'static str {
        "Single"
    }
    fn icon(&self) -> egui::Image<'static> {
        empty_icon()
    }
    fn views(&self) -> Vec<&dyn View<dyn Ctx>> {
        vec![&self.view]
    }
}

fn run<R>(f: impl FnOnce(&mut (dyn Ctx + 'static)) -> R) -> R {
    let mut ctx = TestCtx;
    f(&mut ctx)
}

fn counting(id: &'static str) -> CountingView {
    CountingView {
        id,
        renders: Arc::new(AtomicUsize::new(0)),
    }
}

#[test]
fn invoke_routes_to_named_activity() {
    let calls_a = Arc::new(AtomicUsize::new(0));
    let calls_b = Arc::new(AtomicUsize::new(0));
    let reg: Arc<ActivityRegistry<dyn Ctx>> = ActivityRegistry::build(vec![
        Arc::new(EchoActivity {
            id: "alpha",
            calls: calls_a.clone(),
        }) as Arc<dyn Activity<dyn Ctx>>,
        Arc::new(EchoActivity {
            id: "beta",
            calls: calls_b.clone(),
        }) as Arc<dyn Activity<dyn Ctx>>,
    ]);
    let out = run(|ctx| {
        reg.invoke(ctx, "beta", "echo", object(vec![("n", Value::from(1))]))
            .unwrap()
    });
    assert_eq!(out["from"], "beta");
    assert_eq!(calls_b.load(Ordering::SeqCst), 1);
    assert_eq!(calls_a.load(Ordering::SeqCst), 0);
}

#[test]
fn invoke_unknown_activity_errors() {
    let reg: Arc<ActivityRegistry<dyn Ctx>> = ActivityRegistry::build(vec![]);
    let err = run(|ctx| reg.invoke(ctx, "nope", "x", Value::Null).unwrap_err());
    assert!(matches!(err, ActionError::UnknownActivity(ref s) if s == "nope"));
}

#[test]
fn invoke_unknown_action_errors() {
    let calls = Arc::new(AtomicUsize::new(0));
    let reg: Arc<ActivityRegistry<dyn Ctx>> =
        ActivityRegistry::build(vec![Arc::new(EchoActivity { id: "alpha", calls })
            as Arc<dyn Activity<dyn Ctx>>]);
    let err = run(|ctx| {
        reg.invoke(ctx, "alpha", "no_such_action", Value::Null)
            .unwrap_err()
    });
    match err {
        ActionError::UnknownAction { activity, action } => {
            assert_eq!(activity, "alpha");
            assert_eq!(action, "no_such_action");
        }
        other => panic!("got {other:?}"),
    }
}

/// `view_id` slashes a multi-view container's views, and `split_view_id`
/// round-trips the wire id back to its parts.
#[test]
fn multi_view_id_round_trips() {
    let act = MultiView {
        id: "multi",
        location: Location::LeftBar,
        a: counting("alpha"),
        b: counting("beta"),
    };
    let views = act.views();
    assert_eq!(act.view_id(views[0]), "multi/alpha");
    assert_eq!(act.view_id(views[1]), "multi/beta");
    assert_eq!(split_view_id("multi/beta"), ("multi", "beta"));
}

/// A single-view activity collapses to the bare activity id, and
/// `split_view_id` returns the whole string for both halves.
#[test]
fn single_view_id_collapses_to_bare_id() {
    let act = SingleView {
        id: "solo",
        view: counting("solo"),
    };
    let views = act.views();
    assert_eq!(act.view_id(views[0]), "solo");
    assert_eq!(split_view_id("solo"), ("solo", "solo"));
}

/// `on_activity_bar` is true for a left-bar activity with views and false for
/// a right-bar one; an activity with no views also opts out.
#[test]
fn on_activity_bar_follows_views_and_location() {
    let left = MultiView {
        id: "left",
        location: Location::LeftBar,
        a: counting("alpha"),
        b: counting("beta"),
    };
    assert!(left.on_activity_bar());

    let right = MultiView {
        id: "right",
        location: Location::RightBar,
        a: counting("alpha"),
        b: counting("beta"),
    };
    assert!(!right.on_activity_bar());

    // No views (the EchoActivity default) opts out regardless.
    let echo = EchoActivity {
        id: "echo",
        calls: Arc::new(AtomicUsize::new(0)),
    };
    assert!(!echo.on_activity_bar());
}

/// A dispatched view renders against a real `egui::Ui`.
#[test]
fn view_render_runs_against_ctx() {
    let renders = Arc::new(AtomicUsize::new(0));
    let act = MultiView {
        id: "multi",
        location: Location::LeftBar,
        a: CountingView {
            id: "alpha",
            renders: renders.clone(),
        },
        b: counting("beta"),
    };
    let egui_ctx = egui::Context::default();
    let output = egui_ctx.run_ui(Default::default(), |ui| {
        egui::CentralPanel::default().show(ui, |ui| {
            run(|ctx| act.views()[0].render(ui, ctx));
        });
    });
    output.drop_without_applying_deltas();
    assert_eq!(renders.load(Ordering::SeqCst), 1);
}

#[test]
fn split_view_id_splits_at_the_first_slash() {
    assert_eq!(split_view_id("a/b/c"), ("a", "b/c"));
    assert_eq!(split_view_id("/x"), ("", "x"));
    assert_eq!(split_view_id("x/"), ("x", ""));
    assert_eq!(split_view_id(""), ("", ""));
}

#[test]
fn view_id_for_composes_or_collapses() {
    assert_eq!(view_id_for("files", 2, "tree"), "files/tree");
    assert_eq!(view_id_for("files", 1, "tree"), "files");
    assert_eq!(view_id_for("files", 0, "tree"), "files");
    assert_eq!(view_id_for("files", 3, "files"), "files");
    let id = view_id_for("files", 2, "tree");
    assert_eq!(split_view_id(&id), ("files", "tree"));
}

#[test]
fn shows_on_activity_bar_needs_views_and_left_bar() {
    assert!(shows_on_activity_bar(1, Location::LeftBar));
    assert!(!shows_on_activity_bar(0, Location::LeftBar));
    assert!(!shows_on_activity_bar(2, Location::RightBar));
}

#[test]
fn by_id_finds_the_first_match() {
    let first = Arc::new(AtomicUsize::new(0));
    let second = Arc::new(AtomicUsize::new(0));
    let reg: Arc<ActivityRegistry<dyn Ctx>> = ActivityRegistry::build(vec![
        Arc::new(EchoActivity { id: "dup", calls: first.clone() }) as Arc<dyn Activity<dyn Ctx>>,
        Arc::new(EchoActivity { id: "dup", calls: second.clone() }) as Arc<dyn Activity<dyn Ctx>>,
        Arc::new(MultiView {
            id: "multi",
            location: Location::RightBar,
            a: counting("a"),
            b: counting("b"),
        }) as Arc<dyn Activity<dyn Ctx>>,
    ]);
    assert_eq!(reg.by_id("multi").map(|a| a.label()), Some("Multi"));
    assert!(reg.by_id("missing").is_none());
    run(|ctx| reg.invoke(ctx, "dup", "echo", Value::Null).unwrap());
    assert_eq!(first.load(Ordering::SeqCst), 1);
    assert_eq!(second.load(Ordering::SeqCst), 0);
    let ids: Vec<&str> = reg.iter().map(|a| a.id()).collect();
    assert_eq!(ids, vec!["dup", "dup", "multi"]);
}

#[test]
fn default_surfaces_are_empty() {
    let mut ctx = TestCtx;
    let echo = EchoActivity {
        id: "echo",
        calls: Arc::new(AtomicUsize::new(0)),
    };
    assert!(echo.keybind_chord().is_none());
    assert!(echo.views().is_empty());
    assert_eq!(echo.default_location(), Location::LeftBar);
    assert!(echo.hamburger().is_none());
    assert!(echo.activity_bar().is_none());
    assert!(echo.command_palette(&mut ctx).is_empty());
    let view = counting("backlinks");
    assert_eq!(View::<dyn Ctx>::state_key(&view), "backlinks");
}

#[test]
fn default_dispatch_answers_unknown_action() {
    let single = SingleView {
        id: "solo",
        view: counting("solo"),
    };
    let err = run(|ctx| single.dispatch_action(ctx, "go", Value::Null).unwrap_err());
    match err {
        ActionError::UnknownAction { activity, action } => {
            assert_eq!(activity, "solo");
            assert_eq!(action, "go");
        }
        other => panic!("got {other:?}"),
    }
}

#[test]
fn action_error_messages() {
    assert_eq!(
        ActionError::UnknownActivity("nope".into()).message(),
        "unknown activity `nope`"
    );
    assert_eq!(
        ActionError::unknown_action("files", "open").message(),
        "activity `files` does not have action `open`"
    );
    assert_eq!(
        ActionError::InvalidArgs {
            activity: "files".into(),
            action: "open".into(),
            reason: "missing path".into(),
        }
        .message(),
        "invalid args for `files::open`: missing path"
    );
    assert_eq!(ActionError::Failed("boom".into()).message(), "boom");
}
