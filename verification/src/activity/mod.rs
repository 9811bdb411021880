//! Generic activity-registry foundation. Consumer apps supply their own
//! `Ctx` impl; activities parameterize on a `Ctx`-trait bound so they can be
//! shared across apps without coupling to any one app's state.
//!
//! - [`Ctx`]: universal marker for context types.
//! - [`Activity`]: the activity trait, generic over `C: Ctx + ?Sized`,
//!   carrying an ordered list of [`View`]s plus optional descriptors.
//! - [`View`], [`HamburgerEntry`], [`ActivityBarItem`]: surface sub-traits.
//! - [`ActivityRegistry`]: ordered list of `Arc<dyn Activity<C>>`.
//! - [`ActionError`]: error type for the inter-activity action seam.
//! - [`split_view_id`]: parse a wire view-id back into its parts (the
//!   inverse of [`Activity::view_id`]).
use std::sync::Arc;

use vstd::prelude::*;
use vstd::std_specs::iter::IteratorSpec;
use vstd::string::*;
use vstd::view::View as _;

use crate::search::{first_index, lemma_first_from_is, lemma_first_from_none};
use crate::side_bar::Location;
use crate::text::{owned, str_eq};

verus! {

/// An image handed to egui as an activity's icon. Opaque here.
#[verifier::external_type_specification]
#[verifier::external_body]
pub struct ExImage<'a>(egui::Image<'a>);

/// A JSON value carried through the action seam. Opaque here: the registry
/// never looks inside it.
#[verifier::external_type_specification]
#[verifier::external_body]
pub struct ExJsonValue(serde_json::Value);

/// Marker base for context types. Every consumer app's per-surface context
/// type implements it. It carries no methods: per-activity state and every
/// other accessor live on per-activity requirement traits.
pub trait Ctx {}

/// The wire view-id of a view: the bare activity id for a single-view
/// activity (or a view whose id equals the activity id), otherwise
/// `"<activity>/<view>"`.
pub open spec fn view_id_spec(activity: Seq<char>, n_views: int, view: Seq<char>) -> Seq<char> {
    if n_views <= 1 || view == activity {
        activity
    } else {
        activity + seq!['/'] + view
    }
}

/// Position of the first `'/'` in `s`, if any.
pub open spec fn first_slash(s: Seq<char>) -> Option<int> {
    first_index(s.len() as int, |i: int| s[i] == '/')
}

/// The two halves of a wire view-id: split at the first slash, or the whole
/// string twice when there is none.
pub open spec fn split_view_id_spec(s: Seq<char>) -> (Seq<char>, Seq<char>) {
    match first_slash(s) {
        Some(k) => (s.take(k), s.skip(k + 1)),
        None => (s, s),
    }
}

/// Whether an activity belongs on the primary (left) activity bar: it has
/// at least one view and docks into the left bar by default.
pub open spec fn on_activity_bar_spec(n_views: int, location: Location) -> bool {
    n_views > 0 && location == Location::LeftBar
}

/// The wire view-id for a view with id `view` of the activity `activity`,
/// which has `n_views` views. Centralised here: call sites never hand-build
/// the id.
pub fn view_id_for(activity: &str, n_views: usize, view: &str) -> (id: String)
    ensures
        id@ == view_id_spec(activity@, n_views as int, view@),
{
    if n_views <= 1 || str_eq(view, activity) {
        owned(activity)
    } else {
        let mut id = owned(activity);
        id.append("/");
        id.append(view);
        proof {
            reveal_strlit("/");
            assert(id@ =~= activity@ + seq!['/'] + view@);
        }
        id
    }
}

/// Whether an activity with `n_views` views whose default location is
/// `location` goes on the primary activity bar.
pub fn shows_on_activity_bar(n_views: usize, location: Location) -> (shown: bool)
    ensures
        shown == on_activity_bar_spec(n_views as int, location),
{
    n_views > 0 && location == Location::LeftBar
}

/// Split a wire view-id into `(activity_id, view_key)`. The convention is
/// `"<activity>/<view>"`; an id with no slash is a single-view activity, so
/// both halves are the whole string. Inverse of [`Activity::view_id`].
pub fn split_view_id(view_id: &str) -> (parts: (&str, &str))
    ensures
        (parts.0@, parts.1@) == split_view_id_spec(view_id@),
{
    let n = view_id.unicode_len();
    let ghost p = |i: int| view_id@[i] == '/';
    let mut i: usize = 0;
    while i < n
        invariant
            n == view_id@.len(),
            i <= n,
            p == (|i: int| view_id@[i] == '/'),
            forall|j: int| 0 <= j < i ==> !#[trigger] p(j),
        decreases n - i,
    {
        if view_id.get_char(i) == '/' {
            proof {
                lemma_first_from_is(n as int, p, 0, i as int);
            }
            return (view_id.substring_char(0, i), view_id.substring_char(i + 1, n));
        }
        i += 1;
    }
    proof {
        lemma_first_from_none(n as int, p, 0);
    }
    (view_id, view_id)
}

/// Splitting a composed view-id gives back its parts: for an activity id
/// without a slash, a multi-view container's view `"<activity>/<view>"`
/// splits into the activity id and the view id, and a collapsed single-view
/// id splits into the activity id twice.
pub proof fn lemma_split_view_id_inverts_view_id(activity: Seq<char>, n_views: int, view: Seq<char>)
    requires
        !activity.contains('/'),
    ensures
        split_view_id_spec(view_id_spec(activity, n_views, view)) == (if n_views <= 1
            || view == activity {
            (activity, activity)
        } else {
            (activity, view)
        }),
{
    let s = view_id_spec(activity, n_views, view);
    let p = |i: int| s[i] == '/';
    if n_views <= 1 || view == activity {
        assert forall|j: int| 0 <= j < s.len() implies !#[trigger] p(j) by {
            if p(j) {
                assert(activity.contains(activity[j]));
            }
        }
        lemma_first_from_none(s.len() as int, p, 0);
    } else {
        let k = activity.len() as int;
        assert forall|j: int| 0 <= j < k implies !#[trigger] p(j) by {
            assert(s[j] == activity[j]);
            if p(j) {
                assert(activity.contains(activity[j]));
            }
        }
        assert(p(k));
        lemma_first_from_is(s.len() as int, p, 0, k);
        assert(s.take(k) =~= activity);
        assert(s.skip(k + 1) =~= view);
    }
}

/// A render surface contributed by an activity. The mode-switcher invokes
/// `render` for the currently-active view.
pub trait View<C: Ctx + ?Sized>: Send + Sync {
    /// The id this view reports through [`View::id`]. An implementation
    /// checked by Verus gives it a body; the default names no particular id,
    /// and Verus never assumes it of a view it does not know.
    open spec fn spec_id(&self) -> Seq<char> {
        vstd::pervasive::arbitrary()
    }

    /// Stable kebab-case id, unique within its activity. For a single-view
    /// activity this equals the activity id.
    fn id(&self) -> (id: &'static str)
        ensures
            id@ == self.spec_id(),
    ;

    /// Key for this view's per-activity state slice on the consumer's `Ctx`.
    /// Defaults to the view id.
    fn state_key(&self) -> (key: &'static str)
        default_ensures
            key@ == self.spec_id(),
    {
        self.id()
    }

    fn render(&self, ui: &mut egui::Ui, ctx: &mut C);
}

/// Top-strip hamburger menu entry.
pub trait HamburgerEntry<C: Ctx + ?Sized>: Send + Sync {
    fn label(&self) -> &'static str;

    fn keybind_id(&self) -> (id: Option<&'static str>)
        default_ensures
            id is None,
    {
        None
    }

    fn invoke(&self, ctx: &mut C);
}

/// Activity-bar item override: replaces the icon and tooltip an activity
/// with a [`View`] would otherwise get from `Activity::icon` and
/// `Activity::label`.
pub trait ActivityBarItem<C: Ctx + ?Sized>: Send + Sync {
    fn icon(&self) -> egui::Image<'static>;

    fn tooltip(&self) -> &'static str;

    fn invoke(&self, ctx: &mut C);
}

/// The deferred work of a palette command, run inside a fresh `Ctx` borrow.
/// Held opaquely: it is the consumer's own closure.
#[verifier::external_body]
#[verifier::reject_recursive_types(C)]
pub struct PaletteAction<C: Ctx + ?Sized>(pub Box<dyn FnOnce(&mut C) + Send>);

/// One entry returned by `Activity::command_palette`.
#[verifier::reject_recursive_types(C)]
pub struct PaletteCommand<C: Ctx + ?Sized> {
    pub id: &'static str,
    pub label: String,
    pub action: PaletteAction<C>,
}

/// Errors returned by [`ActivityRegistry::invoke`] /
/// [`Activity::dispatch_action`].
#[derive(Debug)]
pub enum ActionError {
    UnknownActivity(String),
    UnknownAction { activity: String, action: String },
    InvalidArgs { activity: String, action: String, reason: String },
    Failed(String),
}

/// The human-readable message of an [`ActionError`].
pub open spec fn action_error_message(e: ActionError) -> Seq<char> {
    match e {
        ActionError::UnknownActivity(a) => "unknown activity `"@ + a@ + "`"@,
        ActionError::UnknownAction { activity, action } => "activity `"@ + activity@
            + "` does not have action `"@ + action@ + "`"@,
        ActionError::InvalidArgs { activity, action, reason } => "invalid args for `"@ + activity@
            + "::"@ + action@ + "`: "@ + reason@,
        ActionError::Failed(reason) => reason@,
    }
}

impl ActionError {
    /// The error for an activity that has no action named `action`.
    pub fn unknown_action(activity: &str, action: &str) -> (e: Self)
        ensures
            e matches ActionError::UnknownAction { activity: a, action: b } && a@ == activity@
                && b@ == action@,
    {
        ActionError::UnknownAction { activity: owned(activity), action: owned(action) }
    }

    /// The human-readable message of this error.
    pub fn message(&self) -> (text: String)
        ensures
            text@ == action_error_message(*self),
    {
        let mut text = String::new();
        match self {
            ActionError::UnknownActivity(a) => {
                text.append("unknown activity `");
                text.append(a.as_str());
                text.append("`");
            },
            ActionError::UnknownAction { activity, action } => {
                text.append("activity `");
                text.append(activity.as_str());
                text.append("` does not have action `");
                text.append(action.as_str());
                text.append("`");
            },
            ActionError::InvalidArgs { activity, action, reason } => {
                text.append("invalid args for `");
                text.append(activity.as_str());
                text.append("::");
                text.append(action.as_str());
                text.append("`: ");
                text.append(reason.as_str());
            },
            ActionError::Failed(reason) => {
                text.append(reason.as_str());
            },
        }
        proof {
            assert(text@ =~= action_error_message(*self));
        }
        text
    }
}

/// A registered activity (a container of one or more [`View`]s). Singleton
/// in the registry; per-instance state lives in tab payloads.
///
/// An activity declares its `views()`; the other surface accessors default
/// to empty/`None` so a new activity only implements what it wants. An
/// activity with no views opts out of the activity bar.
pub trait Activity<C: Ctx + ?Sized + 'static>: Send + Sync {
    /// The id this activity reports through [`Activity::id`]. An
    /// implementation checked by Verus gives it a body; the default names no
    /// particular id, and Verus never assumes it of an activity it does not
    /// know.
    open spec fn spec_id(&self) -> Seq<char> {
        vstd::pervasive::arbitrary()
    }

    /// Stable kebab-case id (e.g. `"clusters"`), the dispatch key from the
    /// registry.
    fn id(&self) -> (id: &'static str)
        ensures
            id@ == self.spec_id(),
    ;

    /// Human-facing label (e.g. `"Cluster trees"`).
    fn label(&self) -> &'static str;

    /// Activity-bar / mode-button icon.
    fn icon(&self) -> egui::Image<'static>;

    /// Optional keybind chord descriptor (e.g. `"ctrl+shift+c"`).
    fn keybind_chord(&self) -> (chord: Option<&'static str>)
        default_ensures
            chord is None,
    {
        None
    }

    /// Ordered list of render surfaces this activity contributes. Empty (the
    /// default) opts out of the activity bar.
    fn views(&self) -> (views: Vec<&dyn View<C>>)
        default_ensures
            views@.len() == 0,
    {
        Vec::new()
    }

    /// View-id for one of this activity's views, per the
    /// `"<activity>/<view>"` convention; see [`view_id_for`].
    fn view_id(&self, view: &dyn View<C>) -> (id: String)
        default_ensures
            exists|n: int|
                0 <= n && id@ == #[trigger] view_id_spec(self.spec_id(), n, view.spec_id()),
    {
        let n_views = self.views().len();
        view_id_for(self.id(), n_views, view.id())
    }

    /// Whether this activity belongs on the primary (left) activity bar: at
    /// least one [`View`] and a left-bar default location.
    fn on_activity_bar(&self) -> bool {
        let n_views = self.views().len();
        shows_on_activity_bar(n_views, self.default_location())
    }

    /// Which side bar this activity's views dock into by default.
    fn default_location(&self) -> (location: Location)
        default_ensures
            location == Location::LeftBar,
    {
        Location::LeftBar
    }

    fn hamburger(&self) -> (entry: Option<&dyn HamburgerEntry<C>>)
        default_ensures
            entry is None,
    {
        None
    }

    fn activity_bar(&self) -> (item: Option<&dyn ActivityBarItem<C>>)
        default_ensures
            item is None,
    {
        None
    }

    fn command_palette(&self, _ctx: &mut C) -> (commands: Vec<PaletteCommand<C>>)
        default_ensures
            commands@.len() == 0,
    {
        Vec::new()
    }

    /// Inter-activity action dispatch. The default answers
    /// [`ActionError::UnknownAction`] naming this activity and `action`.
    fn dispatch_action(
        &self,
        _ctx: &mut C,
        action: &str,
        _args: serde_json::Value,
    ) -> (answer: Result<serde_json::Value, ActionError>)
        default_ensures
            answer matches Err(ActionError::UnknownAction { activity: a, action: b }) && a@
                == self.spec_id() && b@ == action@,
    {
        Err(ActionError::unknown_action(self.id(), action))
    }
}

/// Ordered list of `Arc<dyn Activity<C>>` built once at app startup. Order
/// is meaningful: sidebar mode buttons and activity items render in registry
/// order. Each activity's stable id is read once, when the registry is
/// built, and lookups go by those ids.
#[verifier::reject_recursive_types(C)]
pub struct ActivityRegistry<C: Ctx + ?Sized + 'static> {
    activities: Vec<Arc<dyn Activity<C>>>,
    ids: Vec<&'static str>,
}

impl<C: Ctx + ?Sized + 'static> ActivityRegistry<C> {
    /// The registered activities, in order.
    pub closed spec fn activities(&self) -> Seq<Arc<dyn Activity<C>>> {
        self.activities@
    }

    /// The id each registered activity reported, in registry order.
    pub closed spec fn ids(&self) -> Seq<Seq<char>> {
        self.ids@.map_values(|id: &'static str| id@)
    }

    /// One recorded id per registered activity.
    #[verifier::type_invariant]
    spec fn wf(&self) -> bool {
        &&& self.ids@.len() == self.activities@.len()
        &&& forall|k: int|
            0 <= k < self.ids@.len() ==> #[trigger] self.ids@[k]@ == self.activities@[k].spec_id()
    }

    /// Registry position of the first activity whose id is `id`.
    pub open spec fn position_of(&self, id: Seq<char>) -> Option<int> {
        first_index(self.activities().len() as int, |k: int| self.activities()[k].spec_id() == id)
    }

    /// Build a registry from an ordered list of activities.
    pub fn build(activities: Vec<Arc<dyn Activity<C>>>) -> (registry: Arc<Self>)
        ensures
            registry.activities() == activities@,
            registry.ids().len() == activities@.len(),
            forall|k: int|
                0 <= k < activities@.len() ==> #[trigger] registry.ids()[k]
                    == activities@[k].spec_id(),
    {
        let mut ids: Vec<&'static str> = Vec::new();
        let mut i: usize = 0;
        while i < activities.len()
            invariant
                i <= activities@.len(),
                ids@.len() == i,
                forall|k: int| 0 <= k < i ==> #[trigger] ids@[k]@ == activities@[k].spec_id(),
            decreases activities@.len() - i,
        {
            ids.push(activities[i].id());
            i += 1;
        }
        let registry = ActivityRegistry { activities, ids };
        assert(registry.ids().len() == registry.activities().len());
        Arc::new(registry)
    }

    /// Iterate the registered activities in their stable order.
    pub fn iter(&self) -> (it: std::slice::Iter<'_, Arc<dyn Activity<C>>>)
        ensures
            it.remaining().map_values(|a: &Arc<dyn Activity<C>>| *a) == self.activities(),
    {
        let it = self.activities.as_slice().iter();
        proof {
            assert(it.remaining().map_values(|a: &Arc<dyn Activity<C>>| *a) =~= self.activities());
        }
        it
    }

    /// Index of the first activity whose id is `id`.
    fn find(&self, id: &str) -> (found: Option<usize>)
        ensures
            match found {
                Some(k) => self.position_of(id@) == Some(k as int) && k < self.activities().len(),
                None => self.position_of(id@) is None,
            },
    {
        proof {
            use_type_invariant(self);
        }
        let ghost p = |k: int| self.activities()[k].spec_id() == id@;
        let mut k: usize = 0;
        while k < self.ids.len()
            invariant
                self.ids@.len() == self.activities@.len(),
                forall|j: int|
                    0 <= j < self.ids@.len() ==> #[trigger] self.ids@[j]@
                        == self.activities@[j].spec_id(),
                k <= self.ids@.len(),
                p == (|k: int| self.activities()[k].spec_id() == id@),
                forall|j: int| 0 <= j < k ==> !#[trigger] p(j),
            decreases self.ids@.len() - k,
        {
            if str_eq(self.ids[k], id) {
                proof {
                    lemma_first_from_is(self.activities().len() as int, p, 0, k as int);
                }
                return Some(k);
            }
            k += 1;
        }
        proof {
            lemma_first_from_none(self.activities().len() as int, p, 0);
        }
        None
    }

    /// Lookup by stable id: the first activity whose id is `id`.
    pub fn by_id(&self, id: &str) -> (found: Option<&Arc<dyn Activity<C>>>)
        ensures
            match self.position_of(id@) {
                Some(k) => found matches Some(a) && *a == self.activities()[k],
                None => found is None,
            },
    {
        match self.find(id) {
            Some(k) => Some(&self.activities[k]),
            None => None,
        }
    }

    /// Dispatch `(activity_id, action, args)` through the registry. Returns
    /// [`ActionError::UnknownActivity`] when no registered activity has the
    /// id; otherwise forwards `ctx`, `action` and `args` to the first such
    /// activity's [`Activity::dispatch_action`] and returns its answer.
    pub fn invoke(
        &self,
        ctx: &mut C,
        activity_id: &str,
        action: &str,
        args: serde_json::Value,
    ) -> (answer: Result<serde_json::Value, ActionError>)
        ensures
            self.position_of(activity_id@) is None ==> (answer matches Err(
                ActionError::UnknownActivity(a),
            ) && a@ == activity_id@),
    {
        match self.find(activity_id) {
            Some(k) => self.activities[k].dispatch_action(ctx, action, args),
            None => Err(ActionError::UnknownActivity(owned(activity_id))),
        }
    }
}

} // verus!
