//! egui_kittest test driving [`show`] through a real `Ui`: clicking an action
//! button returns that action.

use std::cell::Cell;
use std::rc::Rc;

use egui_kittest::kittest::Queryable;
use egui_workbench::menu::render::{action_row, last_chosen, row_outcome};
use egui_workbench::menu::{show, Action, Enabled, Icon, Menu};

#[derive(Clone, Copy, Debug, PartialEq, Eq)]
enum TestAction {
    Open,
    Delete,
}

#[test]
fn clicking_an_action_returns_it() {
    let returned: Rc<Cell<Option<TestAction>>> = Rc::new(Cell::new(None));
    let sink = Rc::clone(&returned);
    let mut harness = egui_kittest::Harness::new_ui(move |ui| {
        let menu = Menu::new()
            .action("Open", TestAction::Open)
            .section()
            .action("Delete", TestAction::Delete);
        if let Some(action) = show(ui, menu) {
            sink.set(Some(action));
        }
    });
    // First frame lays the buttons out; click "Open", then run again so the
    // click registers and `show` returns the action.
    harness.run();
    harness.get_by_label("Open").click();
    harness.run();
    assert_eq!(returned.get(), Some(TestAction::Open));
}

#[test]
fn clicking_a_toggle_returns_its_action() {
    let returned: Rc<Cell<Option<TestAction>>> = Rc::new(Cell::new(None));
    let sink = Rc::clone(&returned);
    let mut harness = egui_kittest::Harness::new_ui(move |ui| {
        let menu = Menu::new()
            .toggle("Pinned", false, TestAction::Delete)
            .action("Open", TestAction::Open);
        if let Some(action) = show(ui, menu) {
            sink.set(Some(action));
        }
    });
    harness.run();
    harness.get_by_label("    Pinned").click();
    harness.run();
    assert_eq!(returned.get(), Some(TestAction::Delete));
}

#[test]
fn no_click_returns_nothing() {
    let returned: Rc<Cell<Option<TestAction>>> = Rc::new(Cell::new(None));
    let sink = Rc::clone(&returned);
    let mut harness = egui_kittest::Harness::new_ui(move |ui| {
        let menu = Menu::new().action("Open", TestAction::Open);
        if let Some(action) = show(ui, menu) {
            sink.set(Some(action));
        }
    });
    harness.run();
    harness.run();
    assert_eq!(returned.get(), None);
}

#[test]
fn clicking_inside_a_submenu_returns_the_inner_action() {
    let returned: Rc<Cell<Option<TestAction>>> = Rc::new(Cell::new(None));
    let sink = Rc::clone(&returned);
    let mut harness = egui_kittest::Harness::new_ui(move |ui| {
        let inner = Menu::new().action("Inner", TestAction::Delete);
        let menu = Menu::new().action("Open", TestAction::Open).submenu("More", inner);
        if let Some(action) = show(ui, menu) {
            sink.set(Some(action));
        }
    });
    harness.run();
    harness.get_by_label("More").click();
    harness.run();
    harness.get_by_label("Inner").click();
    harness.run();
    assert_eq!(returned.get(), Some(TestAction::Delete));
}

#[test]
fn clicking_a_disabled_action_returns_nothing() {
    let returned: Rc<Cell<Option<TestAction>>> = Rc::new(Cell::new(None));
    let sink = Rc::clone(&returned);
    let mut harness = egui_kittest::Harness::new_ui(move |ui| {
        let menu = Menu::new().action_with(
            Action::new("Delete", TestAction::Delete).enabled(Enabled::No("read-only".to_string())),
        );
        if let Some(action) = show(ui, menu) {
            sink.set(Some(action));
        }
    });
    harness.run();
    harness.get_by_label("Delete").click();
    harness.run();
    assert_eq!(returned.get(), None);
}

#[test]
fn action_row_lays_out_text_hint_and_tooltip() {
    let row = action_row(
        "Open".to_string(),
        Some(Icon::glyph("+")),
        &Enabled::Yes,
        Some("Ctrl+O".to_string()),
    );
    assert_eq!(row.text, "+  Open");
    assert_eq!(row.shortcut, Some("Ctrl+O".to_string()));
    assert!(row.enabled);
    assert_eq!(row.disabled_tooltip, None);

    let row = action_row("Delete".to_string(), None, &Enabled::No("read-only".to_string()), None);
    assert_eq!(row.text, "Delete");
    assert_eq!(row.shortcut, None);
    assert!(!row.enabled);
    assert_eq!(row.disabled_tooltip, Some("read-only".to_string()));
}

#[test]
fn row_outcome_needs_an_enabled_clicked_row() {
    assert_eq!(row_outcome(true, true, TestAction::Open), Some(TestAction::Open));
    assert_eq!(row_outcome(true, false, TestAction::Open), None);
    assert_eq!(row_outcome(false, true, TestAction::Open), None);
    assert_eq!(row_outcome(false, false, TestAction::Open), None);
}

#[test]
fn last_chosen_keeps_the_last_row_that_yielded() {
    assert_eq!(
        last_chosen(vec![Some(TestAction::Open), None, Some(TestAction::Delete), None]),
        Some(TestAction::Delete)
    );
    assert_eq!(last_chosen(vec![Some(TestAction::Open), None]), Some(TestAction::Open));
    assert_eq!(last_chosen::<TestAction>(vec![None, None]), None);
    assert_eq!(last_chosen::<TestAction>(Vec::new()), None);
}
