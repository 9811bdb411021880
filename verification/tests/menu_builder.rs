//! Unit tests for the pure-data menu builder: section/entry structure,
//! `extend` splicing, and empty-section handling. No egui involved.

use egui_workbench::menu::{action_label, toggle_label, Action, Enabled, Entry, Icon, Menu};

#[derive(Clone, Copy, Debug, PartialEq, Eq)]
enum TestAction {
    Open,
    Delete,
    Pin,
    Extra,
}

#[test]
fn action_builder_populates_fields() {
    let menu = Menu::new().action_with(
        Action::new("Delete", TestAction::Delete)
            .icon(Icon::glyph("x"))
            .enabled(Enabled::No("read-only".into()))
            .shortcut("Del"),
    );
    let sections = menu.sections();
    assert_eq!(sections.len(), 1);
    assert_eq!(sections[0].len(), 1);
    match &sections[0][0] {
        Entry::Action {
            label,
            icon,
            enabled,
            shortcut,
            action,
        } => {
            assert_eq!(label, "Delete");
            assert_eq!(icon, &Some(Icon::glyph("x")));
            assert_eq!(enabled, &Enabled::No("read-only".into()));
            assert_eq!(shortcut.as_deref(), Some("Del"));
            assert_eq!(action, &TestAction::Delete);
        }
        _ => panic!("expected an Action entry"),
    }
}

#[test]
fn plain_action_defaults_are_enabled_and_bare() {
    let menu = Menu::new().action("Open", TestAction::Open);
    match &menu.sections()[0][0] {
        Entry::Action {
            icon,
            enabled,
            shortcut,
            ..
        } => {
            assert!(icon.is_none());
            assert_eq!(enabled, &Enabled::Yes);
            assert!(shortcut.is_none());
        }
        _ => panic!("expected an Action entry"),
    }
}

#[test]
fn section_starts_a_new_group() {
    let menu = Menu::new()
        .action("Open", TestAction::Open)
        .section()
        .toggle("Pin", true, TestAction::Pin);
    let sections = menu.sections();
    assert_eq!(sections.len(), 2);
    assert_eq!(sections[0].len(), 1);
    assert_eq!(sections[1].len(), 1);
    assert!(matches!(sections[1][0], Entry::Toggle { checked: true, .. }));
}

#[test]
fn extend_splices_other_sections() {
    let base = Menu::new().action("Open", TestAction::Open);
    let extra = Menu::new().action("Extra", TestAction::Extra);
    let combined = base.section().extend(extra);
    let sections = combined.sections();
    // base section, the empty section created by `.section()`, then extra's section.
    assert_eq!(sections.len(), 3);
    assert!(matches!(sections[0][0], Entry::Action { action: TestAction::Open, .. }));
    assert!(sections[1].is_empty());
    assert!(matches!(sections[2][0], Entry::Action { action: TestAction::Extra, .. }));
}

#[test]
fn submenu_nests_a_menu() {
    let sub = Menu::new().action("Inner", TestAction::Open);
    let menu = Menu::new().submenu("More", sub);
    match &menu.sections()[0][0] {
        Entry::Submenu { label, menu } => {
            assert_eq!(label, "More");
            assert_eq!(menu.sections()[0].len(), 1);
        }
        _ => panic!("expected a Submenu entry"),
    }
}

#[test]
fn enabled_is_enabled_reflects_variant() {
    assert!(Enabled::Yes.is_enabled());
    assert!(!Enabled::No("nope".into()).is_enabled());
}

#[test]
fn new_and_default_menus_hold_one_empty_section() {
    let fresh: Menu<TestAction> = Menu::new();
    assert_eq!(fresh.sections().len(), 1);
    assert!(fresh.sections()[0].is_empty());
    let default: Menu<TestAction> = Menu::default();
    assert_eq!(default.sections().len(), 1);
    assert!(default.sections()[0].is_empty());
}

#[test]
fn entries_land_in_the_last_section_in_order() {
    let menu = Menu::new()
        .action("Open", TestAction::Open)
        .section()
        .action("Delete", TestAction::Delete)
        .toggle("Pin", false, TestAction::Pin);
    let sections = menu.sections();
    assert_eq!(sections.len(), 2);
    assert_eq!(sections[0].len(), 1);
    assert_eq!(sections[1].len(), 2);
    assert!(matches!(sections[1][0], Entry::Action { action: TestAction::Delete, .. }));
    assert!(matches!(
        sections[1][1],
        Entry::Toggle { checked: false, action: TestAction::Pin, .. }
    ));
}

#[test]
fn custom_row_is_appended() {
    let menu = Menu::new()
        .action("Open", TestAction::Open)
        .custom(|_ui| Some(TestAction::Extra));
    let sections = menu.sections();
    assert_eq!(sections[0].len(), 2);
    assert!(matches!(sections[0][1], Entry::Custom(_)));
}

#[test]
fn toggle_keeps_label_and_state() {
    let menu = Menu::new().toggle("Pin", false, TestAction::Pin);
    match &menu.sections()[0][0] {
        Entry::Toggle { label, checked, action } => {
            assert_eq!(label, "Pin");
            assert!(!checked);
            assert_eq!(action, &TestAction::Pin);
        }
        _ => panic!("expected a Toggle entry"),
    }
}

#[test]
fn icon_glyph_wraps_the_text() {
    assert_eq!(Icon::glyph("*").0, "*");
}

#[test]
fn action_label_puts_the_glyph_two_spaces_ahead() {
    assert_eq!(action_label(Some(&Icon::glyph("x")), "Delete"), "x  Delete");
    assert_eq!(action_label(None, "Delete"), "Delete");
}

#[test]
fn toggle_label_marks_checked_rows() {
    assert_eq!(toggle_label("Pin", true), "\u{2713} Pin");
    assert_eq!(toggle_label("Pin", false), "    Pin");
}
