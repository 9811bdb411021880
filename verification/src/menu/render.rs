//! The single menu renderer. [`show`] is the only code that draws menus into
//! egui: it walks the [`Menu`] top-to-bottom, emits one widget per
//! [`Entry`], and returns the action of whichever entry was activated. Pure:
//! no app reference, no mutation beyond the `ui`.
use vstd::prelude::*;
use vstd::string::*;

use crate::menu::{entry_may_yield, lemma_menu_may_yield, menu_may_yield, Enabled, Entry, Icon, Menu};
use crate::text::owned;

verus! {

/// An egui button under construction. Opaque here.
#[verifier::external_type_specification]
#[verifier::external_body]
pub struct ExButton<'a>(egui::Button<'a>);

/// What egui reports about a widget it drew. Opaque here.
#[verifier::external_type_specification]
#[verifier::external_body]
pub struct ExResponse(egui::Response);

/// A button showing `text`: `egui::Button::new`.
#[verifier::external_body]
fn button_new(text: String) -> egui::Button<'static> {
    egui::Button::new(text)
}

/// The button with a right-aligned shortcut hint: `egui::Button::shortcut_text`.
#[verifier::external_body]
fn button_shortcut_text(button: egui::Button<'static>, shortcut: String) -> egui::Button<'static> {
    button.shortcut_text(shortcut)
}

/// The button drawn as selected or not: `egui::Button::selected`.
#[verifier::external_body]
fn button_selected(button: egui::Button<'static>, selected: bool) -> egui::Button<'static> {
    button.selected(selected)
}

/// Draw the button, greyed out unless `enabled`: `egui::Ui::add_enabled`.
#[verifier::external_body]
fn ui_add_enabled(ui: &mut egui::Ui, enabled: bool, button: egui::Button<'static>) -> egui::Response {
    ui.add_enabled(enabled, button)
}

/// Draw the button: `egui::Ui::add`.
#[verifier::external_body]
fn ui_add(ui: &mut egui::Ui, button: egui::Button<'static>) -> egui::Response {
    ui.add(button)
}

/// Show `text` when the disabled widget is hovered:
/// `egui::Response::on_disabled_hover_text`.
#[verifier::external_body]
fn response_on_disabled_hover_text(response: egui::Response, text: String) -> egui::Response {
    response.on_disabled_hover_text(text)
}

/// Whether the user clicked the widget this frame: `egui::Response::clicked`.
/// It depends on the user's input, so nothing is stated of it.
#[verifier::external_body]
fn response_clicked(response: &egui::Response) -> bool {
    response.clicked()
}

/// Draw a horizontal separator: `egui::Ui::separator`.
#[verifier::external_body]
fn ui_separator(ui: &mut egui::Ui) {
    ui.separator();
}

/// Dismiss the enclosing menu: `egui::Ui::close`.
#[verifier::external_body]
fn ui_close(ui: &egui::Ui) {
    ui.close();
}

/// A submenu button labelled `label`: `egui::Ui::menu_button`, whose
/// contents are drawn by [`show`] on `menu`. egui runs the contents (at most
/// once) only while the submenu is open and hands back what they returned,
/// so what comes back is `None` (the submenu was closed) or what [`show`]
/// returned, and either is an outcome of `menu` ([`menu_outcome`]); whether
/// the submenu is open and what is clicked in it rest on the user's input.
#[verifier::external_body]
fn ui_menu_button<A>(ui: &mut egui::Ui, label: String, menu: Menu<A>) -> (chosen: Option<A>)
    ensures
        chosen matches Some(a) ==> menu_may_yield(menu, a),
        menu_outcome(menu@, chosen),
{
    ui.menu_button(label, |ui| show(ui, menu)).inner.flatten()
}

/// One drawing step of a menu: a separator, row `index` of section
/// `section`, or dismissing the menu.
pub enum Draw {
    Separator,
    Row { section: int, index: int },
    Close,
}

/// The rows of a section with `n` entries, in order.
pub open spec fn rows(section: int, n: nat) -> Seq<Draw> {
    Seq::new(n, |j: int| Draw::Row { section, index: j })
}

/// How a menu with these sections is drawn: the rows of each non-empty
/// section in order, with a separator before every non-empty section that
/// follows something already drawn.
pub open spec fn layout<A>(sections: Seq<Seq<Entry<A>>>) -> Seq<Draw>
    decreases sections.len(),
{
    if sections.len() == 0 {
        Seq::empty()
    } else {
        let drawn = layout(sections.drop_last());
        if sections.last().len() == 0 {
            drawn
        } else {
            drawn + (if drawn.len() > 0 {
                seq![Draw::Separator]
            } else {
                Seq::empty()
            }) + rows(sections.len() - 1, sections.last().len())
        }
    }
}

/// The entries of all sections, in drawing order.
pub open spec fn flat_entries<A>(sections: Seq<Seq<Entry<A>>>) -> Seq<Entry<A>>
    decreases sections.len(),
{
    if sections.len() == 0 {
        Seq::empty()
    } else {
        flat_entries(sections.drop_last()) + sections.last()
    }
}

/// The last action among the rows' outcomes, if any row yielded one.
pub open spec fn last_yield<A>(outcomes: Seq<Option<A>>) -> Option<A>
    decreases outcomes.len(),
{
    if outcomes.len() == 0 {
        None
    } else if outcomes.last() is Some {
        outcomes.last()
    } else {
        last_yield(outcomes.drop_last())
    }
}

/// Each row's outcome is nothing, or an action that row can yield.
pub open spec fn outcomes_fit<A>(outcomes: Seq<Option<A>>, entries: Seq<Entry<A>>) -> bool {
    &&& outcomes.len() == entries.len()
    &&& forall|k: int|
        0 <= k < outcomes.len() && #[trigger] outcomes[k] is Some ==> entry_may_yield(
            entries[k],
            outcomes[k]->Some_0,
        )
}

/// What a run of the renderer over `sections` can hand back: for some outcome
/// of each row that fits that row, the action of the last row that yielded
/// one. A run in which no row yields gives `None`.
pub open spec fn menu_outcome<A>(sections: Seq<Seq<Entry<A>>>, chosen: Option<A>) -> bool {
    exists|outcomes: Seq<Option<A>>|
        #[trigger] outcomes_fit(outcomes, flat_entries(sections)) && chosen == last_yield(outcomes)
}

/// Separators only stand between rows of different sections: none leads,
/// none trails, no two are adjacent, and rows of different sections are
/// never adjacent.
pub open spec fn well_separated(d: Seq<Draw>) -> bool {
    &&& d.len() > 0 ==> d[0] is Row && d[d.len() - 1] is Row
    &&& forall|k: int, l: int|
        #![trigger d[k], d[l]]
        0 <= k && l == k + 1 && l < d.len() ==> (d[k] is Separator ==> d[l] is Row) && (d[k] is Row
            && d[l] is Row ==> d[k]->Row_section == d[l]->Row_section)
}

/// The layout of any menu is well separated: a separator between non-empty
/// groups, with no leading, trailing or double separator, even when empty
/// sections are skipped.
pub proof fn lemma_layout_well_separated<A>(sections: Seq<Seq<Entry<A>>>)
    ensures
        well_separated(layout(sections)),
    decreases sections.len(),
{
    if sections.len() > 0 {
        lemma_layout_well_separated(sections.drop_last());
        let drawn = layout(sections.drop_last());
        if sections.last().len() > 0 {
            let sep: Seq<Draw> = if drawn.len() > 0 {
                seq![Draw::Separator]
            } else {
                Seq::empty()
            };
            let r = rows(sections.len() - 1, sections.last().len());
            let d = drawn + sep + r;
            assert(d == layout(sections));
            assert forall|k: int, l: int|
                #![trigger d[k], d[l]]
                0 <= k && l == k + 1 && l < d.len() implies (d[k] is Separator ==> d[l] is Row) && (
                d[k] is Row && d[l] is Row ==> d[k]->Row_section == d[l]->Row_section) by {
                if l < drawn.len() {
                    assert(d[k] == drawn[k] && d[l] == drawn[l]);
                } else if k >= drawn.len() + sep.len() {
                    assert(d[k] == r[k - drawn.len() - sep.len()]);
                    assert(d[l] == r[l - drawn.len() - sep.len()]);
                } else if sep.len() == 0 {
                    assert(drawn.len() == 0);
                } else if k == drawn.len() - 1 {
                    assert(d[l] == Draw::Separator);
                } else {
                    assert(k == drawn.len());
                    assert(d[l] == r[0]);
                }
            }
            if d.len() > 0 {
                if drawn.len() > 0 {
                    assert(d[0] == drawn[0]);
                } else {
                    assert(d[0] == r[0]);
                }
                assert(d[d.len() - 1] == r[r.len() - 1]);
            }
        }
    }
}

/// The text of an action row: the icon glyph, two spaces and the label, or
/// the bare label without an icon.
pub fn action_label(icon: Option<&Icon>, label: &str) -> (text: String)
    ensures
        text@ == match icon {
            Some(i) => i.0@ + "  "@ + label@,
            None => label@,
        },
{
    match icon {
        Some(icon) => {
            let mut text = owned(icon.0.as_str());
            text.append("  ");
            text.append(label);
            text
        },
        None => owned(label),
    }
}

/// The text of a toggle row: a checkmark and a space when checked, four
/// spaces otherwise, then the label.
pub fn toggle_label(label: &str, checked: bool) -> (text: String)
    ensures
        text@ == (if checked {
            "\u{2713} "@
        } else {
            "    "@
        }) + label@,
{
    let mut text = if checked {
        owned("\u{2713} ")
    } else {
        owned("    ")
    };
    text.append(label);
    text
}

/// What an action row hands to egui: the button text, the shortcut hint,
/// whether the button is enabled, and the tooltip shown while it is disabled.
pub struct ActionRow {
    pub text: String,
    pub shortcut: Option<String>,
    pub enabled: bool,
    pub disabled_tooltip: Option<String>,
}

/// The drawing of an action row: the label behind its icon glyph (see
/// [`action_label`]), the shortcut hint as given, enabled exactly when
/// `enabled` is `Yes`, and the disabled reason as the tooltip of a disabled
/// row.
pub fn action_row(label: String, icon: Option<Icon>, enabled: &Enabled, shortcut: Option<String>) -> (row: ActionRow)
    ensures
        row.text@ == match icon {
            Some(i) => i.0@ + "  "@ + label@,
            None => label@,
        },
        row.shortcut == shortcut,
        row.enabled == (*enabled is Yes),
        row.disabled_tooltip == match *enabled {
            Enabled::No(reason) => Some(reason),
            Enabled::Yes => None,
        },
{
    let text = match &icon {
        Some(icon) => action_label(Some(icon), label.as_str()),
        None => label,
    };
    let disabled_tooltip = match enabled {
        Enabled::No(reason) => Some(reason.clone()),
        Enabled::Yes => None,
    };
    ActionRow { text, shortcut, enabled: enabled.is_enabled(), disabled_tooltip }
}

/// What a row hands back once egui has said whether it was clicked: its
/// action when the row is enabled and clicked, nothing otherwise.
pub fn row_outcome<A>(enabled: bool, clicked: bool, action: A) -> (outcome: Option<A>)
    ensures
        outcome == (if enabled && clicked {
            Some(action)
        } else {
            None
        }),
{
    if enabled && clicked {
        Some(action)
    } else {
        None
    }
}

/// The action of the last row that yielded one, given every row's outcome in
/// drawing order; `None` when no row yielded.
pub fn last_chosen<A>(outcomes: Vec<Option<A>>) -> (chosen: Option<A>)
    ensures
        chosen == last_yield(outcomes@),
{
    let ghost whole = outcomes@;
    let mut rest = outcomes;
    while rest.len() > 0
        invariant
            whole == outcomes@,
            last_yield(rest@) == last_yield(whole),
        decreases rest@.len(),
    {
        let ghost before = rest@;
        let last = rest.pop();
        assert(rest@ =~= before.drop_last());
        match last {
            Some(Some(action)) => {
                assert(before.last() == Some(action));
                assert(last_yield(before) == Some(action));
                return Some(action);
            },
            _ => {},
        }
    }
    None
}

/// Render an action row as [`action_row`] lays it out: a button with a
/// leading icon glyph and a right-aligned shortcut, greyed out and showing
/// the reason as a hover tooltip when disabled. What it yields is
/// [`row_outcome`] of the row's enabled flag and the click egui reports
/// (returned as `out.1`); a disabled row yields nothing.
fn show_action<A>(
    ui: &mut egui::Ui,
    label: String,
    icon: Option<Icon>,
    enabled: &Enabled,
    shortcut: Option<String>,
    action: A,
) -> (out: (Option<A>, Ghost<bool>))
    ensures
        out.0 == (if *enabled is Yes && out.1@ {
            Some(action)
        } else {
            None
        }),
{
    let row = action_row(label, icon, enabled, shortcut);
    let mut button = button_new(row.text);
    match row.shortcut {
        Some(shortcut) => {
            button = button_shortcut_text(button, shortcut);
        },
        None => {},
    }
    let mut response = ui_add_enabled(ui, row.enabled, button);
    match row.disabled_tooltip {
        Some(reason) => {
            response = response_on_disabled_hover_text(response, reason);
        },
        None => {},
    }
    let clicked = response_clicked(&response);
    (row_outcome(row.enabled, clicked, action), Ghost(clicked))
}

/// Render a toggle row as a selectable (checkmark) button. What it yields is
/// [`row_outcome`] of the click egui reports (returned as `out.1`).
fn show_toggle<A>(ui: &mut egui::Ui, label: &str, checked: bool, action: A) -> (out: (
    Option<A>,
    Ghost<bool>,
))
    ensures
        out.0 == (if out.1@ {
            Some(action)
        } else {
            None
        }),
{
    let button = button_selected(button_new(toggle_label(label, checked)), checked);
    let clicked = response_clicked(&ui_add(ui, button));
    (row_outcome(true, clicked, action), Ghost(clicked))
}

/// Render a submenu row, recursing into [`show`] while it is open.
fn show_submenu<A>(ui: &mut egui::Ui, label: String, menu: Menu<A>) -> (chosen: Option<A>)
    ensures
        chosen matches Some(a) ==> menu_may_yield(menu, a),
        menu_outcome(menu@, chosen),
{
    ui_menu_button(ui, label, menu)
}

/// Render one entry, returning its action if it was activated: for an action
/// or toggle row, the [`row_outcome`] of the click egui reports (returned as
/// `out.1`); for a submenu, an outcome of its rows; for a custom row, what
/// its closure returned.
fn show_entry<A>(ui: &mut egui::Ui, entry: Entry<A>) -> (out: (Option<A>, Ghost<bool>))
    ensures
        out.0 matches Some(a) ==> entry_may_yield(entry, a),
        match entry {
            Entry::Action { enabled, action, .. } => out.0 == (if enabled is Yes && out.1@ {
                Some(action)
            } else {
                None
            }),
            Entry::Toggle { action, .. } => out.0 == (if out.1@ {
                Some(action)
            } else {
                None
            }),
            Entry::Submenu { menu, .. } => menu_outcome(menu@, out.0),
            Entry::Custom(_) => true,
        },
{
    match entry {
        Entry::Action { label, icon, enabled, shortcut, action } => {
            show_action(ui, label, icon, &enabled, shortcut, action)
        },
        Entry::Toggle { label, checked, action } => show_toggle(ui, label.as_str(), checked, action),
        Entry::Submenu { label, menu } => (show_submenu(ui, label, menu), Ghost(false)),
        Entry::Custom(render) => (render.render(ui), Ghost(false)),
    }
}

/// A row that yielded an action holds it in the outcomes, so the last one
/// yielded is among them.
proof fn lemma_last_yield_is_an_outcome<A>(outcomes: Seq<Option<A>>)
    ensures
        last_yield(outcomes) is Some ==> exists|k: int|
            0 <= k < outcomes.len() && #[trigger] outcomes[k] == last_yield(outcomes),
    decreases outcomes.len(),
{
    if outcomes.len() > 0 && outcomes.last() is None {
        lemma_last_yield_is_an_outcome(outcomes.drop_last());
        if last_yield(outcomes) is Some {
            let k = choose|k: int|
                0 <= k < outcomes.drop_last().len() && #[trigger] outcomes.drop_last()[k]
                    == last_yield(outcomes.drop_last());
            assert(outcomes[k] == outcomes.drop_last()[k]);
        }
    } else if outcomes.len() > 0 {
        assert(outcomes[outcomes.len() - 1] == last_yield(outcomes));
    }
}

/// [`show`], reporting the drawing steps it took and what each row yielded.
/// The steps are exactly [`layout`] of the menu (each row once, in order,
/// with a separator only between non-empty sections, see
/// [`lemma_layout_well_separated`]), followed by dismissing the menu exactly
/// when an action was chosen. The chosen action is the one of the last row
/// that yielded, and a row yields only what it can.
pub fn show_traced<A>(ui: &mut egui::Ui, menu: Menu<A>) -> (out: (
    Option<A>,
    Ghost<Seq<Draw>>,
    Ghost<Seq<Option<A>>>,
))
    ensures
        out.1@ == layout(menu@) + (if out.0 is Some {
            seq![Draw::Close]
        } else {
            Seq::empty()
        }),
        outcomes_fit(out.2@, flat_entries(menu@)),
        out.0 == last_yield(out.2@),
        out.0 matches Some(a) ==> menu_may_yield(menu, a),
{
    let ghost whole = menu;
    let ghost m = menu@;
    let mut rest = menu.into_sections();
    let ghost all = rest@;
    let total = rest.len();
    let mut outcomes: Vec<Option<A>> = Vec::new();
    let mut drawn_a_section = false;
    let ghost mut trace: Seq<Draw> = Seq::empty();
    let mut i: usize = 0;
    while rest.len() > 0
        invariant
            m == whole@,
            all.map_values(|s: Vec<Entry<A>>| s@) == m,
            m.len() == total,
            i <= m.len(),
            rest@ == all.skip(i as int),
            trace == layout(m.take(i as int)),
            outcomes_fit(outcomes@, flat_entries(m.take(i as int))),
            forall|k: int|
                0 <= k < outcomes@.len() && #[trigger] outcomes@[k] is Some ==> menu_may_yield(
                    whole,
                    outcomes@[k]->Some_0,
                ),
            drawn_a_section == (trace.len() > 0),
        decreases rest@.len(),
    {
        let section = rest.remove(0);
        assert(section@ == m[i as int]);
        if section.len() > 0 {
            if drawn_a_section {
                ui_separator(ui);
                proof {
                    trace = trace.push(Draw::Separator);
                }
            }
            drawn_a_section = true;
            let ghost base = trace;
            let ghost es = section@;
            let n = section.len();
            let mut entries = section;
            let mut j: usize = 0;
            while entries.len() > 0
                invariant
                    m == whole@,
                    i < m.len(),
                    es == m[i as int],
                    es.len() == n,
                    j <= es.len(),
                    entries@ == es.skip(j as int),
                    trace == base + rows(i as int, j as nat),
                    outcomes_fit(outcomes@, flat_entries(m.take(i as int)) + es.take(j as int)),
                    forall|k: int|
                        0 <= k < outcomes@.len() && #[trigger] outcomes@[k] is Some
                            ==> menu_may_yield(whole, outcomes@[k]->Some_0),
                decreases entries@.len(),
            {
                let entry = entries.remove(0);
                let ghost e = entry;
                assert(entry == m[i as int][j as int]);
                let (yielded, Ghost(_clicked)) = show_entry(ui, entry);
                let ghost y = yielded;
                let ghost before = outcomes@;
                proof {
                    if y is Some {
                        lemma_menu_may_yield(whole, y->Some_0, i as int, j as int);
                    }
                }
                outcomes.push(yielded);
                proof {
                    let fl = flat_entries(m.take(i as int)) + es.take(j as int);
                    let fl2 = flat_entries(m.take(i as int)) + es.take(j + 1);
                    assert(fl2 =~= fl.push(e));
                    assert forall|k: int|
                        0 <= k < outcomes@.len() && #[trigger] outcomes@[k] is Some implies entry_may_yield(
                        fl2[k],
                        outcomes@[k]->Some_0,
                    ) && menu_may_yield(whole, outcomes@[k]->Some_0) by {
                        if k < before.len() {
                            assert(outcomes@[k] == before[k]);
                        }
                    }
                    assert(rows(i as int, (j + 1) as nat) =~= rows(i as int, j as nat).push(
                        Draw::Row { section: i as int, index: j as int },
                    ));
                    trace = trace.push(Draw::Row { section: i as int, index: j as int });
                    assert(es.skip(j as int).remove(0) =~= es.skip(j + 1));
                }
                j += 1;
            }
            proof {
                assert(j == es.len());
                assert(es.take(j as int) =~= es);
            }
        }
        proof {
            assert(m.take(i + 1).drop_last() =~= m.take(i as int));
            if m[i as int].len() == 0 {
                assert(flat_entries(m.take(i + 1)) =~= flat_entries(m.take(i as int)));
            }
            assert(all.skip(i as int).remove(0) =~= all.skip(i + 1));
        }
        i += 1;
    }
    proof {
        assert(m.take(i as int) =~= m);
    }
    let ghost rows_out = outcomes@;
    let chosen = last_chosen(outcomes);
    proof {
        lemma_last_yield_is_an_outcome(rows_out);
    }
    if chosen.is_some() {
        ui_close(ui);
        proof {
            assert(trace.push(Draw::Close) =~= layout(m) + seq![Draw::Close]);
            trace = trace.push(Draw::Close);
        }
    } else {
        proof {
            assert(trace =~= layout(m) + Seq::<Draw>::empty());
        }
    }
    (chosen, Ghost(trace), Ghost(rows_out))
}

/// Render `menu` into `ui` and return the activated action, if any. This is
/// [`show_traced`] without its record of the drawing steps.
///
/// Sections render top-to-bottom with a separator between non-empty groups
/// (no leading, trailing or double separator, even when empty sections are
/// skipped; see [`layout`] and [`lemma_layout_well_separated`]). Submenus
/// recurse through this same function. After an action is chosen the menu is
/// dismissed. An action comes back only from a row that can yield it, and it
/// is the action of the last row that yielded one ([`menu_outcome`]).
pub fn show<A>(ui: &mut egui::Ui, menu: Menu<A>) -> (chosen: Option<A>)
    ensures
        chosen matches Some(a) ==> menu_may_yield(menu, a),
        menu_outcome(menu@, chosen),
{
    let ghost m = menu@;
    let (chosen, Ghost(_drawn), Ghost(outcomes)) = show_traced(ui, menu);
    assert(outcomes_fit(outcomes, flat_entries(m)));
    chosen
}

} // verus!
