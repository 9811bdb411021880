//! Generalised context-menu primitive.
//!
//! A menu is pure data: a [`Menu<A>`] is a list of sections of [`Entry<A>`],
//! generic over the caller's action type `A`. Building one borrows no `ui`, so
//! builders are unit-testable. One renderer, [`show`], is the only code that
//! touches egui for menus; the chosen action is handed back to the caller for
//! per-domain dispatch.
use vstd::prelude::*;

mod builder;
pub mod render;

pub use render::{action_label, toggle_label};


verus! {

/// A small, egui-agnostic icon: a glyph string drawn in the entry's leading
/// slot so labels align.
#[derive(Clone, Debug, PartialEq, Eq)]
pub struct Icon(pub String);

impl Icon {
    /// Wrap a glyph (e.g. an emoji or symbol char) as a leading-slot icon.
    pub fn glyph(glyph: &str) -> (icon: Self)
        ensures
            icon.0@ == glyph@,
    {
        Icon(crate::text::owned(glyph))
    }
}

/// Whether an [`Entry::Action`] can be activated. `No` carries the reason the
/// action is unavailable, shown as the disabled entry's hover tooltip.
#[derive(Clone, Debug, PartialEq, Eq)]
pub enum Enabled {
    /// The action is available and clickable.
    Yes,
    /// The action is greyed out; the string is the tooltip reason.
    No(String),
}

impl Enabled {
    /// `true` when the action is clickable.
    pub fn is_enabled(&self) -> (enabled: bool)
        ensures
            enabled == (*self is Yes),
    {
        match self {
            Enabled::Yes => true,
            Enabled::No(_) => false,
        }
    }
}

/// A custom row's drawing code: draws into the `ui` and yields the caller's
/// action when the custom widget is used. Held opaquely, since it is the
/// caller's own closure.
#[verifier::external_body]
#[verifier::reject_recursive_types(A)]
pub struct CustomRender<A> {
    render: Box<dyn FnOnce(&mut egui::Ui) -> Option<A>>,
}

impl<A> CustomRender<A> {
    /// Box the caller's drawing closure.
    #[verifier::external_body]
    pub fn new(render: impl FnOnce(&mut egui::Ui) -> Option<A> + 'static) -> Self {
        CustomRender { render: Box::new(render) }
    }

    /// Run the caller's drawing closure once, returning what it yields.
    /// Nothing is known of the result: it is whatever the caller's closure
    /// returns.
    #[verifier::external_body]
    pub(crate) fn render(self, ui: &mut egui::Ui) -> Option<A> {
        (self.render)(ui)
    }
}

/// One row of a menu. Generic over the caller's action type `A`, which the
/// renderer returns when the entry is activated.
#[verifier::reject_recursive_types(A)]
pub enum Entry<A> {
    /// A clickable button yielding `action`, with an optional leading `icon`,
    /// an [`Enabled`] state and a right-aligned `shortcut` hint.
    Action {
        label: String,
        icon: Option<Icon>,
        enabled: Enabled,
        shortcut: Option<String>,
        action: A,
    },
    /// A checkable row with a checkmark reflecting `checked`, yielding
    /// `action` when toggled.
    Toggle { label: String, checked: bool, action: A },
    /// A nested submenu opened on hover; the chosen action bubbles up.
    Submenu { label: String, menu: Menu<A> },
    /// A row that draws its own live widget.
    Custom(CustomRender<A>),
}

/// A context menu: an ordered list of sections, each a list of [`Entry`].
/// Sections render with a separator between non-empty groups.
#[verifier::reject_recursive_types(A)]
pub struct Menu<A> {
    sections: Vec<Vec<Entry<A>>>,
}

impl<A> Menu<A> {
    /// A menu always has a (last) section for new entries to land in.
    #[verifier::type_invariant]
    spec fn has_a_section(&self) -> bool {
        self.sections@.len() > 0
    }
}

impl<A> View for Menu<A> {
    type V = Seq<Seq<Entry<A>>>;

    closed spec fn view(&self) -> Seq<Seq<Entry<A>>> {
        self.sections@.map_values(|section: Vec<Entry<A>>| section@)
    }
}

/// Whether activating `entry` can yield `a`: the action of an enabled action
/// row (a disabled one yields nothing), the action of a toggle row, anything
/// a submenu's rows can yield, or anything at all from a custom row (its
/// closure decides).
pub open spec fn entry_may_yield<A>(entry: Entry<A>, a: A) -> bool
    decreases entry,
{
    match entry {
        Entry::Action { action, enabled, .. } => enabled is Yes && action == a,
        Entry::Toggle { action, .. } => action == a,
        Entry::Submenu { menu, .. } => menu_may_yield(menu, a),
        Entry::Custom(_) => true,
    }
}

/// Whether some row of `menu` can yield `a`.
pub closed spec fn menu_may_yield<A>(menu: Menu<A>, a: A) -> bool
    decreases menu,
{
    exists|i: int, j: int|
        0 <= i < menu.sections@.len() && 0 <= j < menu.sections@[i]@.len() && entry_may_yield(
            #[trigger] menu.sections@[i]@[j],
            a,
        )
}

/// A row that can yield `a` lets its menu yield `a`.
pub proof fn lemma_menu_may_yield<A>(menu: Menu<A>, a: A, i: int, j: int)
    requires
        0 <= i < menu@.len(),
        0 <= j < menu@[i].len(),
        entry_may_yield(menu@[i][j], a),
    ensures
        menu_may_yield(menu, a),
{
    assert(menu.sections@[i]@[j] == menu@[i][j]);
}

/// A fluent builder for one [`Entry::Action`], used when an action needs an
/// icon, a disabled reason, or a shortcut hint.
pub struct Action<A> {
    pub(crate) label: String,
    pub(crate) icon: Option<Icon>,
    pub(crate) enabled: Enabled,
    pub(crate) shortcut: Option<String>,
    pub(crate) action: A,
}

impl<A> Action<A> {
    /// The label this builder will give its entry.
    pub closed spec fn label_spec(&self) -> String {
        self.label
    }

    /// The icon this builder will give its entry.
    pub closed spec fn icon_spec(&self) -> Option<Icon> {
        self.icon
    }

    /// The enabled state this builder will give its entry.
    pub closed spec fn enabled_spec(&self) -> Enabled {
        self.enabled
    }

    /// The shortcut hint this builder will give its entry.
    pub closed spec fn shortcut_spec(&self) -> Option<String> {
        self.shortcut
    }

    /// The action this builder's entry yields.
    pub closed spec fn action_spec(&self) -> A {
        self.action
    }

    /// The entry this builder produces.
    pub open spec fn entry_spec(&self) -> Entry<A> {
        Entry::Action {
            label: self.label_spec(),
            icon: self.icon_spec(),
            enabled: self.enabled_spec(),
            shortcut: self.shortcut_spec(),
            action: self.action_spec(),
        }
    }
}

/// Render `menu` into `ui` and return the activated action, if any.
///
/// Sections render top-to-bottom with a separator between non-empty groups
/// (no leading, trailing or double separator, even when empty sections are
/// skipped). Submenus recurse through this same function. After an action is
/// chosen the menu is dismissed. An action comes back only from a row that
/// can yield it, and it is the action of the last row that yielded one
/// ([`render::menu_outcome`]).
pub fn show<A>(ui: &mut egui::Ui, menu: Menu<A>) -> (chosen: Option<A>)
    ensures
        chosen matches Some(a) ==> menu_may_yield(menu, a),
        render::menu_outcome(menu@, chosen),
{
    render::show(ui, menu)
}


} // verus!
