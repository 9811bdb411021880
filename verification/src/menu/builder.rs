//! The fluent builder surface for [`Menu`]. Pure data construction: no `ui`
//! borrow, so builders are unit-testable.
use vstd::prelude::*;

use crate::menu::{Action, CustomRender, Enabled, Entry, Icon, Menu};

verus! {

/// `new` is `old` with exactly one entry appended to its last section, or
/// `old` itself when it has no section.
pub open spec fn appends_one<A>(old: Seq<Seq<Entry<A>>>, new: Seq<Seq<Entry<A>>>) -> bool {
    if old.len() == 0 {
        new == old
    } else {
        &&& new.len() == old.len()
        &&& new.drop_last() == old.drop_last()
        &&& new.last().len() == old.last().len() + 1
        &&& new.last().drop_last() == old.last()
    }
}

/// The entry a builder call appended: the last entry of the last section.
pub open spec fn appended_entry<A>(menu: Seq<Seq<Entry<A>>>) -> Entry<A> {
    menu.last().last()
}

impl<A> Action<A> {
    /// Start an action builder with a label and the action it yields.
    pub fn new(label: &str, action: A) -> (built: Self)
        ensures
            built.label_spec()@ == label@,
            built.icon_spec() is None,
            built.enabled_spec() == Enabled::Yes,
            built.shortcut_spec() is None,
            built.action_spec() == action,
    {
        Action {
            label: crate::text::owned(label),
            icon: None,
            enabled: Enabled::Yes,
            shortcut: None,
            action,
        }
    }

    /// Set the leading-slot icon.
    pub fn icon(self, icon: Icon) -> (built: Self)
        ensures
            built.label_spec() == self.label_spec(),
            built.icon_spec() == Some(icon),
            built.enabled_spec() == self.enabled_spec(),
            built.shortcut_spec() == self.shortcut_spec(),
            built.action_spec() == self.action_spec(),
    {
        let mut built = self;
        built.icon = Some(icon);
        built
    }

    /// Set the enabled state (use [`Enabled::No`] with a reason to grey it out).
    pub fn enabled(self, enabled: Enabled) -> (built: Self)
        ensures
            built.label_spec() == self.label_spec(),
            built.icon_spec() == self.icon_spec(),
            built.enabled_spec() == enabled,
            built.shortcut_spec() == self.shortcut_spec(),
            built.action_spec() == self.action_spec(),
    {
        let mut built = self;
        built.enabled = enabled;
        built
    }

    /// Set the right-aligned shortcut hint.
    pub fn shortcut(self, shortcut: &str) -> (built: Self)
        ensures
            built.label_spec() == self.label_spec(),
            built.icon_spec() == self.icon_spec(),
            built.enabled_spec() == self.enabled_spec(),
            built.shortcut_spec() matches Some(s) && s@ == shortcut@,
            built.action_spec() == self.action_spec(),
    {
        let mut built = self;
        built.shortcut = Some(crate::text::owned(shortcut));
        built
    }

    fn into_entry(self) -> (entry: Entry<A>)
        ensures
            entry == self.entry_spec(),
    {
        Entry::Action {
            label: self.label,
            icon: self.icon,
            enabled: self.enabled,
            shortcut: self.shortcut,
            action: self.action,
        }
    }
}

impl<A> Default for Menu<A> {
    fn default() -> (menu: Self)
        ensures
            menu@ == seq![Seq::<Entry<A>>::empty()],
    {
        Self::new()
    }
}

impl<A> Menu<A> {
    /// An empty menu with one (empty) trailing section ready for entries.
    pub fn new() -> (menu: Self)
        ensures
            menu@ == seq![Seq::<Entry<A>>::empty()],
    {
        let mut sections = Vec::new();
        sections.push(Vec::new());
        let menu = Menu { sections };
        assert(menu@ =~= seq![Seq::<Entry<A>>::empty()]);
        menu
    }

    /// Push an entry onto the current (last) section.
    fn push(self, entry: Entry<A>) -> (menu: Self)
        ensures
            appends_one(self@, menu@),
            self@.len() > 0,
            appended_entry(menu@) == entry,
    {
        proof {
            use_type_invariant(&self);
        }
        let ghost before = self@;
        let Menu { mut sections } = self;
        let mut last = sections.pop().unwrap();
        last.push(entry);
        sections.push(last);
        let menu = Menu { sections };
        assert(menu@.drop_last() =~= before.drop_last());
        assert(menu@.last().drop_last() =~= before.last());
        menu
    }

    /// Append a plain clickable action yielding `action`.
    pub fn action(self, label: &str, action: A) -> (menu: Self)
        ensures
            appends_one(self@, menu@),
            (appended_entry(menu@) matches Entry::Action {
                label: l,
                icon: None,
                enabled: Enabled::Yes,
                shortcut: None,
                action: a,
            } && l@ == label@ && a == action),
    {
        self.push(Action::new(label, action).into_entry())
    }

    /// Append an action built with the [`Action`] builder (icon / enabled /
    /// shortcut).
    pub fn action_with(self, action: Action<A>) -> (menu: Self)
        ensures
            appends_one(self@, menu@),
            appended_entry(menu@) == action.entry_spec(),
    {
        self.push(action.into_entry())
    }

    /// Append a checkable toggle row reflecting `checked`.
    pub fn toggle(self, label: &str, checked: bool, action: A) -> (menu: Self)
        ensures
            appends_one(self@, menu@),
            (appended_entry(menu@) matches Entry::Toggle {
                label: l,
                checked: c,
                action: a,
            } && l@ == label@ && c == checked && a == action),
    {
        self.push(Entry::Toggle { label: crate::text::owned(label), checked, action })
    }

    /// Append a nested submenu.
    pub fn submenu(self, label: &str, submenu: Menu<A>) -> (menu: Self)
        ensures
            appends_one(self@, menu@),
            (appended_entry(menu@) matches Entry::Submenu { label: l, menu: m }
                && l@ == label@ && m == submenu),
    {
        self.push(Entry::Submenu { label: crate::text::owned(label), menu: submenu })
    }

    /// Append an [`Entry::Custom`] row that renders its own widget.
    pub fn custom(self, render: impl FnOnce(&mut egui::Ui) -> Option<A> + 'static) -> (menu: Self)
        ensures
            appends_one(self@, menu@),
            appended_entry(menu@) is Custom,
    {
        self.push(Entry::Custom(CustomRender::new(render)))
    }

    /// Start a new separator-delimited section. Entries added after this land
    /// in the new group.
    pub fn section(self) -> (menu: Self)
        ensures
            menu@ == self@.push(Seq::empty()),
    {
        let ghost before = self@;
        let Menu { mut sections } = self;
        sections.push(Vec::new());
        let menu = Menu { sections };
        assert(menu@ =~= before.push(Seq::empty()));
        menu
    }

    /// Splice another menu's sections onto this one, keeping them as distinct
    /// groups.
    pub fn extend(self, other: Menu<A>) -> (menu: Self)
        ensures
            menu@ == self@ + other@,
    {
        proof {
            use_type_invariant(&self);
        }
        let ghost first = self.sections@;
        let ghost second = other.sections@;
        let ghost whole = self@ + other@;
        let Menu { mut sections } = self;
        let Menu { sections: mut others } = other;
        sections.append(&mut others);
        assert(sections@ =~= first + second);
        let menu = Menu { sections };
        assert(menu@ =~= first.map_values(|section: Vec<Entry<A>>| section@) + second.map_values(
            |section: Vec<Entry<A>>| section@,
        ));
        menu
    }

    /// The sections, in order. Each inner `Vec` is one separator-delimited
    /// group.
    pub fn sections(&self) -> (sections: &[Vec<Entry<A>>])
        ensures
            sections@.map_values(|section: Vec<Entry<A>>| section@) == self@,
            sections@.len() > 0,
    {
        proof {
            use_type_invariant(self);
        }
        self.sections.as_slice()
    }

    /// Consume the menu into its sections.
    pub(crate) fn into_sections(self) -> (sections: Vec<Vec<Entry<A>>>)
        ensures
            sections@.map_values(|section: Vec<Entry<A>>| section@) == self@,
    {
        let Menu { sections } = self;
        sections
    }
}

} // verus!
