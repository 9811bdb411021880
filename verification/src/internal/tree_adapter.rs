//! Helpers that bridge the tile [`Tree`] to workbench concepts: finding the
//! tab group that holds a tab, listing a group's tabs, and normalising the
//! tree so that a `Tabs` group only ever holds panes.
//!
//! The editor tree and panel tree store [`TabId`] payloads (not the tabs
//! themselves).
use std::collections::HashMap;

use vstd::prelude::*;

use crate::search::{
    first_index, last_below, lemma_first_from, lemma_first_from_is, lemma_first_from_none,
};
use crate::tiles::{
    lemma_position, lemma_remove_wf, lemma_set_wf, position, Container, ContainerV, Tabs, Tile,
    TileId, TileV, Tiles, TilesV, Tree, TreeV,
};
use crate::workspace::TabId;

verus! {

broadcast use vstd::std_specs::hash::group_hash_axioms;

// ---- Specifications of the queries --------------------------------------

/// Predicate: the tile at position `i` of the order is a pane carrying
/// `handle`.
pub open spec fn pane_pred(t: TilesV, handle: TabId) -> spec_fn(int) -> bool {
    |i: int| t.map[t.order[i]] == TileV::Pane(handle)
}

/// Predicate: the tile at position `i` of the order is a `Tabs` container.
pub open spec fn tabs_pred(t: TilesV) -> spec_fn(int) -> bool {
    |i: int| t.map[t.order[i]] is Container && t.map[t.order[i]]->Container_0 is Tabs
}

/// The first pane, in the order, that carries `handle`.
pub open spec fn find_pane_of_spec(t: TilesV, handle: TabId) -> Option<TileId> {
    match first_index(t.order.len() as int, pane_pred(t, handle)) {
        Some(i) => Some(t.order[i]),
        None => None,
    }
}


/// The first `Tabs` container in the order.
pub open spec fn first_tabs_spec(t: TilesV) -> Option<TileId> {
    match first_index(t.order.len() as int, tabs_pred(t)) {
        Some(i) => Some(t.order[i]),
        None => None,
    }
}

/// The handles carried by the panes among `ids`, in order; ids of
/// containers and of missing tiles contribute nothing.
pub open spec fn pane_handles(t: TilesV, ids: Seq<TileId>) -> Seq<TabId>
    decreases ids.len(),
{
    if ids.len() == 0 {
        Seq::empty()
    } else {
        pane_handles(t, ids.drop_last()) + match t.get(ids.last()) {
            Some(TileV::Pane(h)) => seq![h],
            _ => Seq::empty(),
        }
    }
}

/// The ids among `ids` whose tiles are panes, in order.
pub open spec fn pane_ids(t: TilesV, ids: Seq<TileId>) -> Seq<TileId>
    decreases ids.len(),
{
    if ids.len() == 0 {
        Seq::empty()
    } else {
        pane_ids(t, ids.drop_last()) + match t.get(ids.last()) {
            Some(TileV::Pane(_)) => seq![ids.last()],
            _ => Seq::empty(),
        }
    }
}

/// The handles of the panes a `Tabs` group holds, in tab order; empty when
/// `group` is not a `Tabs` container.
pub open spec fn group_handles(t: TilesV, group: TileId) -> Seq<TabId> {
    match t.get(group) {
        Some(TileV::Container(ContainerV::Tabs { children, .. })) => pane_handles(t, children),
        _ => Seq::empty(),
    }
}

/// The open tab (a tile id) of a `Tabs` group, when it records one.
pub open spec fn active_handle_spec(t: TilesV, group: TileId) -> Option<TileId> {
    match t.get(group) {
        Some(TileV::Container(ContainerV::Tabs { active: Some(a), .. })) => Some(a),
        _ => None,
    }
}

/// Predicate: position `c` of `children` holds a pane carrying handle `h`.
pub open spec fn child_pane_pred(t: TilesV, children: Seq<TileId>, h: u64) -> spec_fn(int) -> bool {
    |c: int| t.get(children[c]) == Some(TileV::Pane(TabId(h)))
}

/// Some position below `j` of `children` holds a pane carrying handle `h`.
pub open spec fn has_pane_before(t: TilesV, children: Seq<TileId>, h: u64, j: int) -> bool {
    exists|c: int| 0 <= c < j && #[trigger] child_pane_pred(t, children, h)(c)
}

/// Predicate: the tile at position `i` of the order is a `Tabs` container
/// holding a pane that carries handle `h`.
pub open spec fn holds_pred(t: TilesV, h: u64) -> spec_fn(int) -> bool {
    |i: int|
        {
            &&& t.map[t.order[i]] is Container
            &&& t.map[t.order[i]]->Container_0 is Tabs
            &&& has_pane_before(
                t,
                t.map[t.order[i]]->Container_0->Tabs_children,
                h,
                t.map[t.order[i]]->Container_0->Tabs_children.len() as int,
            )
        }
}

/// The first `Tabs` container, in the order, that holds a pane carrying
/// `handle` as one of its children; `None` when no `Tabs` container does.
pub open spec fn find_group_of_spec(t: TilesV, handle: TabId) -> Option<TileId> {
    match first_index(t.order.len() as int, holds_pred(t, handle.0)) {
        Some(i) => Some(t.order[i]),
        None => None,
    }
}

proof fn lemma_has_pane_step(t: TilesV, children: Seq<TileId>, h: u64, j: int)
    requires
        0 <= j,
    ensures
        has_pane_before(t, children, h, j + 1) == (has_pane_before(t, children, h, j)
            || child_pane_pred(t, children, h)(j)),
{
    if has_pane_before(t, children, h, j + 1) {
        let c = choose|c: int| 0 <= c < j + 1 && #[trigger] child_pane_pred(t, children, h)(c);
        if c < j {
            assert(has_pane_before(t, children, h, j));
        }
    }
}

/// Each handle that some `Tabs` group holds, mapped to the last such group
/// in the order.
pub open spec fn group_map(t: TilesV) -> Map<u64, TileId> {
    Map::new(
        |h: u64| last_below(holds_pred(t, h), t.order.len() as int) is Some,
        |h: u64| t.order[last_below(holds_pred(t, h), t.order.len() as int)->Some_0],
    )
}

// ---- Queries --------------------------------------------------------------

/// Whether some child among `children` is a pane carrying `handle`.
fn holds_pane(tiles: &Tiles, children: &Vec<TileId>, handle: TabId) -> (held: bool)
    ensures
        held == has_pane_before(tiles@, children@, handle.0, children@.len() as int),
{
    let mut j: usize = 0;
    while j < children.len()
        invariant
            j <= children@.len(),
            !has_pane_before(tiles@, children@, handle.0, j as int),
        decreases children@.len() - j,
    {
        proof {
            lemma_has_pane_step(tiles@, children@, handle.0, j as int);
        }
        match tiles.get(children[j]) {
            Some(Tile::Pane(p)) => {
                if p.0 == handle.0 {
                    assert(child_pane_pred(tiles@, children@, handle.0)(j as int));
                    return true;
                }
            },
            _ => {},
        }
        j += 1;
    }
    false
}

/// The [`TileId`] of the `Tabs` container that holds `handle` as one of its
/// children (the first such container in tile order); `None` when no `Tabs`
/// container holds it, even if a pane carrying it sits elsewhere.
pub fn find_group_of(tree: &Tree, handle: TabId) -> (group: Option<TileId>)
    requires
        tree.tiles.wf(),
    ensures
        group == find_group_of_spec(tree.tiles@, handle),
{
    let ghost t = tree.tiles@;
    let ghost p = holds_pred(t, handle.0);
    let ids = tree.tiles.tile_ids();
    let mut i: usize = 0;
    while i < ids.len()
        invariant
            t == tree.tiles@,
            t.wf(),
            ids@ == t.order,
            i <= ids@.len(),
            p == holds_pred(t, handle.0),
            forall|j: int| 0 <= j < i ==> !#[trigger] p(j),
        decreases ids@.len() - i,
    {
        let id = ids[i];
        assert(t.order.contains(id));
        match tree.tiles.get(id) {
            Some(Tile::Container(Container::Tabs(tabs))) => {
                if holds_pane(&tree.tiles, &tabs.children, handle) {
                    proof {
                        lemma_first_from_is(t.order.len() as int, p, 0, i as int);
                    }
                    return Some(id);
                }
            },
            _ => {},
        }
        i += 1;
    }
    proof {
        lemma_first_from_none(t.order.len() as int, p, 0);
    }
    None
}

/// Position in the order of the first pane carrying `handle`.
fn find_pane_index(tiles: &Tiles, handle: TabId) -> (index: Option<usize>)
    requires
        tiles.wf(),
    ensures
        match index {
            Some(i) => first_index(tiles@.order.len() as int, pane_pred(tiles@, handle)) == Some(
                i as int,
            ) && i < tiles@.order.len(),
            None => first_index(tiles@.order.len() as int, pane_pred(tiles@, handle)) is None,
        },
{
    let ghost t = tiles@;
    let ghost p = pane_pred(t, handle);
    let ids = tiles.tile_ids();
    let mut i: usize = 0;
    while i < ids.len()
        invariant
            t == tiles@,
            t.wf(),
            ids@ == t.order,
            i <= t.order.len(),
            p == pane_pred(t, handle),
            forall|j: int| 0 <= j < i ==> !#[trigger] p(j),
        decreases t.order.len() - i,
    {
        assert(t.order.contains(ids@[i as int]));
        match tiles.get(ids[i]) {
            Some(Tile::Pane(h)) => {
                if *h == handle {
                    proof {
                        lemma_first_from_is(t.order.len() as int, p, 0, i as int);
                    }
                    return Some(i);
                }
            },
            _ => {},
        }
        assert(!p(i as int));
        i += 1;
    }
    proof {
        lemma_first_from_none(t.order.len() as int, p, 0);
    }
    None
}

/// The [`TileId`] of the (first) pane carrying `handle`.
pub fn find_pane_of(tree: &Tree, handle: TabId) -> (pane: Option<TileId>)
    requires
        tree.tiles.wf(),
    ensures
        pane == find_pane_of_spec(tree.tiles@, handle),
{
    match find_pane_index(&tree.tiles, handle) {
        Some(i) => Some(tree.tiles.tile_ids()[i]),
        None => None,
    }
}

/// The first `Tabs` container in the order. Used as the fallback "active
/// group" when no group has been explicitly focused yet.
pub fn first_tabs_container(tree: &Tree) -> (group: Option<TileId>)
    requires
        tree.tiles.wf(),
    ensures
        group == first_tabs_spec(tree.tiles@),
{
    let ghost t = tree.tiles@;
    let ghost p = tabs_pred(t);
    let ids = tree.tiles.tile_ids();
    let mut i: usize = 0;
    while i < ids.len()
        invariant
            t == tree.tiles@,
            t.wf(),
            ids@ == t.order,
            i <= t.order.len(),
            p == tabs_pred(t),
            forall|j: int| 0 <= j < i ==> !#[trigger] p(j),
        decreases t.order.len() - i,
    {
        assert(t.order.contains(ids@[i as int]));
        match tree.tiles.get(ids[i]) {
            Some(Tile::Container(Container::Tabs(_))) => {
                proof {
                    lemma_first_from_is(t.order.len() as int, p, 0, i as int);
                }
                return Some(ids[i]);
            },
            _ => {},
        }
        assert(!p(i as int));
        i += 1;
    }
    proof {
        lemma_first_from_none(t.order.len() as int, p, 0);
    }
    None
}

/// The handles carried by the panes among `ids[lo..hi]`, in order.
fn pane_handles_in(tiles: &Tiles, ids: &Vec<TileId>, lo: usize, hi: usize) -> (handles: Vec<TabId>)
    requires
        lo <= hi <= ids@.len(),
    ensures
        handles@ == pane_handles(tiles@, ids@.subrange(lo as int, hi as int)),
{
    let mut handles: Vec<TabId> = Vec::new();
    let mut i = lo;
    while i < hi
        invariant
            lo <= i <= hi <= ids@.len(),
            handles@ == pane_handles(tiles@, ids@.subrange(lo as int, i as int)),
        decreases hi - i,
    {
        let ghost before = handles@;
        match tiles.get(ids[i]) {
            Some(Tile::Pane(h)) => {
                handles.push(*h);
            },
            _ => {},
        }
        assert(ids@.subrange(lo as int, i + 1).drop_last() =~= ids@.subrange(lo as int, i as int));
        i += 1;
    }
    handles
}

/// The ids among `ids[lo..hi]` whose tiles are panes, in order.
fn pane_ids_in(tiles: &Tiles, ids: &Vec<TileId>, lo: usize, hi: usize) -> (panes: Vec<TileId>)
    requires
        lo <= hi <= ids@.len(),
    ensures
        panes@ == pane_ids(tiles@, ids@.subrange(lo as int, hi as int)),
{
    let mut panes: Vec<TileId> = Vec::new();
    let mut i = lo;
    while i < hi
        invariant
            lo <= i <= hi <= ids@.len(),
            panes@ == pane_ids(tiles@, ids@.subrange(lo as int, i as int)),
        decreases hi - i,
    {
        match tiles.get(ids[i]) {
            Some(Tile::Pane(_)) => {
                panes.push(ids[i]);
            },
            _ => {},
        }
        assert(ids@.subrange(lo as int, i + 1).drop_last() =~= ids@.subrange(lo as int, i as int));
        i += 1;
    }
    panes
}

/// All tab handles in the given `Tabs` container, in tab order; empty when
/// `group` is not a `Tabs` container.
pub fn handles_in_group(tree: &Tree, group: TileId) -> (handles: Vec<TabId>)
    ensures
        handles@ == group_handles(tree.tiles@, group),
{
    match tree.tiles.get(group) {
        Some(Tile::Container(Container::Tabs(tabs))) => {
            let handles = pane_handles_in(&tree.tiles, &tabs.children, 0, tabs.children.len());
            assert(tabs.children@.subrange(0, tabs.children@.len() as int) =~= tabs.children@);
            handles
        },
        _ => Vec::new(),
    }
}

/// Every tab handle carried by a pane anywhere in the tree, in tile order.
pub fn all_handles(tree: &Tree) -> (handles: Vec<TabId>)
    ensures
        handles@ == pane_handles(tree.tiles@, tree.tiles@.order),
{
    let ids = tree.tiles.tile_ids();
    let mut handles: Vec<TabId> = Vec::new();
    let mut i: usize = 0;
    while i < ids.len()
        invariant
            ids@ == tree.tiles@.order,
            i <= ids@.len(),
            handles@ == pane_handles(tree.tiles@, ids@.take(i as int)),
        decreases ids@.len() - i,
    {
        match tree.tiles.get(ids[i]) {
            Some(Tile::Pane(h)) => {
                handles.push(*h);
            },
            _ => {},
        }
        assert(ids@.take(i + 1).drop_last() =~= ids@.take(i as int));
        i += 1;
    }
    assert(ids@.take(ids@.len() as int) =~= ids@);
    handles
}

/// The open tab of the given `Tabs` container, when it is a pane.
pub fn active_handle_in_group(tree: &Tree, group: TileId) -> (handle: Option<TabId>)
    ensures
        handle == match active_handle_spec(tree.tiles@, group) {
            Some(a) => match tree.tiles@.get(a) {
                Some(TileV::Pane(p)) => Some(p),
                _ => None,
            },
            None => None,
        },
{
    let active = match tree.tiles.get(group) {
        Some(Tile::Container(Container::Tabs(tabs))) => match tabs.active {
            Some(a) => a,
            None => {
                return None;
            },
        },
        _ => {
            return None;
        },
    };
    match tree.tiles.get(active) {
        Some(Tile::Pane(p)) => Some(*p),
        _ => None,
    }
}

/// Map every tab handle to the `Tabs` group it currently lives in (the last
/// such group in tile order, should several hold it). Captured before a
/// frame's drag-drop so [`normalize_tab_groups`] can regroup the panes left
/// behind with the split half that kept their pre-drop siblings.
pub fn group_of_each_handle(tree: &Tree) -> (groups: HashMap<u64, TileId>)
    requires
        tree.tiles.wf(),
    ensures
        groups@ == group_map(tree.tiles@),
{
    let ghost t = tree.tiles@;
    let ids = tree.tiles.tile_ids();
    let n = ids.len();
    let mut groups: HashMap<u64, TileId> = HashMap::new();
    let mut i: usize = 0;
    while i < n
        invariant
            t == tree.tiles@,
            t.wf(),
            ids@ == t.order,
            n == t.order.len(),
            i <= n,
            forall|h: u64| #[trigger]
                groups@.contains_key(h) <==> last_below(holds_pred(t, h), i as int) is Some,
            forall|h: u64| #[trigger]
                groups@.contains_key(h) ==> groups@[h] == t.order[last_below(
                    holds_pred(t, h),
                    i as int,
                )->Some_0],
        decreases n - i,
    {
        let id = ids[i];
        assert(t.order.contains(id));
        match tree.tiles.get(id) {
            Some(Tile::Container(Container::Tabs(tabs))) => {
                let ghost ch = tabs.children@;
                let mut j: usize = 0;
                while j < tabs.children.len()
                    invariant
                        t == tree.tiles@,
                        ids@ == t.order,
                        n == t.order.len(),
                        i < n,
                        id == t.order[i as int],
                        t.map[id] == TileV::Container(ContainerV::Tabs { children: ch, active: tabs.active }),
                        ch == tabs.children@,
                        j <= ch.len(),
                        forall|h: u64| #[trigger]
                            groups@.contains_key(h) <==> (last_below(holds_pred(t, h), i as int) is Some
                                || has_pane_before(t, ch, h, j as int)),
                        forall|h: u64| #[trigger]
                            groups@.contains_key(h) ==> groups@[h] == if has_pane_before(t, ch, h, j as int) {
                                id
                            } else {
                                t.order[last_below(holds_pred(t, h), i as int)->Some_0]
                            },
                    decreases ch.len() - j,
                {
                    let child = tabs.children[j];
                    proof {
                        assert forall|h: u64| #![auto] has_pane_before(t, ch, h, j + 1) == (has_pane_before(t, ch, h, j as int)
                            || child_pane_pred(t, ch, h)(j as int)) by {
                            lemma_has_pane_step(t, ch, h, j as int);
                        }
                    }
                    match tree.tiles.get(child) {
                        Some(Tile::Pane(h)) => {
                            groups.insert(h.0, id);
                        },
                        _ => {},
                    }
                    j += 1;
                }
                proof {
                    assert forall|h: u64| #![auto]
                        holds_pred(t, h)(i as int) == has_pane_before(t, ch, h, ch.len() as int) by {}
                }
            },
            _ => {
                proof {
                    assert forall|h: u64| #![auto] !holds_pred(t, h)(i as int) by {}
                }
            },
        }
        i += 1;
    }
    proof {
        assert(groups@ =~= group_map(t));
    }
    groups
}

// ---- Structure: leaves and child replacement --------------------------------

/// Leaf `Tabs` containers reachable under `id`, in traversal order,
/// descending through at most `fuel` levels of splits.
pub open spec fn leaves(t: TilesV, id: TileId, fuel: nat) -> Seq<TileId>
    decreases fuel, 0nat,
{
    match t.get(id) {
        Some(TileV::Container(ContainerV::Tabs { .. })) => seq![id],
        Some(TileV::Container(c)) => if fuel == 0 {
            Seq::empty()
        } else {
            leaves_list(t, c.children(), (fuel - 1) as nat)
        },
        _ => Seq::empty(),
    }
}

/// The leaves under each of `ids`, concatenated in order.
pub open spec fn leaves_list(t: TilesV, ids: Seq<TileId>, fuel: nat) -> Seq<TileId>
    decreases fuel, ids.len(),
{
    if ids.len() == 0 {
        Seq::empty()
    } else {
        leaves_list(t, ids.drop_last(), fuel) + leaves(t, ids.last(), fuel)
    }
}

/// Append the leaf `Tabs` containers under `id` to `out`.
fn walk(tiles: &Tiles, id: TileId, fuel: usize, out: &mut Vec<TileId>)
    ensures
        final(out)@ == old(out)@ + leaves(tiles@, id, fuel as nat),
    decreases fuel,
{
    let ghost start = out@;
    match tiles.get(id) {
        Some(Tile::Container(Container::Tabs(_))) => {
            out.push(id);
        },
        Some(Tile::Container(c)) => {
            if fuel > 0 {
                let children = c.children();
                let mut j: usize = 0;
                while j < children.len()
                    invariant
                        children@ == c@.children(),
                        fuel > 0,
                        j <= children@.len(),
                        out@ == start + leaves_list(tiles@, children@.take(j as int), (fuel - 1) as nat),
                    decreases children@.len() - j,
                {
                    walk(tiles, children[j], fuel - 1, out);
                    proof {
                        assert(children@.take(j + 1).drop_last() =~= children@.take(j as int));
                        assert(children@.take(j + 1).last() == children@[j as int]);
                    }
                    j += 1;
                }
                proof {
                    assert(children@.take(children@.len() as int) =~= children@);
                }
            } else {
                assert(out@ =~= start + Seq::<TileId>::empty());
            }
        },
        _ => {
            assert(out@ =~= start + Seq::<TileId>::empty());
        },
    }
}

/// Leaf `Tabs` containers reachable under `root`, in traversal order. The
/// walk descends through at most as many levels as there are tiles, which a
/// tree without cycles never exceeds.
pub fn leaf_tab_groups(tree: &Tree, root: TileId) -> (groups: Vec<TileId>)
    ensures
        groups@ == leaves(tree.tiles@, root, tree.tiles@.order.len() as nat),
{
    let mut groups: Vec<TileId> = Vec::new();
    walk(&tree.tiles, root, tree.tiles.len(), &mut groups);
    assert(groups@ =~= leaves(tree.tiles@, root, tree.tiles@.order.len() as nat));
    groups
}

/// `old` replaced by `new`.
pub open spec fn swap_id(c: TileId, old: TileId, new: TileId) -> TileId {
    if c == old {
        new
    } else {
        c
    }
}

/// A container with child `old` replaced by `new`: every occurrence for
/// `Tabs` (and the open tab) and `Linear` (whose share moves to `new`), the
/// first occurrence for a `Grid`.
pub open spec fn replaced(c: ContainerV, old: TileId, new: TileId) -> ContainerV {
    match c {
        ContainerV::Tabs { children, active } => ContainerV::Tabs {
            children: children.map_values(|x: TileId| swap_id(x, old, new)),
            active: if active == Some(old) {
                Some(new)
            } else {
                active
            },
        },
        ContainerV::Linear { children, dir, shares } => ContainerV::Linear {
            children: children.map_values(|x: TileId| swap_id(x, old, new)),
            dir,
            shares: if shares.contains_key(old.0) {
                shares.remove(old.0).insert(new.0, shares[old.0])
            } else {
                shares
            },
        },
        ContainerV::Grid { children } => ContainerV::Grid {
            children: match position(children, old) {
                Some(k) => children.update(k, new),
                None => children,
            },
        },
    }
}

/// Replace every occurrence of `from` with `to` in `children`.
fn swap_children(children: &mut Vec<TileId>, from: TileId, to: TileId)
    ensures
        final(children)@ == old(children)@.map_values(|x: TileId| swap_id(x, from, to)),
{
    let ghost start = children@;
    let mut i: usize = 0;
    while i < children.len()
        invariant
            children@.len() == start.len(),
            i <= start.len(),
            forall|k: int| 0 <= k < i ==> children@[k] == swap_id(start[k], from, to),
            forall|k: int| i <= k < start.len() ==> children@[k] == start[k],
        decreases start.len() - i,
    {
        if children[i] == from {
            children[i] = to;
        }
        i += 1;
    }
    assert(children@ =~= start.map_values(|x: TileId| swap_id(x, from, to)));
}

/// Replace `from` with `to` in a container's child list, in place.
fn replace_child(container: &mut Container, from: TileId, to: TileId)
    ensures
        final(container)@ == replaced(old(container)@, from, to),
{
    match container {
        Container::Tabs(tabs) => {
            swap_children(&mut tabs.children, from, to);
            match tabs.active {
                Some(a) => {
                    if a == from {
                        tabs.active = Some(to);
                    }
                },
                None => {},
            }
        },
        Container::Linear(linear) => {
            let ghost shares = linear.shares@;
            swap_children(&mut linear.children, from, to);
            match linear.shares.remove(&from.0) {
                Some(share) => {
                    linear.shares.insert(to.0, share);
                    assert(linear.shares@ =~= shares.remove(from.0).insert(to.0, shares[from.0]));
                },
                None => {
                    assert(linear.shares@ =~= shares);
                },
            }
        },
        Container::Grid(grid) => {
            match crate::tiles::index_in(&grid.children, from) {
                Some(k) => {
                    proof {
                        lemma_position(grid.children@, from);
                    }
                    grid.children[k] = to;
                },
                None => {},
            }
        },
    }
}

// ---- One normalisation step -------------------------------------------------

/// `Tabs[.., Tabs[x, y], ..]` becomes `Tabs[.., x, y, ..]`: the inner group
/// at position `idx` of `group` is removed and its tabs take its place; if it
/// was the open tab, its first tab becomes the open one.
pub open spec fn flatten_spec(t: TreeV, group: TileId, idx: int, child: TileId) -> TreeV {
    let t1 = t.tiles.remove(child);
    match t.tiles.get(child) {
        Some(TileV::Container(ContainerV::Tabs { children: inner, .. })) => match t1.get(group) {
            Some(TileV::Container(ContainerV::Tabs { children, active })) => TreeV {
                root: t.root,
                tiles: t1.set(
                    group,
                    TileV::Container(
                        ContainerV::Tabs {
                            children: children.take(idx) + inner + children.skip(idx + 1),
                            active: if active == Some(child) {
                                if inner.len() > 0 {
                                    Some(inner[0])
                                } else {
                                    None
                                }
                            } else {
                                active
                            },
                        },
                    ),
                ),
            },
            _ => TreeV { root: t.root, tiles: t1 },
        },
        _ => TreeV { root: t.root, tiles: t1 },
    }
}

/// Append `src[lo..hi]` to `out`.
fn append_range(out: &mut Vec<TileId>, src: &Vec<TileId>, lo: usize, hi: usize)
    requires
        lo <= hi <= src@.len(),
    ensures
        final(out)@ == old(out)@ + src@.subrange(lo as int, hi as int),
{
    let ghost start = out@;
    let mut i = lo;
    while i < hi
        invariant
            lo <= i <= hi <= src@.len(),
            out@ == start + src@.subrange(lo as int, i as int),
        decreases hi - i,
    {
        out.push(src[i]);
        assert(src@.subrange(lo as int, i + 1) =~= src@.subrange(lo as int, i as int).push(src@[i as int]));
        i += 1;
    }
}

/// `Tabs[.., Tabs[x, y], ..]` → `Tabs[.., x, y, ..]`: a tab group dropped
/// into another tab just merges its tabs into the host group.
fn flatten_nested_tabs(tree: &mut Tree, group_id: TileId, idx: usize, child_id: TileId)
    requires
        old(tree).tiles.wf(),
        old(tree).tiles@.remove(child_id).get(group_id) matches Some(
            TileV::Container(ContainerV::Tabs { children, .. }),
        ) ==> idx < children.len(),
    ensures
        final(tree).tiles.wf(),
        final(tree)@ == flatten_spec(old(tree)@, group_id, idx as int, child_id),
{
    let ghost t = tree@;
    proof {
        lemma_remove_wf(t.tiles, child_id);
    }
    let inner = match tree.tiles.remove(child_id) {
        Some(Tile::Container(Container::Tabs(inner))) => inner,
        _ => {
            return ;
        },
    };
    let ghost t1 = tree.tiles@;
    assert(t1 == t.tiles.remove(child_id));
    match tree.tiles.take(group_id) {
        Some(Tile::Container(Container::Tabs(tabs))) => {
            assert(t1.get(group_id) == Some(TileV::Container(ContainerV::Tabs { children: tabs.children@, active: tabs.active })));
            let n = tabs.children.len();
            assert(idx < n);
            let mut children: Vec<TileId> = Vec::new();
            append_range(&mut children, &tabs.children, 0, idx);
            append_range(&mut children, &inner.children, 0, inner.children.len());
            append_range(&mut children, &tabs.children, idx + 1, n);
            let first_inner = if inner.children.len() > 0 {
                Some(inner.children[0])
            } else {
                None
            };
            let active = match tabs.active {
                Some(a) => if a == child_id {
                    first_inner
                } else {
                    Some(a)
                },
                None => None,
            };
            let ghost merged = TileV::Container(
                ContainerV::Tabs {
                    children: tabs.children@.take(idx as int) + inner.children@ + tabs.children@.skip(
                        idx + 1,
                    ),
                    active: active,
                },
            );
            proof {
                assert(children@ =~= tabs.children@.take(idx as int) + inner.children@
                    + tabs.children@.skip(idx + 1));
                assert(inner.children@.subrange(0, inner.children@.len() as int) =~= inner.children@);
            }
            tree.tiles.put_back(group_id, Tile::Container(Container::Tabs(Tabs { children, active })));
            proof {
                assert(tree.tiles@.map =~= t1.map.insert(group_id, merged));
                lemma_set_wf(t1, group_id, merged);
            }
        },
        Some(other) => {
            tree.tiles.put_back(group_id, other);
            proof {
                assert(tree.tiles@.map =~= t1.map);
            }
        },
        None => {
            proof {
                assert(tree.tiles@.map =~= t1.map);
            }
        },
    }
}

/// `h` lived in `group` before the drop, according to `prev`.
pub open spec fn was_in(prev: Map<u64, TileId>, h: TabId, group: TileId) -> bool {
    prev.contains_key(h.0) && prev[h.0] == group
}

/// Some handle among `handles` lived in `group` before the drop.
pub open spec fn any_was_in(prev: Map<u64, TileId>, handles: Seq<TabId>, group: TileId) -> bool {
    exists|j: int| 0 <= j < handles.len() && #[trigger] was_in(prev, handles[j], group)
}

/// Predicate: leaf `k` holds a pane that lived in `group` before the drop.
pub open spec fn regroup_pred(
    t: TilesV,
    leaves: Seq<TileId>,
    group: TileId,
    prev: Map<u64, TileId>,
) -> spec_fn(int) -> bool {
    |k: int| any_was_in(prev, group_handles(t, leaves[k]), group)
}

/// The split leaf the loose panes of `group` join: the first leaf holding a
/// pane that lived in `group` before the drop, else the first leaf.
pub open spec fn regroup_target(
    t: TilesV,
    leaves: Seq<TileId>,
    group: TileId,
    prev: Map<u64, TileId>,
) -> Option<TileId> {
    match first_index(leaves.len() as int, regroup_pred(t, leaves, group, prev)) {
        Some(k) => Some(leaves[k]),
        None => if leaves.len() > 0 {
            Some(leaves[0])
        } else {
            None
        },
    }
}

/// `Tabs[loose.., split, loose..]` with `split` lifted to the group's own
/// level: the loose panes before the split join the front of the target leaf
/// (see [`regroup_target`]), those after it its back; the split takes the
/// group's place in its parent (or as the root); the group is removed.
pub open spec fn lift_split_spec(
    t: TreeV,
    group: TileId,
    split: TileId,
    prev: Map<u64, TileId>,
) -> TreeV {
    match t.tiles.get(group) {
        Some(TileV::Container(ContainerV::Tabs { children, .. })) => match position(children, split) {
            Some(pos) => {
                let before = pane_ids(t.tiles, children.take(pos));
                let after = pane_ids(t.tiles, children.skip(pos));
                let lv = leaves(t.tiles, split, t.tiles.order.len() as nat);
                let t1 = match regroup_target(t.tiles, lv, group, prev) {
                    Some(tg) => match t.tiles.get(tg) {
                        Some(TileV::Container(ContainerV::Tabs { children: lc, active: la })) => t.tiles.set(
                            tg,
                            TileV::Container(ContainerV::Tabs { children: before + lc + after, active: la }),
                        ),
                        _ => t.tiles,
                    },
                    None => t.tiles,
                };
                match t1.parent_of(group) {
                    None => TreeV { root: Some(split), tiles: t1.remove(group) },
                    Some(p) => TreeV {
                        root: t.root,
                        tiles: match t1.get(p) {
                            Some(TileV::Container(c)) => t1.set(
                                p,
                                TileV::Container(replaced(c, group, split)),
                            ),
                            _ => t1,
                        }.remove(group),
                    },
                }
            },
            None => t,
        },
        _ => t,
    }
}

/// Whether any of `handles` lived in `group` before the drop.
fn handles_were_in(handles: &Vec<TabId>, group: TileId, prev: &HashMap<u64, TileId>) -> (found: bool)
    ensures
        found == any_was_in(prev@, handles@, group),
{
    let mut j: usize = 0;
    while j < handles.len()
        invariant
            j <= handles@.len(),
            forall|k: int| 0 <= k < j ==> !#[trigger] was_in(prev@, handles@[k], group),
        decreases handles@.len() - j,
    {
        let h = handles[j];
        match prev.get(&h.0) {
            Some(g) => {
                if *g == group {
                    assert(was_in(prev@, handles@[j as int], group));
                    return true;
                }
            },
            None => {},
        }
        j += 1;
    }
    false
}

/// The split leaf the loose panes of `group` join (see [`regroup_target`]).
fn pick_target(tree: &Tree, leaves: &Vec<TileId>, group: TileId, prev: &HashMap<u64, TileId>) -> (target: Option<TileId>)
    ensures
        target == regroup_target(tree.tiles@, leaves@, group, prev@),
{
    let ghost p = regroup_pred(tree.tiles@, leaves@, group, prev@);
    let mut k: usize = 0;
    while k < leaves.len()
        invariant
            k <= leaves@.len(),
            p == regroup_pred(tree.tiles@, leaves@, group, prev@),
            forall|j: int| 0 <= j < k ==> !#[trigger] p(j),
        decreases leaves@.len() - k,
    {
        let handles = handles_in_group(tree, leaves[k]);
        if handles_were_in(&handles, group, prev) {
            proof {
                lemma_first_from_is(leaves@.len() as int, p, 0, k as int);
            }
            return Some(leaves[k]);
        }
        k += 1;
    }
    proof {
        lemma_first_from_none(leaves@.len() as int, p, 0);
    }
    if leaves.len() > 0 {
        Some(leaves[0])
    } else {
        None
    }
}

/// `Tabs[loose.., split, loose..]` → lift `split` to the group's own level,
/// merging the loose panes into the split leaf that kept their pre-drop
/// siblings. `split` is a `Linear`/`Grid` child of the `Tabs`.
fn lift_nested_split(
    tree: &mut Tree,
    group_id: TileId,
    split_id: TileId,
    prev_group_of: &HashMap<u64, TileId>,
)
    requires
        old(tree).tiles.wf(),
    ensures
        final(tree).tiles.wf(),
        final(tree)@ == lift_split_spec(old(tree)@, group_id, split_id, prev_group_of@),
{
    let ghost t = tree@;
    // Loose pane children of the group, partitioned by side of the split so
    // the merged tab order reads naturally.
    let (before, after) = match tree.tiles.get(group_id) {
        Some(Tile::Container(Container::Tabs(tabs))) => match crate::tiles::index_in(
            &tabs.children,
            split_id,
        ) {
            Some(pos) => {
                proof {
                    lemma_position(tabs.children@, split_id);
                }
                let before = pane_ids_in(&tree.tiles, &tabs.children, 0, pos);
                let after = pane_ids_in(&tree.tiles, &tabs.children, pos, tabs.children.len());
                (before, after)
            },
            None => {
                return ;
            },
        },
        _ => {
            return ;
        },
    };
    // Pick the split leaf the loose panes belong to.
    let leaves = leaf_tab_groups(tree, split_id);
    let target = pick_target(tree, &leaves, group_id, prev_group_of);
    match target {
        Some(tg) => {
            let ghost t0 = tree.tiles@;
            match tree.tiles.take(tg) {
                Some(Tile::Container(Container::Tabs(leaf))) => {
                    // before-panes ahead of the leaf's tabs, after-panes behind them.
                    let mut merged = before;
                    append_range(&mut merged, &leaf.children, 0, leaf.children.len());
                    append_range(&mut merged, &after, 0, after.len());
                    assert(leaf.children@.subrange(0, leaf.children@.len() as int) =~= leaf.children@);
                    assert(after@.subrange(0, after@.len() as int) =~= after@);
                    let ghost v = TileV::Container(
                        ContainerV::Tabs { children: merged@, active: leaf.active },
                    );
                    tree.tiles.put_back(tg, Tile::Container(Container::Tabs(Tabs { children: merged, active: leaf.active })));
                    proof {
                        assert(tree.tiles@.map =~= t0.map.insert(tg, v));
                        lemma_set_wf(t0, tg, v);
                    }
                },
                Some(other) => {
                    tree.tiles.put_back(tg, other);
                    proof {
                        assert(tree.tiles@.map =~= t0.map);
                    }
                },
                None => {
                    proof {
                        assert(tree.tiles@.map =~= t0.map);
                    }
                },
            }
        },
        None => {},
    }
    // Replace the now-redundant group with the lifted split.
    let ghost t1 = tree.tiles@;
    match tree.tiles.parent_of(group_id) {
        None => {
            tree.root = Some(split_id);
        },
        Some(parent) => {
            match tree.tiles.take(parent) {
                Some(Tile::Container(c)) => {
                    let mut c = c;
                    replace_child(&mut c, group_id, split_id);
                    let ghost v = TileV::Container(c@);
                    tree.tiles.put_back(parent, Tile::Container(c));
                    proof {
                        assert(tree.tiles@.map =~= t1.map.insert(parent, v));
                        lemma_set_wf(t1, parent, v);
                    }
                },
                Some(other) => {
                    tree.tiles.put_back(parent, other);
                    proof {
                        assert(tree.tiles@.map =~= t1.map);
                    }
                },
                None => {
                    proof {
                        assert(tree.tiles@.map =~= t1.map);
                    }
                },
            }
        },
    }
    tree.tiles.remove(group_id);
}

// ---- Finding and resolving one nesting ------------------------------------------

/// The children of the `Tabs` container at position `i` of the order.
pub open spec fn tabs_children_at(t: TilesV, i: int) -> Seq<TileId> {
    t.map[t.order[i]]->Container_0->Tabs_children
}

/// Predicate: position `j` of `children` holds a container.
pub open spec fn container_child_pred(t: TilesV, children: Seq<TileId>) -> spec_fn(int) -> bool {
    |j: int| t.get(children[j]) matches Some(TileV::Container(_))
}

/// Predicate: the tile at position `i` of the order is a `Tabs` container
/// with a container among its children.
pub open spec fn nests_pred(t: TilesV) -> spec_fn(int) -> bool {
    |i: int|
        {
            &&& t.map[t.order[i]] is Container
            &&& t.map[t.order[i]]->Container_0 is Tabs
            &&& first_index(
                tabs_children_at(t, i).len() as int,
                container_child_pred(t, tabs_children_at(t, i)),
            ) is Some
        }
}

/// The first offending nesting: the first `Tabs` container in the order
/// with a container child (by its position `i`), and the position `j` of its
/// first container child.
pub open spec fn offender(t: TilesV) -> Option<(int, int)> {
    match first_index(t.order.len() as int, nests_pred(t)) {
        Some(i) => match first_index(
            tabs_children_at(t, i).len() as int,
            container_child_pred(t, tabs_children_at(t, i)),
        ) {
            Some(j) => Some((i, j)),
            None => None,
        },
        None => None,
    }
}

/// The workbench invariant: no child of a `Tabs` group is a container.
pub open spec fn tabs_hold_only_panes(t: TilesV) -> bool {
    forall|id: TileId, j: int|
        t.map.contains_key(id) && t.map[id] is Container && t.map[id]->Container_0 is Tabs && 0 <= j
            < t.map[id]->Container_0->Tabs_children.len() ==> !(#[trigger] t.get(
            t.map[id]->Container_0->Tabs_children[j],
        ) matches Some(TileV::Container(_)))
}

/// One normalisation step: resolve the first offending nesting, by
/// flattening a nested `Tabs` or lifting a nested split; `None` when there
/// is none.
pub open spec fn lift_one_spec(t: TreeV, prev: Map<u64, TileId>) -> Option<TreeV> {
    match offender(t.tiles) {
        Some((i, j)) => {
            let group = t.tiles.order[i];
            let child = tabs_children_at(t.tiles, i)[j];
            Some(
                if t.tiles.get(child) matches Some(TileV::Container(ContainerV::Tabs { .. })) {
                    flatten_spec(t, group, j, child)
                } else {
                    lift_split_spec(t, group, child, prev)
                },
            )
        },
        None => None,
    }
}

/// Repeat [`lift_one_spec`] until no offending nesting is left. Each step
/// removes one tile (see [`lemma_normalize`]).
pub open spec fn normalize_spec(t: TreeV, prev: Map<u64, TileId>) -> TreeV
    decreases t.tiles.order.len(),
{
    match lift_one_spec(t, prev) {
        Some(t2) => if t2.tiles.order.len() < t.tiles.order.len() {
            normalize_spec(t2, prev)
        } else {
            t2
        },
        None => t,
    }
}

/// The panes of a collection: each pane tile's id mapped to its handle.
pub open spec fn pane_entries(t: TilesV) -> Map<TileId, TabId> {
    Map::new(
        |id: TileId| t.map.contains_key(id) && t.map[id] is Pane,
        |id: TileId| t.map[id]->Pane_0,
    )
}

/// Facts about the first offending nesting.
proof fn lemma_offender(t: TilesV)
    requires
        t.wf(),
    ensures
        match offender(t) {
            Some((i, j)) => {
                &&& 0 <= i < t.order.len()
                &&& t.map[t.order[i]] is Container
                &&& t.map[t.order[i]]->Container_0 is Tabs
                &&& 0 <= j < tabs_children_at(t, i).len()
                &&& t.get(tabs_children_at(t, i)[j]) matches Some(TileV::Container(_))
            },
            None => tabs_hold_only_panes(t),
        },
{
    let n = t.order.len() as int;
    lemma_first_from(n, nests_pred(t), 0);
    match first_index(n, nests_pred(t)) {
        Some(i) => {
            let ch = tabs_children_at(t, i);
            lemma_first_from(ch.len() as int, container_child_pred(t, ch), 0);
            assert(nests_pred(t)(i));
        },
        None => {
            assert forall|id: TileId, j: int|
                t.map.contains_key(id) && t.map[id] is Container && t.map[id]->Container_0 is Tabs
                    && 0 <= j < t.map[id]->Container_0->Tabs_children.len() implies !(#[trigger] t.get(
                t.map[id]->Container_0->Tabs_children[j],
            ) matches Some(TileV::Container(_))) by {
                assert(t.order.contains(id));
                let i = choose|i: int| 0 <= i < t.order.len() && t.order[i] == id;
                assert(!nests_pred(t)(i));
                let ch = tabs_children_at(t, i);
                lemma_first_from(ch.len() as int, container_child_pred(t, ch), 0);
                assert(!container_child_pred(t, ch)(j));
            }
        },
    }
}

/// Replacing a container by a container leaves the panes alone.
proof fn lemma_set_container_keeps_panes(t: TilesV, id: TileId, v: TileV)
    requires
        t.map.contains_key(id),
        t.map[id] is Container,
        v is Container,
    ensures
        pane_entries(t.set(id, v)) == pane_entries(t),
{
    assert(pane_entries(t.set(id, v)) =~= pane_entries(t));
}

/// Removing a container leaves the panes alone.
proof fn lemma_remove_container_keeps_panes(t: TilesV, id: TileId)
    requires
        t.wf(),
        t.map.contains_key(id) ==> t.map[id] is Container,
    ensures
        pane_entries(t.remove(id)) == pane_entries(t),
{
    lemma_remove_wf(t, id);
    assert(pane_entries(t.remove(id)) =~= pane_entries(t));
}

/// One normalisation step keeps the collection well formed, removes exactly
/// one tile, and keeps every pane.
proof fn lemma_step(t: TreeV, prev: Map<u64, TileId>)
    requires
        t.tiles.wf(),
        lift_one_spec(t, prev) is Some,
    ensures
        lift_one_spec(t, prev)->Some_0.tiles.wf(),
        lift_one_spec(t, prev)->Some_0.tiles.order.len() + 1 == t.tiles.order.len(),
        pane_entries(lift_one_spec(t, prev)->Some_0.tiles) == pane_entries(t.tiles),
{
    lemma_offender(t.tiles);
    let (i, j) = offender(t.tiles)->Some_0;
    let group = t.tiles.order[i];
    let ch = tabs_children_at(t.tiles, i);
    let child = ch[j];
    assert(t.tiles.order.contains(group));
    if t.tiles.get(child) matches Some(TileV::Container(ContainerV::Tabs { .. })) {
        let t1 = t.tiles.remove(child);
        lemma_remove_wf(t.tiles, child);
        lemma_remove_container_keeps_panes(t.tiles, child);
        match t1.get(group) {
            Some(TileV::Container(ContainerV::Tabs { children, active })) => {
                let inner = t.tiles.get(child)->Some_0->Container_0->Tabs_children;
                let v = TileV::Container(
                    ContainerV::Tabs {
                        children: children.take(j) + inner + children.skip(j + 1),
                        active: if active == Some(child) {
                            if inner.len() > 0 {
                                Some(inner[0])
                            } else {
                                None
                            }
                        } else {
                            active
                        },
                    },
                );
                lemma_set_wf(t1, group, v);
                lemma_set_container_keeps_panes(t1, group, v);
            },
            _ => {},
        }
    } else {
        let split = child;
        let children = ch;
        lemma_position(children, split);
        assert(children.contains(split));
        let pos = position(children, split)->Some_0;
        let before = pane_ids(t.tiles, children.take(pos));
        let after = pane_ids(t.tiles, children.skip(pos));
        let lv = leaves(t.tiles, split, t.tiles.order.len() as nat);
        let t1 = match regroup_target(t.tiles, lv, group, prev) {
            Some(tg) => match t.tiles.get(tg) {
                Some(TileV::Container(ContainerV::Tabs { children: lc, active: la })) => {
                    let v = TileV::Container(ContainerV::Tabs { children: before + lc + after, active: la });
                    lemma_set_wf(t.tiles, tg, v);
                    lemma_set_container_keeps_panes(t.tiles, tg, v);
                    t.tiles.set(tg, v)
                },
                _ => t.tiles,
            },
            None => t.tiles,
        };
        assert(t1.wf());
        assert(t1.order == t.tiles.order);
        assert(t1.map.contains_key(group) && t1.map[group] is Container);
        let t2 = match t1.parent_of(group) {
            None => t1,
            Some(p) => {
                let k = first_index(t1.order.len() as int, crate::tiles::parent_pred(t1, group))->Some_0;
                lemma_first_from(t1.order.len() as int, crate::tiles::parent_pred(t1, group), 0);
                assert(crate::tiles::parent_pred(t1, group)(k));
                assert(t1.order.contains(p));
                match t1.get(p) {
                    Some(TileV::Container(c)) => {
                        let v = TileV::Container(replaced(c, group, split));
                        lemma_set_wf(t1, p, v);
                        lemma_set_container_keeps_panes(t1, p, v);
                        t1.set(p, v)
                    },
                    _ => t1,
                }
            },
        };
        assert(t2.wf());
        assert(t2.order == t.tiles.order);
        assert(t2.map.contains_key(group) && t2.map[group] is Container);
        lemma_remove_wf(t2, group);
        lemma_remove_container_keeps_panes(t2, group);
    }
}

/// Normalising keeps the collection well formed and every pane, never adds
/// a tile, and leaves no offending nesting.
pub proof fn lemma_normalize(t: TreeV, prev: Map<u64, TileId>)
    requires
        t.tiles.wf(),
    ensures
        normalize_spec(t, prev).tiles.wf(),
        offender(normalize_spec(t, prev).tiles) is None,
        tabs_hold_only_panes(normalize_spec(t, prev).tiles),
        pane_entries(normalize_spec(t, prev).tiles) == pane_entries(t.tiles),
        normalize_spec(t, prev).tiles.order.len() <= t.tiles.order.len(),
    decreases t.tiles.order.len(),
{
    match lift_one_spec(t, prev) {
        Some(t2) => {
            lemma_step(t, prev);
            lemma_normalize(t2, prev);
        },
        None => {
            lemma_offender(t.tiles);
        },
    }
}

/// Normalising a tree whose `Tabs` groups already hold only panes changes
/// nothing.
pub proof fn lemma_normalize_clean_is_noop(t: TreeV, prev: Map<u64, TileId>)
    requires
        t.tiles.wf(),
        tabs_hold_only_panes(t.tiles),
    ensures
        normalize_spec(t, prev) == t,
{
    lemma_offender(t.tiles);
    if offender(t.tiles) is Some {
        let (i, j) = offender(t.tiles)->Some_0;
        let id = t.tiles.order[i];
        assert(t.tiles.map.contains_key(id));
        assert(!(t.tiles.get(t.tiles.map[id]->Container_0->Tabs_children[j]) matches Some(TileV::Container(_))));
    }
}

// ---- What lifting a split keeps -------------------------------------------

/// Whether `id` is a `Tabs` container.
pub open spec fn is_tabs(t: TilesV, id: TileId) -> bool {
    t.get(id) matches Some(TileV::Container(ContainerV::Tabs { .. }))
}

/// The children of `id` when it is a `Tabs` container; empty otherwise.
pub open spec fn tabs_children_of(t: TilesV, id: TileId) -> Seq<TileId> {
    match t.get(id) {
        Some(TileV::Container(ContainerV::Tabs { children, .. })) => children,
        _ => Seq::empty(),
    }
}

/// Every leaf found under `id` is a `Tabs` container.
proof fn lemma_leaves_are_tabs(t: TilesV, id: TileId, fuel: nat)
    ensures
        forall|k: int|
            0 <= k < leaves(t, id, fuel).len() ==> is_tabs(t, #[trigger] leaves(t, id, fuel)[k]),
    decreases fuel, 0nat,
{
    match t.get(id) {
        Some(TileV::Container(ContainerV::Tabs { .. })) => {
            assert(leaves(t, id, fuel) =~= seq![id]);
            assert(leaves(t, id, fuel)[0] == id);
        },
        Some(TileV::Container(c)) => {
            if fuel > 0 {
                lemma_leaves_list_are_tabs(t, c.children(), (fuel - 1) as nat);
                assert(leaves(t, id, fuel) == leaves_list(t, c.children(), (fuel - 1) as nat));
            } else {
                assert(leaves(t, id, fuel).len() == 0);
            }
        },
        _ => {
            assert(leaves(t, id, fuel).len() == 0);
        },
    }
}

/// Every leaf found under any of `ids` is a `Tabs` container.
proof fn lemma_leaves_list_are_tabs(t: TilesV, ids: Seq<TileId>, fuel: nat)
    ensures
        forall|k: int|
            0 <= k < leaves_list(t, ids, fuel).len() ==> is_tabs(
                t,
                #[trigger] leaves_list(t, ids, fuel)[k],
            ),
    decreases fuel, ids.len(),
{
    if ids.len() > 0 {
        lemma_leaves_list_are_tabs(t, ids.drop_last(), fuel);
        lemma_leaves_are_tabs(t, ids.last(), fuel);
        let a = leaves_list(t, ids.drop_last(), fuel);
        let b = leaves(t, ids.last(), fuel);
        assert forall|k: int| 0 <= k < (a + b).len() implies is_tabs(t, #[trigger] (a + b)[k]) by {
            if k < a.len() {
                assert((a + b)[k] == a[k]);
            } else {
                assert((a + b)[k] == b[k - a.len()]);
            }
        }
    }
}

/// The panes among `a + b` are those among `a`, then those among `b`.
proof fn lemma_pane_ids_concat(t: TilesV, a: Seq<TileId>, b: Seq<TileId>)
    ensures
        pane_ids(t, a + b) == pane_ids(t, a) + pane_ids(t, b),
    decreases b.len(),
{
    if b.len() == 0 {
        assert(a + b =~= a);
        assert(pane_ids(t, a) + pane_ids(t, b) =~= pane_ids(t, a));
    } else {
        lemma_pane_ids_concat(t, a, b.drop_last());
        assert((a + b).drop_last() =~= a + b.drop_last());
        assert((a + b).last() == b.last());
        let tail = match t.get(b.last()) {
            Some(TileV::Pane(_)) => seq![b.last()],
            _ => Seq::<TileId>::empty(),
        };
        assert(pane_ids(t, a) + pane_ids(t, b.drop_last()) + tail =~= pane_ids(t, a) + (pane_ids(
            t,
            b.drop_last(),
        ) + tail));
    }
}

/// The panes among `s` are panes, and every pane of `s` is among them.
proof fn lemma_pane_ids_members(t: TilesV, s: Seq<TileId>)
    ensures
        forall|k: int|
            0 <= k < pane_ids(t, s).len() ==> (t.get(#[trigger] pane_ids(t, s)[k]) matches Some(
                TileV::Pane(_),
            )),
        forall|c: int|
            0 <= c < s.len() && (t.get(#[trigger] s[c]) matches Some(TileV::Pane(_))) ==> pane_ids(
                t,
                s,
            ).contains(s[c]),
    decreases s.len(),
{
    if s.len() > 0 {
        let d = s.drop_last();
        lemma_pane_ids_members(t, d);
        let p = pane_ids(t, d);
        let tail = match t.get(s.last()) {
            Some(TileV::Pane(_)) => seq![s.last()],
            _ => Seq::<TileId>::empty(),
        };
        assert(pane_ids(t, s) == p + tail);
        assert forall|k: int| 0 <= k < (p + tail).len() implies (t.get(#[trigger] (p + tail)[k]) matches Some(
            TileV::Pane(_),
        )) by {
            if k < p.len() {
                assert((p + tail)[k] == p[k]);
            } else {
                assert((p + tail)[k] == tail[k - p.len()]);
            }
        }
        assert forall|c: int|
            0 <= c < s.len() && (t.get(#[trigger] s[c]) matches Some(TileV::Pane(_))) implies (p
            + tail).contains(s[c]) by {
            if c < d.len() {
                assert(d[c] == s[c]);
                let k = choose|k: int| 0 <= k < p.len() && p[k] == s[c];
                assert((p + tail)[k] == s[c]);
            } else {
                assert((p + tail)[p.len() as int] == s[c]);
            }
        }
    }
}

/// Lifting a split nested in a tab group loses none of the group's tabs:
/// some `Tabs` leaf of the split ends up holding every pane the group held
/// before the split, in order, then its own tabs, then every pane the group
/// held after the split; and the group itself is gone. That leaf holds a tab
/// that lived in the group before the drop whenever some leaf does. This
/// needs the split to have a `Tabs` leaf and the group to be neither one of
/// its leaves nor a tab of one.
pub proof fn lemma_lift_regroups_loose_panes(
    t: TreeV,
    group: TileId,
    split: TileId,
    prev: Map<u64, TileId>,
)
    requires
        t.tiles.wf(),
        is_tabs(t.tiles, group),
        tabs_children_of(t.tiles, group).contains(split),
        leaves(t.tiles, split, t.tiles.order.len() as nat).len() > 0,
        forall|k: int|
            0 <= k < leaves(t.tiles, split, t.tiles.order.len() as nat).len() ==> #[trigger] leaves(
                t.tiles,
                split,
                t.tiles.order.len() as nat,
            )[k] != group && !tabs_children_of(
                t.tiles,
                leaves(t.tiles, split, t.tiles.order.len() as nat)[k],
            ).contains(group),
    ensures
        ({
            let ch = tabs_children_of(t.tiles, group);
            let pos = position(ch, split)->Some_0;
            let lv = leaves(t.tiles, split, t.tiles.order.len() as nat);
            let after = lift_split_spec(t, group, split, prev).tiles;
            &&& position(ch, split) is Some
            &&& 0 <= pos < ch.len() && ch[pos] == split
            &&& after.get(group) is None
            &&& exists|tg: TileId|
                #![trigger lv.contains(tg)]
                lv.contains(tg) && ((exists|k: int|
                    0 <= k < lv.len() && #[trigger] any_was_in(
                        prev,
                        group_handles(t.tiles, lv[k]),
                        group,
                    )) ==> any_was_in(prev, group_handles(t.tiles, tg), group)) && (after.get(tg) matches Some(
                    TileV::Container(ContainerV::Tabs { children: nc, .. }),
                ) && nc == pane_ids(t.tiles, ch.take(pos)) + tabs_children_of(t.tiles, tg)
                    + pane_ids(t.tiles, ch.skip(pos + 1)) && forall|c: int|
                    0 <= c < ch.len() && (t.tiles.get(#[trigger] ch[c]) matches Some(
                        TileV::Pane(_),
                    )) ==> nc.contains(ch[c]))
        }),
{
    let tt = t.tiles;
    let ch = tabs_children_of(tt, group);
    let lv = leaves(tt, split, tt.order.len() as nat);
    lemma_position(ch, split);
    let pos = position(ch, split)->Some_0;
    lemma_leaves_are_tabs(tt, split, tt.order.len() as nat);
    // The split is no pane: a pane has no leaves.
    assert(!(tt.get(split) matches Some(TileV::Pane(_))));
    // The target leaf.
    let pred = regroup_pred(tt, lv, group, prev);
    lemma_first_from(lv.len() as int, pred, 0);
    let tg = regroup_target(tt, lv, group, prev)->Some_0;
    let ki: int = match first_index(lv.len() as int, pred) {
        Some(k) => k,
        None => 0,
    };
    assert(lv[ki] == tg);
    assert(lv.contains(tg));
    assert((exists|k: int|
        0 <= k < lv.len() && #[trigger] any_was_in(prev, group_handles(tt, lv[k]), group))
        ==> any_was_in(prev, group_handles(tt, tg), group)) by {
        if first_index(lv.len() as int, pred) is None {
            assert forall|k: int| 0 <= k < lv.len() implies !#[trigger] any_was_in(
                prev,
                group_handles(tt, lv[k]),
                group,
            ) by {
                assert(!pred(k));
            }
        } else {
            assert(pred(ki));
        }
    }
    assert(is_tabs(tt, lv[ki]));
    let lc = tabs_children_of(tt, tg);
    let before = pane_ids(tt, ch.take(pos));
    let rest = pane_ids(tt, ch.skip(pos));
    assert(ch.skip(pos) =~= seq![split] + ch.skip(pos + 1));
    lemma_pane_ids_concat(tt, seq![split], ch.skip(pos + 1));
    assert(seq![split].drop_last() =~= Seq::<TileId>::empty());
    assert(seq![split].last() == split);
    assert(pane_ids(tt, seq![split].drop_last()) =~= Seq::<TileId>::empty());
    assert(pane_ids(tt, seq![split]) =~= Seq::<TileId>::empty());
    assert(rest =~= pane_ids(tt, ch.skip(pos + 1)));
    let nc = before + lc + rest;
    let la = tt.get(tg)->Some_0->Container_0->Tabs_active;
    let merged = TileV::Container(ContainerV::Tabs { children: nc, active: la });
    let t1 = tt.set(tg, merged);
    // Every pane child of the group lands in `nc`.
    assert(ch =~= ch.take(pos) + ch.skip(pos));
    lemma_pane_ids_concat(tt, ch.take(pos), ch.skip(pos));
    lemma_pane_ids_members(tt, ch);
    assert forall|c: int|
        0 <= c < ch.len() && (tt.get(#[trigger] ch[c]) matches Some(TileV::Pane(_))) implies nc.contains(
        ch[c],
    ) by {
        let all = pane_ids(tt, ch);
        let k = choose|k: int| 0 <= k < all.len() && all[k] == ch[c];
        if k < before.len() {
            assert(nc[k] == before[k]);
        } else {
            assert(nc[k + lc.len()] == rest[k - before.len()]);
        }
    }
    // The group is no pane and no tab of the target, so it stays out of `nc`.
    lemma_pane_ids_members(tt, ch.take(pos));
    lemma_pane_ids_members(tt, ch.skip(pos));
    assert(!nc.contains(group)) by {
        if nc.contains(group) {
            let k = choose|k: int| 0 <= k < nc.len() && nc[k] == group;
            if k < before.len() {
                assert(before[k] == group);
            } else if k < before.len() + lc.len() {
                assert(lc[k - before.len()] == group);
                assert(lc.contains(group));
            } else {
                assert(rest[k - before.len() - lc.len()] == group);
            }
        }
    }
    assert(tg != group);
    lemma_position(tt.order, group);
    assert(tt.map.contains_key(group));
    match t1.parent_of(group) {
        None => {},
        Some(p) => {
            lemma_first_from(t1.order.len() as int, crate::tiles::parent_pred(t1, group), 0);
            assert(p != tg);
        },
    }
}

/// Flattening a tab group nested in another loses none of their tabs: the
/// inner group is gone, and the host group holds its own tabs before the
/// inner group, then every tab of the inner group, then its own tabs after
/// it, so it holds every tab either group held (bar the inner group itself).
pub proof fn lemma_flatten_keeps_tabs(t: TreeV, group: TileId, idx: int, child: TileId)
    requires
        t.tiles.wf(),
        is_tabs(t.tiles, group),
        is_tabs(t.tiles, child),
        child != group,
        0 <= idx < tabs_children_of(t.tiles, group).len(),
        tabs_children_of(t.tiles, group)[idx] == child,
    ensures
        ({
            let ch = tabs_children_of(t.tiles, group);
            let inner = tabs_children_of(t.tiles, child);
            let after = flatten_spec(t, group, idx, child).tiles;
            &&& after.get(child) is None
            &&& after.get(group) matches Some(TileV::Container(ContainerV::Tabs { children: nc, .. }))
                && nc == ch.take(idx) + inner + ch.skip(idx + 1) && nc.len() == ch.len() + inner.len()
                - 1 && (forall|c: int|
                0 <= c < ch.len() && c != idx ==> nc.contains(#[trigger] ch[c])) && (forall|x: int|
                0 <= x < inner.len() ==> nc.contains(#[trigger] inner[x]))
        }),
{
    let tt = t.tiles;
    let ch = tabs_children_of(tt, group);
    let inner = tabs_children_of(tt, child);
    lemma_position(tt.order, child);
    let t1 = tt.remove(child);
    assert(t1.get(group) == tt.get(group));
    let nc = ch.take(idx) + inner + ch.skip(idx + 1);
    assert forall|c: int| 0 <= c < ch.len() && c != idx implies nc.contains(#[trigger] ch[c]) by {
        if c < idx {
            assert(nc[c] == ch[c]);
        } else {
            assert(nc[c - 1 + inner.len()] == ch[c]);
        }
    }
    assert forall|x: int| 0 <= x < inner.len() implies nc.contains(#[trigger] inner[x]) by {
        assert(nc[idx + x] == inner[x]);
    }
}

/// Normalising is idempotent: a normalised tree normalises to itself.
pub proof fn lemma_normalize_idempotent(t: TreeV, prev: Map<u64, TileId>)
    requires
        t.tiles.wf(),
    ensures
        normalize_spec(normalize_spec(t, prev), prev) == normalize_spec(t, prev),
{
    lemma_normalize(t, prev);
    lemma_normalize_clean_is_noop(normalize_spec(t, prev), prev);
}

/// Position and child index of the first offending nesting.
fn find_offender(tiles: &Tiles) -> (found: Option<(usize, usize)>)
    requires
        tiles.wf(),
    ensures
        match found {
            Some((i, j)) => offender(tiles@) == Some((i as int, j as int)),
            None => offender(tiles@) is None,
        },
{
    let ghost t = tiles@;
    let ghost p = nests_pred(t);
    let ids = tiles.tile_ids();
    let mut i: usize = 0;
    while i < ids.len()
        invariant
            t == tiles@,
            t.wf(),
            ids@ == t.order,
            i <= t.order.len(),
            p == nests_pred(t),
            forall|k: int| 0 <= k < i ==> !#[trigger] p(k),
        decreases t.order.len() - i,
    {
        assert(t.order.contains(ids@[i as int]));
        match tiles.get(ids[i]) {
            Some(Tile::Container(Container::Tabs(tabs))) => {
                match first_container_child(tiles, &tabs.children) {
                    Some(j) => {
                        proof {
                            lemma_first_from_is(t.order.len() as int, p, 0, i as int);
                        }
                        return Some((i, j));
                    },
                    None => {},
                }
            },
            _ => {},
        }
        assert(!p(i as int));
        i += 1;
    }
    proof {
        lemma_first_from_none(t.order.len() as int, p, 0);
    }
    None
}

/// Position of the first container among `children`.
fn first_container_child(tiles: &Tiles, children: &Vec<TileId>) -> (found: Option<usize>)
    ensures
        match found {
            Some(j) => first_index(children@.len() as int, container_child_pred(tiles@, children@))
                == Some(j as int),
            None => first_index(children@.len() as int, container_child_pred(tiles@, children@)) is None,
        },
{
    let ghost p = container_child_pred(tiles@, children@);
    let mut j: usize = 0;
    while j < children.len()
        invariant
            j <= children@.len(),
            p == container_child_pred(tiles@, children@),
            forall|k: int| 0 <= k < j ==> !#[trigger] p(k),
        decreases children@.len() - j,
    {
        match tiles.get(children[j]) {
            Some(Tile::Container(_)) => {
                proof {
                    lemma_first_from_is(children@.len() as int, p, 0, j as int);
                }
                return Some(j);
            },
            _ => {},
        }
        assert(!p(j as int));
        j += 1;
    }
    proof {
        lemma_first_from_none(children@.len() as int, p, 0);
    }
    None
}

/// Find one `Tabs` container with a container child and resolve it. Returns
/// `false` when the tree already satisfies the invariant.
fn lift_one_nested_container(tree: &mut Tree, prev_group_of: &HashMap<u64, TileId>) -> (changed: bool)
    requires
        old(tree).tiles.wf(),
    ensures
        final(tree).tiles.wf(),
        match lift_one_spec(old(tree)@, prev_group_of@) {
            Some(t2) => changed && final(tree)@ == t2,
            None => !changed && final(tree)@ == old(tree)@,
        },
{
    let ghost t = tree@;
    let (i, idx) = match find_offender(&tree.tiles) {
        Some(found) => found,
        None => {
            return false;
        },
    };
    proof {
        lemma_offender(t.tiles);
    }
    let group_id = tree.tiles.tile_ids()[i];
    let (child_id, child_is_tabs) = match tree.tiles.get(group_id) {
        Some(Tile::Container(Container::Tabs(tabs))) => {
            let child = tabs.children[idx];
            let is_tabs = match tree.tiles.get(child) {
                Some(Tile::Container(Container::Tabs(_))) => true,
                _ => false,
            };
            (child, is_tabs)
        },
        _ => {
            return false;
        },
    };
    if child_is_tabs {
        flatten_nested_tabs(tree, group_id, idx, child_id);
    } else {
        lift_nested_split(tree, group_id, child_id, prev_group_of);
    }
    true
}

/// Enforce the workbench invariant that a `Tabs` group holds only panes,
/// never another container. A tab dropped on a group's body wraps one pane
/// of the group in a split that stays nested inside the `Tabs` container,
/// and a tab group dropped into a tab nests one `Tabs` inside another; both
/// render as stacked tab strips.
///
/// Each nested split is lifted to the group's own level, so a body drop
/// reads as a clean split of the whole group: `Tabs[a, Vertical{Tabs[b],
/// Tabs[c]}]` becomes `Vertical{Tabs[a, b], Tabs[c]}`. The panes left behind
/// rejoin the split half holding a pane that shared their group before the
/// drop (looked up in `prev_group_of`, keyed by tab handle number), falling
/// back to the split's first leaf. A nested `Tabs` is flattened into its
/// host. Returns `true` if the tree changed, which is exactly when some
/// `Tabs` group held a container.
pub fn normalize_tab_groups(tree: &mut Tree, prev_group_of: &HashMap<u64, TileId>) -> (changed: bool)
    requires
        old(tree).tiles.wf(),
    ensures
        final(tree).tiles.wf(),
        final(tree)@ == normalize_spec(old(tree)@, prev_group_of@),
        changed == !tabs_hold_only_panes(old(tree).tiles@),
        tabs_hold_only_panes(final(tree).tiles@),
        pane_entries(final(tree).tiles@) == pane_entries(old(tree).tiles@),
{
    let ghost start = tree@;
    proof {
        lemma_normalize(start, prev_group_of@);
        lemma_offender(start.tiles);
    }
    let mut changed = false;
    loop
        invariant_except_break
            tree.tiles.wf(),
            normalize_spec(tree@, prev_group_of@) == normalize_spec(start, prev_group_of@),
            !changed ==> tree@ == start,
            changed ==> offender(start.tiles) is Some,
        ensures
            tree@ == normalize_spec(start, prev_group_of@),
            tree.tiles.wf(),
            changed == (offender(start.tiles) is Some),
        decreases tree.tiles@.order.len(),
    {
        let ghost before = tree@;
        if !lift_one_nested_container(tree, prev_group_of) {
            break;
        }
        proof {
            lemma_step(before, prev_group_of@);
        }
        changed = true;
    }
    proof {
        lemma_offender(start.tiles);
    }
    changed
}

} // verus!
