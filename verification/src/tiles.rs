//! The tile tree the workbench lays its tabs out in: panes carrying
//! [`TabId`] handles, and `Tabs` / `Linear` / `Grid` containers holding
//! child tiles by [`TileId`]. Tiles are kept in a stable order, which is the
//! order every scan over them follows.
use std::collections::HashMap;

use vstd::prelude::*;

use crate::search::{first_index, lemma_first_from, lemma_first_from_is, lemma_first_from_none};
use crate::workspace::TabId;

verus! {

broadcast use vstd::std_specs::hash::group_hash_axioms;

/// The id of a tile (a pane or a container) in a [`Tiles`] collection.
#[derive(Clone, Copy, Debug, PartialEq, Eq, Hash, Structural)]
pub struct TileId(pub u64);

impl TileId {
    pub fn from_u64(n: u64) -> (id: Self)
        ensures
            id.0 == n,
    {
        TileId(n)
    }
}

/// The direction of a [`Linear`] container.
#[derive(Clone, Copy, Debug, PartialEq, Eq, Hash, Structural)]
pub enum LinearDir {
    Horizontal,
    Vertical,
}

/// A container with tabs: only one tab is open (active) at a time.
pub struct Tabs {
    /// The tabs, in order.
    pub children: Vec<TileId>,
    /// The currently open tab.
    pub active: Option<TileId>,
}

/// A horizontal or vertical split.
pub struct Linear {
    pub children: Vec<TileId>,
    pub dir: LinearDir,
    /// The share of the space given to each child, by child tile number. The
    /// weights are the bit patterns of the renderer's floating-point shares;
    /// they are only ever moved from one child to another here.
    pub shares: HashMap<u64, u32>,
}

/// A grid of tiles, children in row-major order.
pub struct Grid {
    pub children: Vec<TileId>,
}

/// A container of several tiles.
pub enum Container {
    Tabs(Tabs),
    Linear(Linear),
    Grid(Grid),
}

/// A tile: a leaf pane carrying a tab handle, or a container.
pub enum Tile {
    Pane(TabId),
    Container(Container),
}

/// The value of a [`Container`].
pub enum ContainerV {
    Tabs { children: Seq<TileId>, active: Option<TileId> },
    Linear { children: Seq<TileId>, dir: LinearDir, shares: Map<u64, u32> },
    Grid { children: Seq<TileId> },
}

/// The value of a [`Tile`].
pub enum TileV {
    Pane(TabId),
    Container(ContainerV),
}

impl View for Container {
    type V = ContainerV;

    open spec fn view(&self) -> ContainerV {
        match self {
            Container::Tabs(t) => ContainerV::Tabs { children: t.children@, active: t.active },
            Container::Linear(l) => ContainerV::Linear {
                children: l.children@,
                dir: l.dir,
                shares: l.shares@,
            },
            Container::Grid(g) => ContainerV::Grid { children: g.children@ },
        }
    }
}

impl View for Tile {
    type V = TileV;

    open spec fn view(&self) -> TileV {
        match self {
            Tile::Pane(p) => TileV::Pane(*p),
            Tile::Container(c) => TileV::Container(c@),
        }
    }
}

impl ContainerV {
    /// The children of the container, in order.
    pub open spec fn children(self) -> Seq<TileId> {
        match self {
            ContainerV::Tabs { children, .. } => children,
            ContainerV::Linear { children, .. } => children,
            ContainerV::Grid { children } => children,
        }
    }
}

impl Container {
    /// The children of this container, in order.
    pub fn children(&self) -> (children: &Vec<TileId>)
        ensures
            children@ == self@.children(),
    {
        match self {
            Container::Tabs(t) => &t.children,
            Container::Linear(l) => &l.children,
            Container::Grid(g) => &g.children,
        }
    }

    /// Whether `needle` is one of this container's children.
    pub fn has_child(&self, needle: TileId) -> (has: bool)
        ensures
            has == self@.children().contains(needle),
    {
        let children = self.children();
        let mut i: usize = 0;
        while i < children.len()
            invariant
                children@ == self@.children(),
                i <= children@.len(),
                forall|j: int| 0 <= j < i ==> children@[j] != needle,
            decreases children@.len() - i,
        {
            if children[i] == needle {
                return true;
            }
            i += 1;
        }
        false
    }
}

/// The value of a [`Tiles`] collection: the tile ids in their stable order,
/// the tile behind each id, and the next id to hand out.
pub struct TilesV {
    pub order: Seq<TileId>,
    pub map: Map<TileId, TileV>,
    pub next: u64,
}

/// Predicate: position `i` of `s` holds `id`.
pub open spec fn at_pred(s: Seq<TileId>, id: TileId) -> spec_fn(int) -> bool {
    |i: int| s[i] == id
}

/// Position of `id` in `s`, if present.
pub open spec fn position(s: Seq<TileId>, id: TileId) -> Option<int> {
    first_index(s.len() as int, at_pred(s, id))
}

/// Predicate: the tile at position `i` of the order is a container with
/// `child` among its children.
pub open spec fn parent_pred(t: TilesV, child: TileId) -> spec_fn(int) -> bool {
    |i: int| t.map[t.order[i]] is Container && t.map[t.order[i]]->Container_0.children().contains(
        child,
    )
}

impl TilesV {
    /// Ids are unique, the order lists exactly the stored tiles, and every id
    /// is below the next one to hand out.
    pub open spec fn wf(self) -> bool {
        &&& self.order.no_duplicates()
        &&& forall|id: TileId| #[trigger] self.map.contains_key(id) <==> self.order.contains(id)
        &&& forall|id: TileId| #[trigger] self.map.contains_key(id) ==> id.0 < self.next
    }

    /// The tile stored under `id`.
    pub open spec fn get(self, id: TileId) -> Option<TileV> {
        if self.map.contains_key(id) {
            Some(self.map[id])
        } else {
            None
        }
    }

    /// Store `tile` under `id`: a new id joins the end of the order.
    pub open spec fn insert(self, id: TileId, tile: TileV) -> TilesV {
        TilesV {
            order: if self.map.contains_key(id) {
                self.order
            } else {
                self.order.push(id)
            },
            map: self.map.insert(id, tile),
            next: if id.0 >= self.next {
                (id.0 + 1) as u64
            } else {
                self.next
            },
        }
    }

    /// Replace the tile stored under an existing `id`.
    pub open spec fn set(self, id: TileId, tile: TileV) -> TilesV {
        TilesV { order: self.order, map: self.map.insert(id, tile), next: self.next }
    }

    /// Remove the tile stored under `id`, if any.
    pub open spec fn remove(self, id: TileId) -> TilesV {
        match position(self.order, id) {
            Some(k) => TilesV {
                order: self.order.remove(k),
                map: self.map.remove(id),
                next: self.next,
            },
            None => self,
        }
    }

    /// The first container, in the order, that has `child` among its
    /// children.
    pub open spec fn parent_of(self, child: TileId) -> Option<TileId> {
        match first_index(self.order.len() as int, parent_pred(self, child)) {
            Some(i) => Some(self.order[i]),
            None => None,
        }
    }
}

/// Facts about positions in a sequence without duplicates.
pub proof fn lemma_position(s: Seq<TileId>, id: TileId)
    ensures
        match position(s, id) {
            Some(k) => 0 <= k < s.len() && s[k] == id,
            None => !s.contains(id),
        },
        s.no_duplicates() && s.contains(id) ==> position(s, id) is Some,
{
    let p = at_pred(s, id);
    lemma_first_from(s.len() as int, p, 0);
    match position(s, id) {
        Some(k) => {
            assert(p(k));
        },
        None => {
            assert forall|j: int| 0 <= j < s.len() implies s[j] != id by {
                assert(!p(j));
            }
        },
    }
}

/// Index of `id` in `order`, if present.
pub fn index_in(order: &Vec<TileId>, id: TileId) -> (index: Option<usize>)
    ensures
        match index {
            Some(k) => position(order@, id) == Some(k as int),
            None => position(order@, id) is None,
        },
{
    let ghost p = at_pred(order@, id);
    let mut k: usize = 0;
    while k < order.len()
        invariant
            k <= order@.len(),
            p == at_pred(order@, id),
            forall|j: int| 0 <= j < k ==> !#[trigger] p(j),
        decreases order@.len() - k,
    {
        if order[k] == id {
            proof {
                lemma_first_from_is(order@.len() as int, p, 0, k as int);
            }
            return Some(k);
        }
        k += 1;
    }
    proof {
        lemma_first_from_none(order@.len() as int, p, 0);
    }
    None
}

/// Removing a present id keeps the collection well formed and touches no
/// other tile.
pub proof fn lemma_remove_wf(t: TilesV, id: TileId)
    requires
        t.wf(),
    ensures
        t.remove(id).wf(),
        t.remove(id).map == t.map.remove(id),
        t.remove(id).next == t.next,
        forall|x: TileId| x != id ==> (t.remove(id).order.contains(x) <==> t.order.contains(x)),
        !t.remove(id).order.contains(id),
        t.map.contains_key(id) ==> t.remove(id).order.len() + 1 == t.order.len(),
{
    lemma_position(t.order, id);
    match position(t.order, id) {
        Some(k) => {
            let o = t.order.remove(k);
            assert forall|x: TileId| x != id implies (o.contains(x) <==> t.order.contains(x)) by {
                if t.order.contains(x) {
                    let j = choose|j: int| 0 <= j < t.order.len() && t.order[j] == x;
                    if j < k {
                        assert(o[j] == x);
                    } else {
                        assert(j != k);
                        assert(o[j - 1] == x);
                    }
                }
                if o.contains(x) {
                    let j = choose|j: int| 0 <= j < o.len() && o[j] == x;
                    if j < k {
                        assert(t.order[j] == x);
                    } else {
                        assert(t.order[j + 1] == x);
                    }
                }
            }
            assert(!o.contains(id)) by {
                if o.contains(id) {
                    let j = choose|j: int| 0 <= j < o.len() && o[j] == id;
                    if j < k {
                        assert(t.order[j] == id);
                    } else {
                        assert(t.order[j + 1] == id);
                    }
                }
            }
            assert(o.no_duplicates()) by {
                assert forall|i: int, j: int|
                    0 <= i < o.len() && 0 <= j < o.len() && i != j implies o[i] != o[j] by {
                    let i2 = if i < k { i } else { i + 1 };
                    let j2 = if j < k { j } else { j + 1 };
                    assert(o[i] == t.order[i2]);
                    assert(o[j] == t.order[j2]);
                }
            }
        },
        None => {},
    }
}

/// Replacing the tile under a present id keeps the collection well formed.
pub proof fn lemma_set_wf(t: TilesV, id: TileId, tile: TileV)
    requires
        t.wf(),
        t.map.contains_key(id),
    ensures
        t.set(id, tile).wf(),
{
}

/// All tile state: the tiles, in a stable order, keyed by id.
pub struct Tiles {
    next_tile_id: u64,
    order: Vec<TileId>,
    tiles: HashMap<u64, Tile>,
}

impl View for Tiles {
    type V = TilesV;

    closed spec fn view(&self) -> TilesV {
        TilesV {
            order: self.order@,
            map: Map::new(
                |id: TileId| self.tiles@.contains_key(id.0),
                |id: TileId| self.tiles@[id.0]@,
            ),
            next: self.next_tile_id,
        }
    }
}

impl Tiles {
    /// The collection is well formed (see [`TilesV::wf`]).
    pub open spec fn wf(&self) -> bool {
        self@.wf()
    }

    /// An empty collection; the first id handed out is 1.
    pub fn new() -> (tiles: Self)
        ensures
            tiles.wf(),
            tiles@.order.len() == 0,
            tiles@.next == 1,
    {
        let tiles = Tiles { next_tile_id: 1, order: Vec::new(), tiles: HashMap::new() };
        assert(tiles@.map =~= Map::empty());
        tiles
    }

    /// The number of tiles.
    pub fn len(&self) -> (n: usize)
        ensures
            n == self@.order.len(),
    {
        self.order.len()
    }

    /// All tile ids, in their stable order.
    pub fn tile_ids(&self) -> (ids: &[TileId])
        ensures
            ids@ == self@.order,
    {
        self.order.as_slice()
    }

    /// The tile stored under `id`, if any.
    pub fn get(&self, id: TileId) -> (tile: Option<&Tile>)
        ensures
            match tile {
                Some(t) => self@.get(id) == Some(t@),
                None => self@.get(id) is None,
            },
    {
        self.tiles.get(&id.0)
    }

    /// Store `tile` under `id`, replacing any tile already there. A new id
    /// joins the end of the order.
    pub fn insert(&mut self, id: TileId, tile: Tile)
        requires
            old(self).wf(),
            id.0 < u64::MAX,
        ensures
            final(self).wf(),
            final(self)@ == old(self)@.insert(id, tile@),
    {
        let ghost tv = tile@;
        let ghost before = self@;
        let present = self.tiles.contains_key(&id.0);
        self.tiles.insert(id.0, tile);
        if !present {
            self.order.push(id);
        }
        if id.0 >= self.next_tile_id {
            self.next_tile_id = id.0 + 1;
        }
        proof {
            let want = before.insert(id, tv);
            assert(self@.map =~= want.map);
            assert(self@.order =~= want.order);
            if !present {
                assert(self@.order.no_duplicates()) by {
                    assert(!before.order.contains(id));
                    assert forall|i: int, j: int|
                        0 <= i < self@.order.len() && 0 <= j < self@.order.len() && i != j implies
                        self@.order[i] != self@.order[j] by {
                        if i == before.order.len() {
                            assert(before.order.contains(self@.order[j]));
                        } else if j == before.order.len() {
                            assert(before.order.contains(self@.order[i]));
                        }
                    }
                }
                assert forall|x: TileId| #[trigger] self@.map.contains_key(x) <==> self@.order.contains(x) by {
                    if x != id && before.order.contains(x) {
                        let j = choose|j: int| 0 <= j < before.order.len() && before.order[j] == x;
                        assert(self@.order[j] == x);
                    }
                    if self@.order.contains(x) && x != id {
                        let j = choose|j: int| 0 <= j < self@.order.len() && self@.order[j] == x;
                        assert(j < before.order.len());
                        assert(before.order[j] == x);
                    }
                    assert(self@.order[before.order.len() as int] == id);
                }
            }
        }
    }

    /// Hand out a fresh id, one past every id in use.
    fn next_free_id(&mut self) -> (id: TileId)
        requires
            old(self).wf(),
            old(self)@.next < u64::MAX,
        ensures
            final(self).wf(),
            id == TileId(old(self)@.next),
            !old(self)@.map.contains_key(id),
            final(self)@ == (TilesV { next: (old(self)@.next + 1) as u64, ..old(self)@ }),
    {
        let id = TileId(self.next_tile_id);
        self.next_tile_id = self.next_tile_id + 1;
        id
    }

    /// Store a new tile under a fresh id and return the id.
    pub fn insert_new(&mut self, tile: Tile) -> (id: TileId)
        requires
            old(self).wf(),
            old(self)@.next < u64::MAX,
        ensures
            final(self).wf(),
            id == TileId(old(self)@.next),
            !old(self)@.map.contains_key(id),
            final(self)@.order == old(self)@.order.push(id),
            final(self)@.map == old(self)@.map.insert(id, tile@),
            final(self)@.next == old(self)@.next + 1,
    {
        let id = self.next_free_id();
        self.insert(id, tile);
        id
    }

    /// Store a new pane carrying `pane` and return its id.
    pub fn insert_pane(&mut self, pane: TabId) -> (id: TileId)
        requires
            old(self).wf(),
            old(self)@.next < u64::MAX,
        ensures
            final(self).wf(),
            id == TileId(old(self)@.next),
            !old(self)@.map.contains_key(id),
            final(self)@.order == old(self)@.order.push(id),
            final(self)@.map == old(self)@.map.insert(id, TileV::Pane(pane)),
            final(self)@.next == old(self)@.next + 1,
    {
        self.insert_new(Tile::Pane(pane))
    }

    /// Store a new `Tabs` container over `children`, the first one open, and
    /// return its id.
    pub fn insert_tab_tile(&mut self, children: Vec<TileId>) -> (id: TileId)
        requires
            old(self).wf(),
            old(self)@.next < u64::MAX,
        ensures
            final(self).wf(),
            id == TileId(old(self)@.next),
            !old(self)@.map.contains_key(id),
            final(self)@.order == old(self)@.order.push(id),
            final(self)@.map == old(self)@.map.insert(
                id,
                TileV::Container(
                    ContainerV::Tabs {
                        children: children@,
                        active: if children@.len() > 0 {
                            Some(children@[0])
                        } else {
                            None
                        },
                    },
                ),
            ),
            final(self)@.next == old(self)@.next + 1,
    {
        let active = if children.len() > 0 {
            Some(children[0])
        } else {
            None
        };
        self.insert_new(Tile::Container(Container::Tabs(Tabs { children, active })))
    }

    /// Store a new `Linear` container over `children` and return its id.
    pub fn insert_linear_tile(&mut self, dir: LinearDir, children: Vec<TileId>) -> (id: TileId)
        requires
            old(self).wf(),
            old(self)@.next < u64::MAX,
        ensures
            final(self).wf(),
            id == TileId(old(self)@.next),
            !old(self)@.map.contains_key(id),
            final(self)@.order == old(self)@.order.push(id),
            final(self)@.map == old(self)@.map.insert(
                id,
                TileV::Container(
                    ContainerV::Linear { children: children@, dir, shares: Map::empty() },
                ),
            ),
            final(self)@.next == old(self)@.next + 1,
    {
        let shares: HashMap<u64, u32> = HashMap::new();
        self.insert_new(Tile::Container(Container::Linear(Linear { children, dir, shares })))
    }

    /// Store a new horizontal split over `children` and return its id.
    pub fn insert_horizontal_tile(&mut self, children: Vec<TileId>) -> (id: TileId)
        requires
            old(self).wf(),
            old(self)@.next < u64::MAX,
        ensures
            final(self).wf(),
            id == TileId(old(self)@.next),
            !old(self)@.map.contains_key(id),
            final(self)@.order == old(self)@.order.push(id),
            final(self)@.map == old(self)@.map.insert(
                id,
                TileV::Container(
                    ContainerV::Linear {
                        children: children@,
                        dir: LinearDir::Horizontal,
                        shares: Map::empty(),
                    },
                ),
            ),
            final(self)@.next == old(self)@.next + 1,
    {
        self.insert_linear_tile(LinearDir::Horizontal, children)
    }

    /// Store a new vertical split over `children` and return its id.
    pub fn insert_vertical_tile(&mut self, children: Vec<TileId>) -> (id: TileId)
        requires
            old(self).wf(),
            old(self)@.next < u64::MAX,
        ensures
            final(self).wf(),
            id == TileId(old(self)@.next),
            !old(self)@.map.contains_key(id),
            final(self)@.order == old(self)@.order.push(id),
            final(self)@.map == old(self)@.map.insert(
                id,
                TileV::Container(
                    ContainerV::Linear {
                        children: children@,
                        dir: LinearDir::Vertical,
                        shares: Map::empty(),
                    },
                ),
            ),
            final(self)@.next == old(self)@.next + 1,
    {
        self.insert_linear_tile(LinearDir::Vertical, children)
    }

    /// Store a new grid over `children` and return its id.
    pub fn insert_grid_tile(&mut self, children: Vec<TileId>) -> (id: TileId)
        requires
            old(self).wf(),
            old(self)@.next < u64::MAX,
        ensures
            final(self).wf(),
            id == TileId(old(self)@.next),
            !old(self)@.map.contains_key(id),
            final(self)@.order == old(self)@.order.push(id),
            final(self)@.map == old(self)@.map.insert(
                id,
                TileV::Container(ContainerV::Grid { children: children@ }),
            ),
            final(self)@.next == old(self)@.next + 1,
    {
        self.insert_new(Tile::Container(Container::Grid(Grid { children })))
    }

    /// Remove the tile stored under `id`, returning it. Containers that list
    /// `id` as a child keep listing it.
    pub fn remove(&mut self, id: TileId) -> (removed: Option<Tile>)
        requires
            old(self).wf(),
        ensures
            final(self).wf(),
            final(self)@ == old(self)@.remove(id),
            match removed {
                Some(t) => old(self)@.get(id) == Some(t@),
                None => old(self)@.get(id) is None,
            },
    {
        let ghost before = self@;
        proof {
            lemma_remove_wf(before, id);
            lemma_position(before.order, id);
        }
        let removed = self.tiles.remove(&id.0);
        if removed.is_some() {
            match index_in(&self.order, id) {
                Some(k) => {
                    self.order.remove(k);
                },
                None => {},
            }
            proof {
                assert(self@.order =~= before.remove(id).order);
                assert(self@.map =~= before.remove(id).map);
            }
        } else {
            proof {
                assert(self@.map =~= before.map);
            }
        }
        removed
    }

    /// Take the tile stored under `id` out of the collection, keeping its
    /// place in the order for [`Tiles::put_back`].
    pub(crate) fn take(&mut self, id: TileId) -> (taken: Option<Tile>)
        ensures
            final(self)@ == (TilesV { map: old(self)@.map.remove(id), ..old(self)@ }),
            match taken {
                Some(t) => old(self)@.get(id) == Some(t@),
                None => old(self)@.get(id) is None,
            },
    {
        let taken = self.tiles.remove(&id.0);
        proof {
            assert(self@.map =~= old(self)@.map.remove(id));
        }
        taken
    }

    /// Store `tile` under `id` without touching the order.
    pub(crate) fn put_back(&mut self, id: TileId, tile: Tile)
        ensures
            final(self)@ == (TilesV { map: old(self)@.map.insert(id, tile@), ..old(self)@ }),
    {
        let ghost tv = tile@;
        self.tiles.insert(id.0, tile);
        proof {
            assert(self@.map =~= old(self)@.map.insert(id, tv));
        }
    }

    /// The first container, in the stable order, that lists `child` among its
    /// children.
    pub fn parent_of(&self, child: TileId) -> (parent: Option<TileId>)
        requires
            self.wf(),
        ensures
            parent == self@.parent_of(child),
    {
        let ghost t = self@;
        let ghost p = parent_pred(t, child);
        let mut i: usize = 0;
        while i < self.order.len()
            invariant
                t == self@,
                t.wf(),
                i <= t.order.len(),
                p == parent_pred(t, child),
                forall|j: int| 0 <= j < i ==> !#[trigger] p(j),
            decreases t.order.len() - i,
        {
            let id = self.order[i];
            assert(t.order.contains(id));
            match self.get(id) {
                Some(Tile::Container(c)) => {
                    if c.has_child(child) {
                        proof {
                            lemma_first_from_is(t.order.len() as int, p, 0, i as int);
                        }
                        return Some(id);
                    }
                },
                _ => {},
            }
            assert(!p(i as int));
            i += 1;
        }
        proof {
            lemma_first_from_none(t.order.len() as int, p, 0);
        }
        None
    }
}

/// A tile tree: the tiles and the id of the root tile.
pub struct Tree {
    pub root: Option<TileId>,
    pub tiles: Tiles,
}

/// The value of a [`Tree`].
pub struct TreeV {
    pub root: Option<TileId>,
    pub tiles: TilesV,
}

impl View for Tree {
    type V = TreeV;

    open spec fn view(&self) -> TreeV {
        TreeV { root: self.root, tiles: self.tiles@ }
    }
}

impl Tree {
    /// A tree over `tiles` rooted at `root`.
    pub fn new(root: TileId, tiles: Tiles) -> (tree: Self)
        ensures
            tree@ == (TreeV { root: Some(root), tiles: tiles@ }),
    {
        Tree { root: Some(root), tiles }
    }

    /// The id of the root tile, if any.
    pub fn root(&self) -> (root: Option<TileId>)
        ensures
            root == self.root,
    {
        self.root
    }
}

} // verus!
