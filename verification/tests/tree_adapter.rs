//! Tab-group normalisation and the tree queries, on concrete tile trees.

use std::collections::HashMap;

use egui_workbench::internal::tree_adapter::{
    active_handle_in_group, all_handles, find_group_of, find_pane_of, first_tabs_container,
    group_of_each_handle, handles_in_group, leaf_tab_groups, normalize_tab_groups,
};
use egui_workbench::tiles::{Container, LinearDir, Tabs, Tile, TileId, Tiles, Tree};
use egui_workbench::workspace::TabId;

fn h(n: u64) -> TabId {
    TabId(n)
}

/// Top-level shape: `Kind { group with handles, ... }`.
fn shape(tree: &Tree) -> Vec<(String, Vec<u64>)> {
    let root = tree.root().unwrap();
    let Some(Tile::Container(c)) = tree.tiles.get(root) else {
        // single group
        return vec![("Tabs".into(), handles_in_group(tree, root).iter().map(|t| t.0).collect())];
    };
    if let Container::Tabs(_) = c {
        return vec![("Tabs".into(), handles_in_group(tree, root).iter().map(|t| t.0).collect())];
    }
    c.children()
        .iter()
        .map(|leaf| {
            let kind = match tree.tiles.get(*leaf) {
                Some(Tile::Container(Container::Tabs(_))) => "Tabs",
                _ => "?",
            };
            (kind.to_string(), handles_in_group(tree, *leaf).iter().map(|t| t.0).collect())
        })
        .collect()
}

fn root_kind(tree: &Tree) -> &'static str {
    match tree.tiles.get(tree.root().unwrap()) {
        Some(Tile::Container(Container::Tabs(_))) => "Tabs",
        Some(Tile::Container(Container::Linear(l))) => match l.dir {
            LinearDir::Vertical => "Vertical",
            LinearDir::Horizontal => "Horizontal",
        },
        Some(Tile::Container(Container::Grid(_))) => "Grid",
        _ => "?",
    }
}

/// Whether some `Tabs` container holds a container child.
fn has_nested_group(tree: &Tree) -> bool {
    tree.tiles.tile_ids().iter().any(|id| match tree.tiles.get(*id) {
        Some(Tile::Container(Container::Tabs(tabs))) => tabs
            .children
            .iter()
            .any(|c| matches!(tree.tiles.get(*c), Some(Tile::Container(_)))),
        _ => false,
    })
}

// Tabs[a, Vertical{Tabs[b], Tabs[c]}] with a,b from the pre-drop group and
// c the newcomer (bottom drop) → Vertical{Tabs[a,b], Tabs[c]}.
#[test]
fn bottom_drop_lifts_split_and_regroups() {
    let mut tiles = Tiles::new();
    let a = tiles.insert_pane(h(1));
    let b = tiles.insert_pane(h(2));
    let c = tiles.insert_pane(h(3));
    let gb = tiles.insert_tab_tile(vec![b]);
    let gc = tiles.insert_tab_tile(vec![c]);
    let split = tiles.insert_vertical_tile(vec![gb, gc]);
    let group = tiles.insert_tab_tile(vec![a, split]);
    let mut tree = Tree::new(group, tiles);

    let mut prev = HashMap::new();
    prev.insert(h(1).0, group);
    prev.insert(h(2).0, group);
    prev.insert(h(3).0, TileId::from_u64(9999)); // newcomer, elsewhere

    assert!(normalize_tab_groups(&mut tree, &prev));
    assert_eq!(root_kind(&tree), "Vertical");
    assert_eq!(
        shape(&tree),
        vec![
            ("Tabs".to_string(), vec![1, 2]),
            ("Tabs".to_string(), vec![3]),
        ]
    );
}

// Top drop puts the newcomer first: Tabs[a, Vertical{Tabs[c], Tabs[b]}].
// `a` must rejoin `b` (its pre-drop sibling), not `c`.
#[test]
fn top_drop_regroups_with_original_sibling() {
    let mut tiles = Tiles::new();
    let a = tiles.insert_pane(h(1));
    let b = tiles.insert_pane(h(2));
    let c = tiles.insert_pane(h(3));
    let gc = tiles.insert_tab_tile(vec![c]);
    let gb = tiles.insert_tab_tile(vec![b]);
    let split = tiles.insert_vertical_tile(vec![gc, gb]);
    let group = tiles.insert_tab_tile(vec![a, split]);
    let mut tree = Tree::new(group, tiles);

    let mut prev = HashMap::new();
    prev.insert(h(1).0, group);
    prev.insert(h(2).0, group);
    prev.insert(h(3).0, TileId::from_u64(9999));

    assert!(normalize_tab_groups(&mut tree, &prev));
    assert_eq!(
        shape(&tree),
        vec![
            ("Tabs".to_string(), vec![3]),
            ("Tabs".to_string(), vec![1, 2]),
        ]
    );
}

// Tabs[a, Tabs[b, c]] (a tab group dropped into a tab) → Tabs[a, b, c].
#[test]
fn nested_tab_group_flattens() {
    let mut tiles = Tiles::new();
    let a = tiles.insert_pane(h(1));
    let b = tiles.insert_pane(h(2));
    let c = tiles.insert_pane(h(3));
    let inner = tiles.insert_tab_tile(vec![b, c]);
    let group = tiles.insert_tab_tile(vec![a, inner]);
    let mut tree = Tree::new(group, tiles);

    assert!(normalize_tab_groups(&mut tree, &HashMap::new()));
    assert_eq!(root_kind(&tree), "Tabs");
    assert_eq!(
        handles_in_group(&tree, tree.root().unwrap()).iter().map(|t| t.0).collect::<Vec<_>>(),
        vec![1, 2, 3]
    );
}

// A well-formed split is left untouched.
#[test]
fn clean_split_is_a_noop() {
    let mut tiles = Tiles::new();
    let a = tiles.insert_pane(h(1));
    let b = tiles.insert_pane(h(2));
    let ga = tiles.insert_tab_tile(vec![a]);
    let gb = tiles.insert_tab_tile(vec![b]);
    let split = tiles.insert_vertical_tile(vec![ga, gb]);
    let mut tree = Tree::new(split, tiles);
    assert!(!normalize_tab_groups(&mut tree, &HashMap::new()));
}

#[test]
fn normalizing_twice_changes_nothing_more() {
    let mut tiles = Tiles::new();
    let a = tiles.insert_pane(h(1));
    let b = tiles.insert_pane(h(2));
    let c = tiles.insert_pane(h(3));
    let gb = tiles.insert_tab_tile(vec![b]);
    let gc = tiles.insert_tab_tile(vec![c]);
    let split = tiles.insert_vertical_tile(vec![gb, gc]);
    let group = tiles.insert_tab_tile(vec![a, split]);
    let mut tree = Tree::new(group, tiles);
    let prev = group_of_each_handle(&tree);
    assert!(normalize_tab_groups(&mut tree, &prev));
    assert!(!has_nested_group(&tree));
    let ids_after_first = tree.tiles.tile_ids().to_vec();
    assert!(!normalize_tab_groups(&mut tree, &prev));
    assert_eq!(tree.tiles.tile_ids().to_vec(), ids_after_first);
}

#[test]
fn normalizing_keeps_every_pane() {
    let mut tiles = Tiles::new();
    let a = tiles.insert_pane(h(1));
    let b = tiles.insert_pane(h(2));
    let c = tiles.insert_pane(h(3));
    let d = tiles.insert_pane(h(4));
    let inner = tiles.insert_tab_tile(vec![c, d]);
    let gb = tiles.insert_tab_tile(vec![b]);
    let split = tiles.insert_horizontal_tile(vec![gb, inner]);
    let group = tiles.insert_tab_tile(vec![a, split]);
    let mut tree = Tree::new(group, tiles);
    let mut before = all_handles(&tree).iter().map(|t| t.0).collect::<Vec<_>>();
    before.sort();
    assert!(normalize_tab_groups(&mut tree, &HashMap::new()));
    let mut after = all_handles(&tree).iter().map(|t| t.0).collect::<Vec<_>>();
    after.sort();
    assert_eq!(before, after);
    assert!(!has_nested_group(&tree));
}

// Without any pre-drop record the loose panes join the split's first leaf.
#[test]
fn loose_panes_fall_back_to_the_first_leaf() {
    let mut tiles = Tiles::new();
    let a = tiles.insert_pane(h(1));
    let b = tiles.insert_pane(h(2));
    let c = tiles.insert_pane(h(3));
    let gb = tiles.insert_tab_tile(vec![b]);
    let gc = tiles.insert_tab_tile(vec![c]);
    let split = tiles.insert_vertical_tile(vec![gb, gc]);
    let group = tiles.insert_tab_tile(vec![split, a]);
    let mut tree = Tree::new(group, tiles);
    assert!(normalize_tab_groups(&mut tree, &HashMap::new()));
    // `a` sat after the split, so it joins the back of the first leaf.
    assert_eq!(
        shape(&tree),
        vec![
            ("Tabs".to_string(), vec![2, 1]),
            ("Tabs".to_string(), vec![3]),
        ]
    );
}

// A nested group below a split takes its group's place in the parent split.
#[test]
fn lifted_split_replaces_the_group_in_its_parent() {
    let mut tiles = Tiles::new();
    let a = tiles.insert_pane(h(1));
    let b = tiles.insert_pane(h(2));
    let c = tiles.insert_pane(h(3));
    let z = tiles.insert_pane(h(9));
    let gb = tiles.insert_tab_tile(vec![b]);
    let gc = tiles.insert_tab_tile(vec![c]);
    let inner_split = tiles.insert_vertical_tile(vec![gb, gc]);
    let group = tiles.insert_tab_tile(vec![a, inner_split]);
    let gz = tiles.insert_tab_tile(vec![z]);
    let outer = tiles.insert_horizontal_tile(vec![gz, group]);
    let mut tree = Tree::new(outer, tiles);
    let mut prev = HashMap::new();
    prev.insert(h(1).0, group);
    prev.insert(h(3).0, group);
    assert!(normalize_tab_groups(&mut tree, &prev));
    assert_eq!(tree.root(), Some(outer));
    match tree.tiles.get(outer) {
        Some(Tile::Container(Container::Linear(l))) => assert_eq!(l.children, vec![gz, inner_split]),
        _ => panic!("expected the outer split"),
    }
    assert!(tree.tiles.get(group).is_none());
    // `a` rejoins `c`, its pre-drop sibling.
    assert_eq!(handles_in_group(&tree, gc).iter().map(|t| t.0).collect::<Vec<_>>(), vec![1, 3]);
    assert_eq!(handles_in_group(&tree, gb).iter().map(|t| t.0).collect::<Vec<_>>(), vec![2]);
}

// The open tab of a flattened inner group hands over to its first tab.
#[test]
fn flattening_an_open_inner_group_opens_its_first_tab() {
    let mut tiles = Tiles::new();
    let a = tiles.insert_pane(h(1));
    let b = tiles.insert_pane(h(2));
    let c = tiles.insert_pane(h(3));
    let inner = tiles.insert_tab_tile(vec![b, c]);
    let group = tiles.insert_tab_tile(vec![inner, a]);
    let mut tree = Tree::new(group, tiles);
    assert_eq!(active_handle_in_group(&tree, group), None);
    assert!(normalize_tab_groups(&mut tree, &HashMap::new()));
    match tree.tiles.get(group) {
        Some(Tile::Container(Container::Tabs(Tabs { children, active }))) => {
            assert_eq!(children, &vec![b, c, a]);
            assert_eq!(*active, Some(b));
        }
        _ => panic!("expected the host group"),
    }
    assert_eq!(active_handle_in_group(&tree, group), Some(h(2)));
}

#[test]
fn queries_find_panes_groups_and_handles() {
    let mut tiles = Tiles::new();
    let a = tiles.insert_pane(h(1));
    let b = tiles.insert_pane(h(2));
    let c = tiles.insert_pane(h(3));
    let ga = tiles.insert_tab_tile(vec![a, b]);
    let gc = tiles.insert_tab_tile(vec![c]);
    let split = tiles.insert_vertical_tile(vec![ga, gc]);
    let tree = Tree::new(split, tiles);

    assert_eq!(find_pane_of(&tree, h(2)), Some(b));
    assert_eq!(find_pane_of(&tree, h(7)), None);
    assert_eq!(find_group_of(&tree, h(3)), Some(gc));
    assert_eq!(find_group_of(&tree, h(7)), None);
    assert_eq!(first_tabs_container(&tree), Some(ga));
    assert_eq!(handles_in_group(&tree, ga), vec![h(1), h(2)]);
    assert!(handles_in_group(&tree, split).is_empty());
    assert_eq!(all_handles(&tree), vec![h(1), h(2), h(3)]);
    assert_eq!(active_handle_in_group(&tree, ga), Some(h(1)));
    assert_eq!(active_handle_in_group(&tree, split), None);
    assert_eq!(leaf_tab_groups(&tree, split), vec![ga, gc]);
    assert_eq!(leaf_tab_groups(&tree, ga), vec![ga]);
    assert!(leaf_tab_groups(&tree, a).is_empty());

    let groups = group_of_each_handle(&tree);
    assert_eq!(groups.len(), 3);
    assert_eq!(groups.get(&1), Some(&ga));
    assert_eq!(groups.get(&2), Some(&ga));
    assert_eq!(groups.get(&3), Some(&gc));
}

#[test]
fn a_tree_without_tab_groups_has_no_first_group() {
    let mut tiles = Tiles::new();
    let a = tiles.insert_pane(h(1));
    let tree = Tree::new(a, tiles);
    assert_eq!(first_tabs_container(&tree), None);
    assert_eq!(find_group_of(&tree, h(1)), None);
    assert!(group_of_each_handle(&tree).is_empty());
}

#[test]
fn tiles_insert_remove_and_parent() {
    let mut tiles = Tiles::new();
    let a = tiles.insert_pane(h(1));
    assert_eq!(a, TileId(1));
    let g = tiles.insert_grid_tile(vec![a]);
    assert_eq!(tiles.len(), 2);
    assert_eq!(tiles.parent_of(a), Some(g));
    assert_eq!(tiles.parent_of(g), None);
    tiles.insert(TileId(10), Tile::Pane(h(5)));
    assert_eq!(tiles.tile_ids(), &[a, g, TileId(10)]);
    // Fresh ids continue past every id in use.
    let b = tiles.insert_pane(h(6));
    assert_eq!(b, TileId(11));
    assert!(matches!(tiles.remove(g), Some(Tile::Container(Container::Grid(_)))));
    assert!(tiles.remove(g).is_none());
    assert_eq!(tiles.tile_ids(), &[a, TileId(10), b]);
    assert_eq!(tiles.parent_of(a), None);
}

#[test]
fn a_pane_directly_under_a_split_has_no_group() {
    let mut tiles = Tiles::new();
    let a = tiles.insert_pane(h(1));
    let b = tiles.insert_pane(h(2));
    let gb = tiles.insert_tab_tile(vec![b]);
    let split = tiles.insert_vertical_tile(vec![a, gb]);
    let tree = Tree::new(split, tiles);
    assert_eq!(find_group_of(&tree, h(1)), None);
    assert_eq!(find_group_of(&tree, h(2)), Some(gb));
    assert_eq!(find_pane_of(&tree, h(1)), Some(a));
}
