use board_picking::scene::{
    make_gltf_scene_pickable, reachable_from, set_pickable_recursive, PickableGltf, SceneGraph, SceneNode,
};

fn node(parent: Option<usize>, children: Vec<usize>, has_mesh: bool) -> SceneNode {
    SceneNode { parent, children, has_mesh }
}

/// A root without a mesh, a child without a mesh, and a mesh grandchild.
fn two_level_scene() -> SceneGraph {
    SceneGraph {
        nodes: vec![
            node(None, vec![1], false),
            node(Some(0), vec![2], false),
            node(Some(1), vec![], true),
        ],
        pickable: vec![false; 3],
        pending: vec![PickableGltf { root: 0 }],
    }
}

#[test]
fn walk_tags_only_the_depth_two_mesh() {
    let mut g = two_level_scene();
    assert!(g.is_well_formed());
    let tagged = make_gltf_scene_pickable(&mut g);
    assert_eq!(tagged, vec![2]);
    assert_eq!(g.pickable, vec![false, false, true]);
    assert!(g.pending.is_empty());
}

#[test]
fn second_pass_is_a_no_op() {
    let mut g = two_level_scene();
    make_gltf_scene_pickable(&mut g);
    let again = make_gltf_scene_pickable(&mut g);
    assert!(again.is_empty());
    assert_eq!(g.pickable, vec![false, false, true]);
    assert!(g.pending.is_empty());
}

#[test]
fn walking_one_root_twice_changes_nothing_more() {
    let g = two_level_scene();
    let mut flags = vec![false; 3];
    set_pickable_recursive(&g.nodes, 0, &mut flags);
    let once = flags.clone();
    set_pickable_recursive(&g.nodes, 0, &mut flags);
    assert_eq!(flags, once);
}

#[test]
fn root_mesh_is_not_tagged_but_direct_children_are() {
    let nodes = vec![
        node(None, vec![1, 2], true),
        node(Some(0), vec![], true),
        node(Some(0), vec![], false),
    ];
    let mut flags = vec![false; 3];
    set_pickable_recursive(&nodes, 0, &mut flags);
    assert_eq!(flags, vec![false, true, false]);
}

#[test]
fn nodes_outside_the_subtree_are_untouched() {
    let nodes = vec![
        node(None, vec![1], false),
        node(Some(0), vec![], true),
        node(None, vec![3], false),
        node(Some(2), vec![], true),
    ];
    let mut g = SceneGraph { nodes, pickable: vec![false; 4], pending: vec![PickableGltf { root: 2 }] };
    let tagged = make_gltf_scene_pickable(&mut g);
    assert_eq!(tagged, vec![3]);
    assert_eq!(g.pickable, vec![false, false, false, true]);
}

#[test]
fn several_roots_and_already_pickable_nodes() {
    let nodes = vec![
        node(None, vec![1], false),
        node(Some(0), vec![], true),
        node(None, vec![3], false),
        node(Some(2), vec![], true),
    ];
    let mut g = SceneGraph {
        nodes,
        pickable: vec![false, true, false, false],
        pending: vec![PickableGltf { root: 2 }, PickableGltf { root: 0 }],
    };
    let tagged = make_gltf_scene_pickable(&mut g);
    assert_eq!(tagged, vec![3]);
    assert_eq!(g.pickable, vec![false, true, false, true]);
}

#[test]
fn leaf_root_tags_nothing() {
    let mut g = SceneGraph {
        nodes: vec![node(None, vec![], true)],
        pickable: vec![false],
        pending: vec![PickableGltf { root: 0 }],
    };
    assert!(make_gltf_scene_pickable(&mut g).is_empty());
    assert_eq!(g.pickable, vec![false]);
    assert!(g.pending.is_empty());
}

#[test]
fn cyclic_children_still_end() {
    let nodes = vec![
        node(None, vec![1], false),
        node(Some(0), vec![0, 2], false),
        node(Some(1), vec![1], true),
    ];
    assert_eq!(reachable_from(&nodes, 0), vec![true, true, true]);
    assert_eq!(reachable_from(&nodes, 2), vec![true, true, true]);
    let mut flags = vec![false; 3];
    set_pickable_recursive(&nodes, 0, &mut flags);
    assert_eq!(flags, vec![false, false, true]);
}

#[test]
fn reachability_follows_children_only() {
    let nodes = vec![
        node(None, vec![1], false),
        node(Some(0), vec![], false),
        node(None, vec![], false),
    ];
    assert_eq!(reachable_from(&nodes, 1), vec![false, true, false]);
    assert_eq!(reachable_from(&nodes, 0), vec![true, true, false]);
}

#[test]
fn malformed_graphs_are_detected() {
    let mut g = two_level_scene();
    g.nodes[0].children.push(7);
    assert!(!g.is_well_formed());
    let mut g = two_level_scene();
    g.nodes[2].parent = Some(3);
    assert!(!g.is_well_formed());
    let mut g = two_level_scene();
    g.pending.push(PickableGltf { root: 3 });
    assert!(!g.is_well_formed());
    let mut g = two_level_scene();
    g.pickable.pop();
    assert!(!g.is_well_formed());
}
