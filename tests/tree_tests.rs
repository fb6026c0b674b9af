use minimax::tree::{
    combine, combine_layer, expand_tree, generate_tree, pow, ConfigError, Tree, LEAF_MAX, LEAF_MIN,
    MAX_DEPTH,
};
use rand::rngs::StdRng;
use rand::SeedableRng;

fn is_max_layer(layer: usize, root_maximizes: bool) -> bool {
    (layer % 2 == 0) == root_maximizes
}

/// Value of node (layer, branch) found by searching down to the leaves.
fn search(leaves: &[i32], last: usize, layer: usize, branch: usize, root_maximizes: bool) -> i32 {
    if layer == last {
        return leaves[branch];
    }
    let l = search(leaves, last, layer + 1, 2 * branch, root_maximizes);
    let r = search(leaves, last, layer + 1, 2 * branch + 1, root_maximizes);
    if is_max_layer(layer, root_maximizes) {
        l.max(r)
    } else {
        l.min(r)
    }
}

#[test]
fn combine_takes_max_or_min() {
    assert_eq!(combine(true, 4, 7), 7);
    assert_eq!(combine(false, 4, 7), 4);
    assert_eq!(combine(true, 9, 2), 9);
    assert_eq!(combine(false, 9, 2), 2);
    assert_eq!(combine(true, 5, 5), 5);
}

#[test]
fn combine_layer_pairs_neighbours() {
    assert_eq!(combine_layer(&vec![4, 7, 1, 3], false), vec![4, 1]);
    assert_eq!(combine_layer(&vec![4, 7, 1, 3], true), vec![7, 3]);
    assert_eq!(combine_layer(&vec![], true), Vec::<i32>::new());
}

#[test]
fn pow_values() {
    assert_eq!(pow(2, 0), 1);
    assert_eq!(pow(2, 10), 1024);
    assert_eq!(pow(2, 31), 0x8000_0000);
    assert_eq!(pow(3, 4), 81);
    assert_eq!(pow(0, 0), 1);
    assert_eq!(pow(0, 5), 0);
    assert_eq!(pow(1, 4_000), 1);
}

#[test]
fn expand_tree_builds_layers_above_leaves() {
    let mut layers = vec![vec![4, 7, 1, 3]];
    expand_tree(&mut layers, true);
    assert_eq!(layers, vec![vec![4], vec![4, 1], vec![4, 7, 1, 3]]);

    let mut layers = vec![vec![4, 7, 1, 3]];
    expand_tree(&mut layers, false);
    assert_eq!(layers, vec![vec![3], vec![7, 3], vec![4, 7, 1, 3]]);

    let mut single = vec![vec![42]];
    expand_tree(&mut single, true);
    assert_eq!(single, vec![vec![42]]);
}

#[test]
fn from_leaves_scenario_depth_three() {
    let tree = Tree::from_leaves(vec![4, 7, 1, 3], true).unwrap();
    assert_eq!(tree.depth(), 3);
    assert_eq!(tree.layers(), &vec![vec![4], vec![4, 1], vec![4, 7, 1, 3]]);
    assert_eq!(tree.value(0, 0), 4);
    assert_eq!(tree.value(1, 1), 1);
    assert!(tree.root_maximizes());
}

#[test]
fn from_leaves_rejects_counts_that_are_not_powers_of_two() {
    assert_eq!(Tree::from_leaves(vec![], true).err(), Some(ConfigError::LeafCount));
    assert_eq!(Tree::from_leaves(vec![1, 2, 3], true).err(), Some(ConfigError::LeafCount));
    assert_eq!(Tree::from_leaves(vec![1, 2, 3, 4, 5, 6], false).err(), Some(ConfigError::LeafCount));
    assert!(Tree::from_leaves(vec![9], false).is_ok());
    assert!(Tree::from_leaves(vec![1, 2, 3, 4, 5, 6, 7, 8], false).is_ok());
}

#[test]
fn generate_rejects_zero_depth() {
    let mut rng = StdRng::seed_from_u64(1);
    assert_eq!(generate_tree(0, true, &mut rng).err(), Some(ConfigError::ZeroDepth));
}

#[test]
fn generate_rejects_too_deep() {
    let mut rng = StdRng::seed_from_u64(1);
    assert_eq!(generate_tree(MAX_DEPTH + 1, true, &mut rng).err(), Some(ConfigError::TooDeep));
    assert_eq!(generate_tree(u32::MAX, false, &mut rng).err(), Some(ConfigError::TooDeep));
}

#[test]
fn generate_has_depth_layers_of_doubling_width() {
    let mut rng = StdRng::seed_from_u64(7);
    for depth in 1..=10u32 {
        let tree = generate_tree(depth, depth % 2 == 0, &mut rng).unwrap();
        assert_eq!(tree.depth(), depth as usize);
        for layer in 0..tree.depth() {
            assert_eq!(tree.width(layer), 1usize << layer);
        }
    }
}

#[test]
fn generate_leaves_lie_in_range() {
    let mut rng = StdRng::seed_from_u64(11);
    for depth in 1..=10u32 {
        let tree = generate_tree(depth, true, &mut rng).unwrap();
        let last = tree.depth() - 1;
        for b in 0..tree.width(last) {
            let v = tree.value(last, b);
            assert!(LEAF_MIN <= v && v < LEAF_MAX);
        }
    }
    assert_eq!((LEAF_MIN, LEAF_MAX), (100, 1000));
}

#[test]
fn generate_leaves_are_not_all_equal() {
    let mut rng = StdRng::seed_from_u64(3);
    let tree = generate_tree(8, true, &mut rng).unwrap();
    let leaves = &tree.layers()[7];
    assert!(leaves.iter().any(|&v| v != leaves[0]));
}

#[test]
fn generate_nodes_match_search_from_leaves() {
    let mut rng = StdRng::seed_from_u64(5);
    for depth in 1..=10u32 {
        for &root_maximizes in &[true, false] {
            let tree = generate_tree(depth, root_maximizes, &mut rng).unwrap();
            let last = tree.depth() - 1;
            let leaves = tree.layers()[last].clone();
            for layer in 0..tree.depth() {
                for b in 0..tree.width(layer) {
                    assert_eq!(tree.value(layer, b), search(&leaves, last, layer, b, root_maximizes));
                }
            }
            for layer in 0..last {
                for b in 0..tree.width(layer) {
                    let l = tree.value(layer + 1, 2 * b);
                    let r = tree.value(layer + 1, 2 * b + 1);
                    assert_eq!(tree.value(layer, b), combine(is_max_layer(layer, root_maximizes), l, r));
                }
            }
        }
    }
}

#[test]
fn generate_is_deterministic_for_a_seed() {
    for depth in 1..=8u32 {
        let mut a = StdRng::seed_from_u64(2019);
        let mut b = StdRng::seed_from_u64(2019);
        let ta = generate_tree(depth, true, &mut a).unwrap();
        let tb = generate_tree(depth, true, &mut b).unwrap();
        assert_eq!(ta.layers(), tb.layers());
    }
}

#[test]
fn same_leaves_give_same_tree() {
    let mut rng = StdRng::seed_from_u64(8);
    let t = generate_tree(6, false, &mut rng).unwrap();
    let leaves = t.layers()[5].clone();
    let again = Tree::from_leaves(leaves, false).unwrap();
    assert_eq!(t.layers(), again.layers());
}
