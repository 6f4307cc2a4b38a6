use rand::rngs::StdRng;
use rand::{Rng, SeedableRng};
use symboreg::census::Kind;
use symboreg::score::fitness;
use symboreg::{Node, Numerics, Point, SymbolicBinaryHeap, MAX_DEPTH, MAX_IDX};

const MAX_NUMBER_NODE: f32 = 15.0;
const MIN_NUMBER_NODE: f32 = -15.0;

/// The arithmetic of `f32`.
struct Reals;

impl Numerics<f32> for Reals {
    fn parse(&self, text: &[u8]) -> Option<f32> {
        std::str::from_utf8(text).ok()?.parse().ok()
    }

    fn ratio(&self, numerator: i32, denominator: u32) -> f32 {
        numerator as f32 / denominator as f32
    }

    fn least(&self) -> f32 {
        f32::MIN_POSITIVE
    }

    fn greatest(&self) -> f32 {
        f32::MAX
    }

    fn sum(&self, a: f32, b: f32) -> f32 {
        a + b
    }

    fn difference(&self, a: f32, b: f32) -> f32 {
        a - b
    }

    fn product(&self, a: f32, b: f32) -> f32 {
        a * b
    }

    fn quotient(&self, a: f32, b: f32) -> f32 {
        a / b
    }

    fn sine(&self, a: f32) -> f32 {
        a.sin()
    }

    fn cosine(&self, a: f32) -> f32 {
        a.cos()
    }

    fn is_zero(&self, a: f32) -> bool {
        a == 0.0
    }

    fn less(&self, a: f32, b: f32) -> bool {
        a < b
    }

    fn uniform(&self, rng: &mut StdRng, low: f32, high: f32) -> f32 {
        if low < high {
            rng.gen_range(low, high)
        } else {
            low
        }
    }

    fn rank(&self, a: f32) -> u64 {
        rank(a)
    }

    fn number(&self, rank: u64) -> f32 {
        weight(rank)
    }
}

fn rank(value: f32) -> u64 {
    if value > 0.0 {
        u64::from(value.to_bits())
    } else {
        0
    }
}

fn weight(rank: u64) -> f32 {
    f32::from_bits(rank as u32)
}

/// `2 * x + 1`.
fn line() -> SymbolicBinaryHeap<f32> {
    SymbolicBinaryHeap::new_from(vec![
        Some(Node::Add),
        Some(Node::Multiply),
        Some(Node::Number(1.0)),
        Some(Node::Number(2.0)),
        Some(Node::Variable),
    ])
}

/// A tree that reaches the last level: `sin(cos(sin(x + 3) * x) - 4 / cos(sin(sin(x))))`.
fn deep() -> SymbolicBinaryHeap<f32> {
    let mut heap: Vec<Option<Node<f32>>> = vec![None; MAX_IDX];
    heap[0] = Some(Node::Sine);
    heap[1] = Some(Node::Subtract);
    heap[3] = Some(Node::Cosine);
    heap[4] = Some(Node::Divide);
    heap[7] = Some(Node::Multiply);
    heap[9] = Some(Node::Number(4.0));
    heap[10] = Some(Node::Cosine);
    heap[15] = Some(Node::Sine);
    heap[16] = Some(Node::Variable);
    heap[21] = Some(Node::Sine);
    heap[31] = Some(Node::Add);
    heap[43] = Some(Node::Sine);
    SymbolicBinaryHeap::new_from(heap)
}

fn deep_valid() -> SymbolicBinaryHeap<f32> {
    let mut heap: Vec<Option<Node<f32>>> = vec![None; MAX_IDX];
    heap[0] = Some(Node::Sine);
    heap[1] = Some(Node::Subtract);
    heap[3] = Some(Node::Cosine);
    heap[4] = Some(Node::Divide);
    heap[7] = Some(Node::Multiply);
    heap[9] = Some(Node::Number(4.0));
    heap[10] = Some(Node::Cosine);
    heap[15] = Some(Node::Sine);
    heap[16] = Some(Node::Variable);
    heap[21] = Some(Node::Sine);
    heap[31] = Some(Node::Variable);
    heap[43] = Some(Node::Number(-2.5));
    SymbolicBinaryHeap::new_from(heap)
}

#[test]
fn new_tree_is_empty() {
    let tree = SymbolicBinaryHeap::<f32>::new();
    assert_eq!(tree.heap.len(), MAX_IDX);
    assert_eq!(tree.heap.len(), 63);
    assert!(tree.heap.iter().all(|slot| slot.is_none()));
    assert!(!tree.is_valid());
    assert_eq!(tree.complexity(), 0);
    assert_eq!(tree.depth(), 0);
}

#[test]
fn new_from_pads_the_listing() {
    let tree = line();
    assert_eq!(tree.heap.len(), 63);
    assert_eq!(tree.heap[0], Some(Node::Add));
    assert_eq!(tree.heap[4], Some(Node::Variable));
    assert!(tree.heap[5..].iter().all(|slot| slot.is_none()));
    assert!(tree.is_valid());
}

#[test]
fn new_from_leaves_out_what_is_beyond_the_tree() {
    let mut listing: Vec<Option<Node<f32>>> = vec![None; 70];
    listing[0] = Some(Node::Variable);
    listing[66] = Some(Node::Variable);
    let tree = SymbolicBinaryHeap::new_from(listing);
    assert_eq!(tree.heap.len(), 63);
    assert_eq!(tree.complexity(), 1);
    assert!(tree.is_valid());
    let none = SymbolicBinaryHeap::<f32>::new_from(Vec::new());
    assert_eq!(none, SymbolicBinaryHeap::new());
}

#[test]
fn validity_follows_the_arity_rules() {
    assert!(line().is_valid());
    assert!(deep_valid().is_valid());
    // an operator on the last level has no room for its children
    assert!(!deep().is_valid());
    // a binary operator with one child
    let lopsided = SymbolicBinaryHeap::<f32>::new_from(vec![Some(Node::Add), Some(Node::Variable)]);
    assert!(!lopsided.is_valid());
    // a unary operator with a right child
    let crowded = SymbolicBinaryHeap::<f32>::new_from(vec![
        Some(Node::Sine),
        Some(Node::Variable),
        Some(Node::Variable),
    ]);
    assert!(!crowded.is_valid());
    // a unary operator with its left child alone
    let sine = SymbolicBinaryHeap::<f32>::new_from(vec![Some(Node::Sine), Some(Node::Variable)]);
    assert!(sine.is_valid());
    // a terminal with a child
    let heavy = SymbolicBinaryHeap::<f32>::new_from(vec![Some(Node::Variable), Some(Node::Variable)]);
    assert!(!heavy.is_valid());
    // a node under an empty slot
    let orphan = SymbolicBinaryHeap::<f32>::new_from(vec![
        Some(Node::Sine),
        Some(Node::Variable),
        None,
        None,
        None,
        Some(Node::Variable),
    ]);
    assert!(!orphan.is_valid());
    // a single terminal
    let leaf = SymbolicBinaryHeap::<f32>::new_from(vec![Some(Node::Number(7.0))]);
    assert!(leaf.is_valid());
}

#[test]
fn census_of_a_small_tree() {
    let tree = line();
    assert_eq!(tree.complexity(), 5);
    assert_eq!(tree.depth(), 3);
    assert!(tree.has_variable());
    assert_eq!(tree.get_terminal_idxs(), vec![2, 3, 4]);
    assert_eq!(tree.get_op_idxs(), vec![0, 1]);
    assert_eq!(tree.positions(Kind::Occupied), vec![0, 1, 2, 3, 4]);
    assert_eq!(tree.positions(Kind::Mutable), vec![0, 1, 2, 3]);
    assert_eq!(tree.subtree_depth(1), 2);
    assert_eq!(tree.subtree_depth(2), 1);
    assert_eq!(tree.subtree_depth(5), 0);
    assert!(tree.occupied(4));
    assert!(!tree.occupied(5));
    assert!(!tree.occupied(63));
}

#[test]
fn census_of_a_deep_tree() {
    let tree = deep_valid();
    assert_eq!(tree.complexity(), 12);
    assert_eq!(tree.depth(), 6);
    assert_eq!(tree.subtree_depth(4), 4);
    assert_eq!(tree.subtree_depth(3), 4);
    assert_eq!(tree.subtree_depth(10), 3);
    assert_eq!(tree.get_terminal_idxs(), vec![9, 16, 31, 43]);
    assert_eq!(tree.get_op_idxs(), vec![0, 1, 3, 4, 7, 10, 15, 21]);
    let constant = SymbolicBinaryHeap::<f32>::new_from(vec![Some(Node::Number(7.0))]);
    assert!(!constant.has_variable());
    assert_eq!(constant.depth(), 1);
}

#[test]
fn slots_of_children_and_parent() {
    let mut tree = line();
    assert_eq!(*tree.left(0), Some(Node::Multiply));
    assert_eq!(*tree.right(0), Some(Node::Number(1.0)));
    assert_eq!(*tree.left(1), Some(Node::Number(2.0)));
    assert_eq!(*tree.right(1), Some(Node::Variable));
    assert_eq!(*tree.parent(4), Some(Node::Multiply));
    assert_eq!(*tree.parent(1), Some(Node::Add));
    *tree.right(0) = Some(Node::Number(5.0));
    assert_eq!(tree.heap[2], Some(Node::Number(5.0)));
}

#[test]
fn subtree_as_a_tree_of_its_own() {
    let tree = line();
    let product = tree.heap_at_idx(1);
    assert!(product.is_valid());
    assert_eq!(product.heap[0], Some(Node::Multiply));
    assert_eq!(product.heap[1], Some(Node::Number(2.0)));
    assert_eq!(product.heap[2], Some(Node::Variable));
    assert_eq!(product.complexity(), 3);
    assert_eq!(tree, line());
    let whole = tree.heap_at_idx(0);
    assert_eq!(whole, tree);
    let deep = deep_valid();
    let part = deep.heap_at_idx(4);
    assert!(part.is_valid());
    assert_eq!(part.depth(), deep.subtree_depth(4));
    assert_eq!(part.heap[0], Some(Node::Divide));
    assert_eq!(part.heap[1], Some(Node::Number(4.0)));
    assert_eq!(part.heap[2], Some(Node::Cosine));
    assert_eq!(part.heap[5], Some(Node::Sine));
    assert_eq!(part.heap[11], Some(Node::Number(-2.5)));
    assert_eq!(part.complexity(), 5);
}

#[test]
fn graft_replaces_a_subtree() {
    let mut tree = line();
    let donor = deep_valid();
    // the cosine of a sine of a number comes in place of the number 1
    tree.graft(2, &donor, 10);
    assert!(tree.is_valid());
    assert_eq!(tree.heap[2], Some(Node::Cosine));
    assert_eq!(tree.heap[5], Some(Node::Sine));
    assert_eq!(tree.heap[6], None);
    assert_eq!(tree.heap[11], Some(Node::Number(-2.5)));
    assert_eq!(tree.heap[1], Some(Node::Multiply));
    assert_eq!(tree.complexity(), 7);
    assert_eq!(tree.depth(), 4);
}

#[test]
fn swap_of_two_subtrees() {
    let mut tree = line();
    tree.swap_from(None, 1, 2);
    assert!(tree.is_valid());
    assert_eq!(tree.heap[1], Some(Node::Number(1.0)));
    assert_eq!(tree.heap[2], Some(Node::Multiply));
    assert_eq!(tree.heap[3], None);
    assert_eq!(tree.heap[4], None);
    assert_eq!(tree.heap[5], Some(Node::Number(2.0)));
    assert_eq!(tree.heap[6], Some(Node::Variable));
    assert_eq!(tree.complexity(), 5);
    tree.swap_from(None, 1, 2);
    assert_eq!(tree, line());
}

#[test]
fn swap_from_a_source_copies_its_subtree() {
    let mut tree = line();
    tree.swap_from(Some(deep_valid()), 4, 21);
    assert!(tree.is_valid());
    assert_eq!(tree.heap[4], Some(Node::Sine));
    assert_eq!(tree.heap[9], Some(Node::Number(-2.5)));
    assert_eq!(tree.heap[10], None);
    assert_eq!(tree.complexity(), 6);
}

#[test]
fn plant_empties_what_is_below() {
    let mut tree = deep_valid();
    tree.plant(4, Some(Node::Variable));
    assert!(tree.is_valid());
    assert_eq!(tree.heap[4], Some(Node::Variable));
    assert_eq!(tree.heap[9], None);
    assert_eq!(tree.heap[10], None);
    assert_eq!(tree.heap[21], None);
    assert_eq!(tree.heap[43], None);
    assert_eq!(tree.heap[3], Some(Node::Cosine));
    assert_eq!(tree.complexity(), 8);
}

#[test]
fn deletion_leaves_a_terminal() {
    let mut rng = StdRng::seed_from_u64(11);
    let mut saw_variable = false;
    let mut saw_number = false;
    for _ in 0..40 {
        let mut tree = line();
        tree.delete_from_idx(1, &mut rng, &Reals);
        assert!(tree.is_valid());
        assert_eq!(tree.complexity(), 3);
        assert_eq!(tree.heap[3], None);
        assert_eq!(tree.heap[4], None);
        match tree.heap[1] {
            Some(Node::Variable) => saw_variable = true,
            // the product 2 * x is worth 2 when x is 1
            Some(Node::Number(n)) => {
                assert_eq!(n, 2.0);
                saw_number = true;
            }
            other => panic!("a terminal was due, not {:?}", other),
        }
    }
    assert!(saw_variable && saw_number);
}

#[test]
fn deletion_of_an_empty_slot_changes_nothing() {
    let mut rng = StdRng::seed_from_u64(12);
    let mut tree = line();
    tree.delete_from_idx(5, &mut rng, &Reals);
    assert_eq!(tree, line());
    let mut sine = SymbolicBinaryHeap::<f32>::new_from(vec![Some(Node::Sine), Some(Node::Variable)]);
    sine.delete_from_idx(2, &mut rng, &Reals);
    assert_eq!(sine.heap[2], None);
    assert!(sine.is_valid());
}

#[test]
fn deletion_at_the_root_then_spawn() {
    let mut rng = StdRng::seed_from_u64(13);
    for _ in 0..50 {
        let mut tree = deep_valid();
        tree.delete_from_idx(0, &mut rng, &Reals);
        assert!(tree.is_valid());
        assert_eq!(tree.complexity(), 1);
        assert_eq!(tree.depth(), 1);
        tree.spawn(&mut rng, &Reals);
        assert!(tree.is_valid());
        assert!(tree.depth() >= 2 && tree.depth() < MAX_DEPTH);
    }
}

#[test]
fn spawn_makes_valid_trees() {
    let mut rng = StdRng::seed_from_u64(14);
    let mut depths = [0usize; 7];
    for _ in 0..500 {
        let mut tree = SymbolicBinaryHeap::<f32>::new();
        tree.spawn(&mut rng, &Reals);
        assert!(tree.is_valid());
        assert!(tree.get_op_idxs().contains(&0));
        let depth = tree.depth() as usize;
        assert!(depth >= 2 && depth <= 5);
        depths[depth] += 1;
        for slot in tree.heap.iter() {
            if let Some(Node::Number(n)) = slot {
                assert!(*n >= MIN_NUMBER_NODE / 2.0 && *n < MAX_NUMBER_NODE / 2.0);
            }
        }
    }
    assert!(depths[2] > 0 && depths[3] > 0 && depths[4] > 0 && depths[5] > 0);
}

#[test]
fn random_instantiate_keeps_the_rest() {
    let mut rng = StdRng::seed_from_u64(15);
    for round in 0..200 {
        let mut tree = line();
        let depth = 1 + (round % 4) as u32;
        tree.random_instantiate(4, depth, &mut rng, &Reals);
        assert!(tree.is_valid());
        assert_eq!(tree.heap[0], Some(Node::Add));
        assert_eq!(tree.heap[1], Some(Node::Multiply));
        assert_eq!(tree.heap[2], Some(Node::Number(1.0)));
        assert_eq!(tree.heap[3], Some(Node::Number(2.0)));
        let levels = tree.subtree_depth(4);
        assert!(levels >= 1 && levels <= depth);
        if depth == 1 {
            assert_eq!(levels, 1);
        } else {
            assert!(levels >= 2);
        }
    }
    let mut full = SymbolicBinaryHeap::<f32>::new();
    full.random_instantiate(0, 6, &mut rng, &Reals);
    assert!(full.is_valid());
    assert!(full.depth() <= 6);
}

#[test]
fn fill_node_follows_the_arity() {
    let mut rng = StdRng::seed_from_u64(16);
    let mut tree = SymbolicBinaryHeap::<f32>::new_from(vec![Some(Node::Add), Some(Node::Sine), Some(Node::Variable)]);
    tree.fill_node(1, true, true, &mut rng, &Reals);
    assert!(tree.get_op_idxs().contains(&3));
    assert_eq!(tree.heap[4], None);
    tree.fill_node(2, true, true, &mut rng, &Reals);
    assert_eq!(tree.heap[5], None);
    assert_eq!(tree.heap[6], None);
    tree.fill_node(3, false, false, &mut rng, &Reals);
    for idx in tree.get_op_idxs() {
        assert!(idx <= 3);
    }
    assert!(tree.is_valid());
}

#[test]
fn mutations_keep_a_deep_tree_valid() {
    let mut rng = StdRng::seed_from_u64(17);
    for round in 0..10_000 {
        let mut tree = deep_valid();
        match round % 4 {
            0 => tree.mutate_constant(&mut rng, &Reals),
            1 => tree.mutate_clip(&mut rng, &Reals),
            2 => tree.mutate_swap(&mut rng, &Reals),
            _ => tree.mutate_similar(&mut rng, &Reals),
        }
        assert!(tree.is_valid());
        assert_eq!(tree.heap.len(), MAX_IDX);
        assert!(tree.depth() <= MAX_DEPTH);
    }
}

#[test]
fn long_walks_of_operations_stay_valid() {
    let mut rng = StdRng::seed_from_u64(18);
    for _ in 0..50 {
        let mut tree = SymbolicBinaryHeap::<f32>::new();
        tree.spawn(&mut rng, &Reals);
        for _ in 0..200 {
            let deep = tree.depth() > 2;
            match rng.gen_range(0, 6) {
                0 => tree.mutate_constant(&mut rng, &Reals),
                1 if deep => tree.mutate_clip(&mut rng, &Reals),
                2 if tree.depth() >= 2 => tree.mutate_swap(&mut rng, &Reals),
                3 if tree.heap[0] != Some(Node::Variable) => tree.mutate_similar(&mut rng, &Reals),
                4 => {
                    let idx = rng.gen_range(0, MAX_IDX);
                    tree.delete_from_idx(idx, &mut rng, &Reals);
                }
                _ => {
                    let idx = rng.gen_range(1, MAX_IDX);
                    if tree.occupied(idx) {
                        let before = tree.clone();
                        tree.check_swap_idx(idx, &mut rng, &Reals);
                        assert_eq!(tree, before);
                    }
                }
            }
            assert!(tree.is_valid());
            assert!(tree.depth() >= 1 && tree.depth() <= MAX_DEPTH);
        }
    }
}

#[test]
fn clip_shrinks_the_tree() {
    let mut rng = StdRng::seed_from_u64(19);
    for _ in 0..200 {
        let mut tree = deep_valid();
        tree.mutate_clip(&mut rng, &Reals);
        assert!(tree.complexity() < 12);
        assert_eq!(tree.heap[0], Some(Node::Sine));
    }
}

#[test]
fn similar_turns_one_node() {
    let mut rng = StdRng::seed_from_u64(20);
    for _ in 0..200 {
        let before = line();
        let mut tree = line();
        tree.mutate_similar(&mut rng, &Reals);
        let changed: Vec<usize> = (0..MAX_IDX).filter(|&idx| tree.heap[idx] != before.heap[idx]).collect();
        assert!(changed.len() <= 1);
        for idx in changed {
            match (before.heap[idx], tree.heap[idx]) {
                (Some(Node::Add), Some(Node::Subtract)) => {}
                (Some(Node::Multiply), Some(Node::Divide)) => {}
                (Some(Node::Number(_)), Some(Node::Number(n))) => {
                    assert!(n >= MIN_NUMBER_NODE && n <= MAX_NUMBER_NODE);
                }
                pair => panic!("not a point mutation: {:?}", pair),
            }
        }
    }
    assert_eq!(Node::<f32>::Add.similar(), Node::Subtract);
    assert_eq!(Node::<f32>::Subtract.similar(), Node::Add);
    assert_eq!(Node::<f32>::Multiply.similar(), Node::Divide);
    assert_eq!(Node::<f32>::Divide.similar(), Node::Multiply);
    assert_eq!(Node::<f32>::Sine.similar(), Node::Cosine);
    assert_eq!(Node::<f32>::Cosine.similar(), Node::Sine);
    assert_eq!(Node::<f32>::Variable.similar(), Node::Variable);
    assert_eq!(Node::Number(3.0f32).similar(), Node::Number(3.0));
    assert_eq!(Node::<f32>::Divide.children(), 2);
    assert_eq!(Node::<f32>::Cosine.children(), 1);
    assert_eq!(Node::Number(3.0f32).children(), 0);
}

#[test]
fn constant_mutation_grows_where_there_is_room() {
    let mut rng = StdRng::seed_from_u64(21);
    for _ in 0..200 {
        let mut tree = line();
        tree.mutate_constant(&mut rng, &Reals);
        assert!(tree.is_valid());
        // a tree of three levels has room under each of its terminals
        assert!(tree.complexity() > 5);
        assert!(tree.depth() <= MAX_DEPTH);
    }
    for _ in 0..200 {
        // a tree that reaches the last level is retuned instead
        let before = deep_valid();
        let mut tree = deep_valid();
        tree.mutate_constant(&mut rng, &Reals);
        assert_eq!(tree.complexity(), 12);
        assert_eq!(tree.get_op_idxs(), before.get_op_idxs());
        assert_eq!(tree.get_terminal_idxs(), before.get_terminal_idxs());
        assert_eq!(tree.heap[16], Some(Node::Variable));
        assert_eq!(tree.heap[31], Some(Node::Variable));
    }
}

#[test]
fn swap_mutation_trades_unrelated_subtrees() {
    let mut rng = StdRng::seed_from_u64(22);
    let mut traded = 0;
    for _ in 0..300 {
        let before = deep_valid();
        let mut tree = deep_valid();
        tree.mutate_swap(&mut rng, &Reals);
        assert!(tree.is_valid());
        if tree.complexity() == before.complexity() && tree.get_op_idxs() != before.get_op_idxs() {
            traded += 1;
        }
        assert_eq!(tree.heap[0], Some(Node::Sine));
        assert_eq!(tree.heap[1], Some(Node::Subtract));
    }
    assert!(traded > 0);
}

#[test]
fn swap_index_is_never_the_root() {
    let mut rng = StdRng::seed_from_u64(23);
    for _ in 0..500 {
        let tree = deep_valid();
        let idx = tree.get_swap_idx(&mut rng);
        assert!(idx >= 1 && idx < MAX_IDX);
        assert!(tree.occupied(idx));
        assert!(tree.subtree_depth(idx) < tree.depth());
    }
    let small = SymbolicBinaryHeap::<f32>::new_from(vec![Some(Node::Sine), Some(Node::Variable)]);
    assert_eq!(small.get_swap_idx(&mut rng), 1);
}

#[test]
fn check_repairs_the_parent() {
    let mut rng = StdRng::seed_from_u64(24);
    // under a unary operator the subtree on the other side goes
    let mut crowded = SymbolicBinaryHeap::<f32>::new_from(vec![
        Some(Node::Sine),
        Some(Node::Variable),
        Some(Node::Cosine),
        None,
        None,
        Some(Node::Variable),
    ]);
    crowded.check_swap_idx(1, &mut rng, &Reals);
    assert_eq!(crowded.heap[2], None);
    assert_eq!(crowded.heap[5], None);
    assert!(crowded.is_valid());
    // under a terminal a left child with a sibling gets a binary parent
    let mut heavy = SymbolicBinaryHeap::<f32>::new_from(vec![
        Some(Node::Variable),
        Some(Node::Variable),
        Some(Node::Variable),
    ]);
    heavy.check_swap_idx(1, &mut rng, &Reals);
    assert_eq!(heavy.heap[0].unwrap().children(), 2);
    assert!(heavy.is_valid());
    // a left child alone gets a unary parent
    let mut single = SymbolicBinaryHeap::<f32>::new_from(vec![Some(Node::Number(1.0)), Some(Node::Variable)]);
    single.check_swap_idx(1, &mut rng, &Reals);
    assert_eq!(single.heap[0].unwrap().children(), 1);
    assert!(single.is_valid());
    // a right child alone gets a binary parent and a terminal beside it
    let mut right = SymbolicBinaryHeap::<f32>::new_from(vec![None, None, Some(Node::Variable)]);
    right.check_swap_idx(2, &mut rng, &Reals);
    assert_eq!(right.heap[0].unwrap().children(), 2);
    assert_eq!(right.heap[1].unwrap().children(), 0);
    assert!(right.is_valid());
    // a valid tree stays as it is
    let mut fine = deep_valid();
    fine.check_swap_idx(21, &mut rng, &Reals);
    assert_eq!(fine, deep_valid());
}

#[test]
fn crop_cuts_to_the_level() {
    let mut rng = StdRng::seed_from_u64(25);
    for _ in 0..50 {
        let mut tree = deep_valid();
        tree.crop(4, 2, &mut rng, &Reals);
        assert!(tree.is_valid());
        assert_eq!(tree.subtree_depth(4), 2);
        assert_eq!(tree.heap[4], Some(Node::Divide));
        assert_eq!(tree.heap[9], Some(Node::Number(4.0)));
        // the cosine of the sine of a number gives way to the variable or to its worth
        let worth = deep_valid().collapse_at(10, 1.0, &Reals);
        assert!(tree.heap[10] == Some(Node::Variable) || tree.heap[10] == Some(Node::Number(worth)));
        assert_eq!(tree.heap[21], None);
        assert_eq!(tree.heap[3], Some(Node::Cosine));
        assert_eq!(tree.heap[31], Some(Node::Variable));
    }
    let mut whole = deep_valid();
    whole.crop(0, 6, &mut rng, &Reals);
    assert_eq!(whole, deep_valid());
}

#[test]
fn implant_cuts_what_does_not_fit() {
    let mut rng = StdRng::seed_from_u64(26);
    for _ in 0..50 {
        let mut tree = deep_valid();
        let donor = deep_valid();
        // four levels come to stand at depth 5: two of them fit
        tree.implant(16, &donor, 4, &mut rng, &Reals);
        assert!(tree.is_valid());
        assert_eq!(tree.heap[16], Some(Node::Divide));
        assert_eq!(tree.heap[33], Some(Node::Number(4.0)));
        let worth = donor.collapse_at(10, 1.0, &Reals);
        assert!(tree.heap[34] == Some(Node::Variable) || tree.heap[34] == Some(Node::Number(worth)));
        assert_eq!(tree.heap[15], Some(Node::Sine));
        assert_eq!(tree.depth(), 6);
    }
    let mut small = line();
    small.implant(2, &deep_valid(), 10, &mut rng, &Reals);
    assert_eq!(small.heap[2], Some(Node::Cosine));
    assert_eq!(small.heap[5], Some(Node::Sine));
    assert_eq!(small.heap[11], Some(Node::Number(-2.5)));
    assert!(small.is_valid());
}

#[test]
fn the_line_is_worth_two_x_plus_one() {
    let tree = line();
    for x in [-3.0f32, 0.0, 0.5, 1.0, 10.0, 100.0] {
        assert_eq!(tree.collapse(x, &Reals), 2.0 * x + 1.0);
    }
    assert_eq!(tree.fold(1, &Reals), 2.0);
    assert_eq!(tree.fold(0, &Reals), 3.0);
    assert_eq!(tree.collapse_at(1, 4.0, &Reals), 8.0);
    let points = vec![Point::new(1.0, 3.0), Point::new(2.0, 5.0), Point::new(100.0, 201.0)];
    assert_eq!(weight(fitness(&tree, &points, &Reals)), 1.0 / f32::MIN_POSITIVE);
}

#[test]
fn each_node_kind_has_its_value() {
    let e = f32::MIN_POSITIVE;
    let both = |node: Node<f32>, l: f32, r: f32| {
        SymbolicBinaryHeap::new_from(vec![Some(node), Some(Node::Number(l)), Some(Node::Number(r))])
    };
    let one = |node: Node<f32>, l: f32| SymbolicBinaryHeap::new_from(vec![Some(node), Some(Node::Number(l))]);
    assert_eq!(both(Node::Add, 3.0, 0.5).collapse(9.0, &Reals), 3.5);
    assert_eq!(both(Node::Subtract, 3.0, 0.5).collapse(9.0, &Reals), 2.5);
    assert_eq!(both(Node::Multiply, 3.0, 0.5).collapse(9.0, &Reals), 1.5);
    assert_eq!(both(Node::Divide, 3.0, 0.5).collapse(9.0, &Reals), 6.0);
    // a division by zero is a division by the least number above zero
    assert_eq!(both(Node::Divide, 3.0, 0.0).collapse(9.0, &Reals), 3.0 / e);
    assert!(both(Node::Divide, 3.0, 0.0).collapse(9.0, &Reals).is_finite());
    // a child that is not there counts as the least number above zero
    assert_eq!(one(Node::Sine, 0.5).collapse(9.0, &Reals), (0.5f32 + e).sin());
    assert_eq!(one(Node::Cosine, 0.5).collapse(9.0, &Reals), (0.5f32 + e).cos());
    assert_eq!(one(Node::Sine, 0.0).collapse(9.0, &Reals), e.sin());
    let leaf = SymbolicBinaryHeap::new_from(vec![Some(Node::Number(-2.25))]);
    assert_eq!(leaf.collapse(9.0, &Reals), -2.25);
    let variable = SymbolicBinaryHeap::<f32>::new_from(vec![Some(Node::Variable)]);
    assert_eq!(variable.collapse(9.0, &Reals), 9.0);
    assert_eq!(SymbolicBinaryHeap::<f32>::new().collapse(9.0, &Reals), 0.0);
    let square = SymbolicBinaryHeap::<f32>::new_from(vec![
        Some(Node::Multiply),
        Some(Node::Variable),
        Some(Node::Variable),
    ]);
    assert_eq!(square.collapse(-3.0, &Reals), 9.0);
    // the right half of sin(cos(sin(x) * x) - 4 / cos(sin(-2.5)))
    let tree = deep_valid();
    let cosine = ((-2.5f32 + e).sin() + e).cos();
    assert_eq!(tree.collapse_at(10, 2.0, &Reals), cosine);
    assert_eq!(tree.collapse_at(4, 2.0, &Reals), 4.0 / cosine);
    // and the left half, at x = 2
    let sine = (2.0f32 + e).sin();
    assert_eq!(tree.collapse_at(15, 2.0, &Reals), sine);
    assert_eq!(tree.collapse_at(7, 2.0, &Reals), sine * 2.0);
    assert_eq!(tree.collapse_at(3, 2.0, &Reals), (sine * 2.0 + e).cos());
    let whole = ((sine * 2.0 + e).cos() - 4.0 / cosine + e).sin();
    assert_eq!(tree.collapse(2.0, &Reals), whole);
}

#[test]
fn subtrees_keep_their_value_where_they_go() {
    let tree = deep_valid();
    for base in [1usize, 3, 4, 7, 10, 16, 21, 43] {
        let part = tree.heap_at_idx(base);
        for x in [-1.5f32, 0.0, 1.0, 2.0] {
            assert_eq!(part.collapse(x, &Reals), tree.collapse_at(base, x, &Reals));
        }
    }
    let mut host = line();
    host.graft(2, &tree, 10);
    assert_eq!(host.collapse_at(2, 3.0, &Reals), tree.collapse_at(10, 3.0, &Reals));
    let mut swapped = deep_valid();
    swapped.swap_from(None, 7, 10);
    assert!(swapped.is_valid());
    assert_eq!(swapped.collapse_at(10, 2.0, &Reals), tree.collapse_at(7, 2.0, &Reals));
    assert_eq!(swapped.collapse_at(7, 2.0, &Reals), tree.collapse_at(10, 2.0, &Reals));
}

#[test]
fn a_number_in_place_of_a_subtree_keeps_the_value_at_one() {
    let mut rng = StdRng::seed_from_u64(30);
    let before = deep_valid();
    let mut numbers = 0;
    for round in 0..200 {
        let idx = [1usize, 3, 4, 7, 10, 15, 21][round % 7];
        let mut tree = deep_valid();
        tree.delete_from_idx(idx, &mut rng, &Reals);
        if let Some(Node::Number(worth)) = tree.heap[idx] {
            numbers += 1;
            assert_eq!(worth, before.collapse_at(idx, 1.0, &Reals));
            assert_eq!(tree.collapse(1.0, &Reals), before.collapse(1.0, &Reals));
        }
    }
    assert!(numbers > 50);
}

#[test]
fn constants_do_not_follow_the_variable() {
    let tree = SymbolicBinaryHeap::new_from(vec![
        Some(Node::Divide),
        Some(Node::Sine),
        Some(Node::Number(3.0)),
        Some(Node::Number(0.25)),
    ]);
    assert!(!tree.has_variable());
    let first = tree.collapse(-7.0, &Reals);
    for x in [0.0f32, 1.0, 2.5, 1.0e6] {
        assert_eq!(tree.collapse(x, &Reals), first);
    }
}

#[test]
fn retuning_stays_within_the_bounds() {
    let mut rng = StdRng::seed_from_u64(29);
    for _ in 0..2000 {
        let start: f32 = rng.gen_range(MIN_NUMBER_NODE, MAX_NUMBER_NODE);
        let near = symboreg::leaf::perturb(start, &mut rng, &Reals);
        assert!(near >= MIN_NUMBER_NODE && near <= MAX_NUMBER_NODE);
    }
    // beyond the upper bound by 3: thrown back by 3.6, to 14.4 at most
    let mut low = 0;
    for _ in 0..200 {
        let near = symboreg::leaf::perturb(15.0, &mut rng, &Reals);
        assert!(near >= -15.0 && near <= 15.0);
        if near < 14.0 {
            low += 1;
        }
    }
    assert!(low > 0);
    for _ in 0..200 {
        let number = symboreg::leaf::constant(&mut rng, &Reals);
        assert!(number >= -7.5 && number < 7.5);
    }
}

#[test]
fn operator_numbers() {
    assert_eq!(symboreg::random::operator::<f32>(0), Node::Add);
    assert_eq!(symboreg::random::operator::<f32>(1), Node::Subtract);
    assert_eq!(symboreg::random::operator::<f32>(2), Node::Multiply);
    assert_eq!(symboreg::random::operator::<f32>(3), Node::Divide);
    assert_eq!(symboreg::random::operator::<f32>(4), Node::Sine);
    assert_eq!(symboreg::random::operator::<f32>(5), Node::Cosine);
    let mut rng = StdRng::seed_from_u64(27);
    let mut seen = [false; 6];
    for _ in 0..200 {
        let node = symboreg::get_op::<f32>(&mut rng).unwrap();
        for number in 0..6 {
            if node == symboreg::random::operator::<f32>(number) {
                seen[number] = true;
            }
        }
    }
    assert!(seen.iter().all(|&s| s));
    let mut variables = 0;
    for _ in 0..200 {
        match symboreg::get_val(&mut rng, &Reals).unwrap() {
            Node::Variable => variables += 1,
            Node::Number(n) => assert!(n >= -7.5 && n < 7.5),
            other => panic!("a terminal was due, not {:?}", other),
        }
    }
    assert!(variables > 50 && variables < 150);
}

#[test]
fn pool_gives_each_member_once() {
    let mut rng = StdRng::seed_from_u64(28);
    let mut pool: Vec<usize> = vec![3, 5, 8, 13];
    let mut taken: Vec<usize> = Vec::new();
    while !pool.is_empty() {
        taken.push(symboreg::random::pick_out(&mut pool, &mut rng));
    }
    taken.sort();
    assert_eq!(taken, vec![3, 5, 8, 13]);
    let mut pool: Vec<usize> = vec![3, 5, 8, 13];
    assert_eq!(symboreg::random::take_at(&mut pool, 1), 5);
    assert_eq!(pool, vec![3, 13, 8]);
}
