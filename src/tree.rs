//! Game trees: layers of node values, built bottom-up by backward induction.
use vstd::prelude::*;
use vstd::arithmetic::power::pow as pow_spec;
use rand::rngs::StdRng;
use crate::random::uniform_in;

verus! {

/// Smallest value a generated leaf can take.
pub const LEAF_MIN: i32 = 100;

/// Generated leaf values lie below this bound.
pub const LEAF_MAX: i32 = 1000;

/// Deepest tree that can be generated: its leaf count must fit in a `u32`.
pub const MAX_DEPTH: u32 = 32;

/// A configuration that no tree can be built from.
#[derive(Debug, Clone, Copy, PartialEq, Eq, Structural)]
pub enum ConfigError {
    /// A depth of zero: the tree would have no leaves.
    ZeroDepth,
    /// A depth beyond `MAX_DEPTH`.
    TooDeep,
    /// A leaf count that is not a power of two.
    LeafCount,
}

/// Whether the mover at `layer` is the maximizer, given who moves at the root.
pub open spec fn is_max_layer(layer: int, root_maximizes: bool) -> bool {
    (layer % 2 == 0) == root_maximizes
}

/// The value of a node whose children are worth `x` and `y`.
pub open spec fn combine_spec(is_max: bool, x: int, y: int) -> int {
    if is_max {
        if x >= y { x } else { y }
    } else {
        if x <= y { x } else { y }
    }
}

/// Number of nodes in `layer` of a complete binary tree: one at the root,
/// twice as many in each layer below.
pub open spec fn layer_width(layer: nat) -> nat
    decreases layer,
{
    if layer == 0 { 1 } else { 2 * layer_width((layer - 1) as nat) }
}

/// `n` is the width of some layer, that is, a power of two.
pub open spec fn is_layer_width(n: nat) -> bool {
    exists|k: nat| layer_width(k) == n
}

/// The layers of a tree as plain sequences of values.
pub open spec fn layers_view(t: Seq<Vec<i32>>) -> Seq<Seq<i32>> {
    t.map_values(|v: Vec<i32>| v@)
}

/// Layer `l` of `t` has `2^l` nodes, and there is at least one layer.
pub open spec fn has_shape(t: Seq<Seq<i32>>) -> bool {
    &&& t.len() >= 1
    &&& forall|l: int| 0 <= l < t.len() ==> (#[trigger] t[l]).len() == layer_width(l as nat)
}

/// Node `(l, b)` holds the max or min (per the mover at `l`) of its two children.
pub open spec fn node_consistent(t: Seq<Seq<i32>>, root_maximizes: bool, l: int, b: int) -> bool {
    t[l][b] == combine_spec(is_max_layer(l, root_maximizes), t[l + 1][2 * b] as int, t[l + 1][2 * b + 1] as int)
}

/// Every internal node is the combination of its children.
pub open spec fn backward_induced(t: Seq<Seq<i32>>, root_maximizes: bool) -> bool {
    forall|l: int, b: int|
        0 <= l < t.len() - 1 && 0 <= b < t[l].len() ==> #[trigger] node_consistent(t, root_maximizes, l, b)
}

/// A complete binary tree whose internal nodes hold their minimax values.
pub open spec fn is_game_tree(t: Seq<Seq<i32>>, root_maximizes: bool) -> bool {
    has_shape(t) && backward_induced(t, root_maximizes)
}

/// Every layer has a node.
pub proof fn lemma_width_positive(l: nat)
    ensures
        layer_width(l) >= 1,
    decreases l,
{
    if l > 0 {
        lemma_width_positive((l - 1) as nat);
    }
}

/// Deeper layers are wider.
pub proof fn lemma_width_strictly_increases(a: nat, b: nat)
    requires
        a < b,
    ensures
        layer_width(a) < layer_width(b),
    decreases b,
{
    lemma_width_positive(a);
    if a < b - 1 {
        lemma_width_strictly_increases(a, (b - 1) as nat);
    }
}

/// No layer is wider than layer `k` and narrower than layer `k + 1`.
pub proof fn lemma_no_width_between(k: nat, n: nat)
    requires
        layer_width(k) < n < layer_width(k + 1),
    ensures
        !is_layer_width(n),
{
    assert forall|j: nat| layer_width(j) != n by {
        if j < k {
            lemma_width_strictly_increases(j, k);
        } else if j > k + 1 {
            lemma_width_strictly_increases(k + 1, j);
        }
    }
}

/// Layer `l` has more than `l` nodes.
pub proof fn lemma_width_exceeds(l: nat)
    ensures
        layer_width(l) > l,
    decreases l,
{
    if l > 0 {
        lemma_width_exceeds((l - 1) as nat);
    }
}

/// Every layer of a tree of at most `MAX_DEPTH` layers has at most `2^31` nodes.
pub proof fn lemma_width_bound(l: nat)
    requires
        l < MAX_DEPTH,
    ensures
        layer_width(l) <= 0x8000_0000,
{
    reveal_with_fuel(layer_width, 32);
    if l < 31 {
        lemma_width_strictly_increases(l, 31);
    }
}

/// The leaf layer of a tree fixes its number of layers.
pub proof fn lemma_depth_of_leaves(t: Seq<Seq<i32>>, root_maximizes: bool, k: nat)
    requires
        is_game_tree(t, root_maximizes),
        t.last().len() == layer_width(k),
    ensures
        t.len() == k + 1,
{
    let last = (t.len() - 1) as nat;
    assert(t[last as int].len() == layer_width(last));
    if last < k {
        lemma_width_strictly_increases(last, k);
    } else if last > k {
        lemma_width_strictly_increases(k, last);
    }
}

/// Layer `l` has `2^l` nodes.
pub proof fn lemma_width_is_pow(l: nat)
    ensures
        layer_width(l) == pow_spec(2, l),
    decreases l,
{
    reveal(pow_spec);
    if l > 0 {
        lemma_width_is_pow((l - 1) as nat);
    }
}

/// The value of a node whose children are worth `x` and `y`, for a mover who
/// maximizes when `is_max` holds and minimizes otherwise.
pub fn combine(is_max: bool, x: i32, y: i32) -> (r: i32)
    ensures
        r == combine_spec(is_max, x as int, y as int),
{
    if is_max {
        if x >= y { x } else { y }
    } else {
        if x <= y { x } else { y }
    }
}

/// `base` raised to `power`.
pub fn pow(base: u32, power: u32) -> (r: u32)
    requires
        pow_spec(base as int, power as nat) <= u32::MAX,
    ensures
        r == pow_spec(base as int, power as nat),
{
    let mut result: u32 = 1;
    let mut i: u32 = 0;
    proof {
        reveal(pow_spec);
    }
    while i < power
        invariant
            i <= power,
            result == pow_spec(base as int, i as nat),
            pow_spec(base as int, power as nat) <= u32::MAX,
        decreases power - i,
    {
        proof {
            reveal(pow_spec);
            if base > 0 {
                vstd::arithmetic::power::lemma_pow_increases(base as nat, (i + 1) as nat, power as nat);
            }
            assert(pow_spec(base as int, (i + 1) as nat) == base * pow_spec(base as int, i as nat));
        }
        result = result * base;
        i = i + 1;
    }
    result
}

} // verus!

verus! {

/// The layer above `below`: each node combines one adjacent pair of `below`.
pub fn combine_layer(below: &Vec<i32>, is_max: bool) -> (above: Vec<i32>)
    requires
        below.len() % 2 == 0,
    ensures
        above.len() * 2 == below.len(),
        forall|b: int|
            0 <= b < above.len() ==> #[trigger] above[b] == combine_spec(
                is_max,
                below[2 * b] as int,
                below[2 * b + 1] as int,
            ),
{
    let half = below.len() / 2;
    let mut above: Vec<i32> = Vec::new();
    let mut i: usize = 0;
    while i < half
        invariant
            i <= half,
            half * 2 == below.len(),
            above.len() == i,
            forall|b: int|
                0 <= b < i ==> #[trigger] above[b] == combine_spec(
                    is_max,
                    below[2 * b] as int,
                    below[2 * b + 1] as int,
                ),
        decreases half - i,
    {
        above.push(combine(is_max, below[2 * i], below[2 * i + 1]));
        i = i + 1;
    }
    above
}

/// Grows a tree that holds only its leaf layer into the full game tree, adding
/// the layers above the leaves up to the root by backward induction.
pub fn expand_tree(tree: &mut Vec<Vec<i32>>, root_maximizes: bool)
    requires
        old(tree).len() == 1,
        is_layer_width(old(tree)[0].len() as nat),
    ensures
        is_game_tree(layers_view(final(tree)@), root_maximizes),
        layers_view(final(tree)@).last() == old(tree)[0]@,
{
    let ghost k0: nat = choose|k: nat| layer_width(k) == old(tree)[0].len();
    let leaves = tree.pop().unwrap();
    // the number of layers above the leaves
    let mut k: usize = 0;
    let mut w: usize = leaves.len();
    proof {
        lemma_width_exceeds(k0);
    }
    while w > 1
        invariant
            k <= k0 < leaves.len(),
            w == layer_width((k0 - k) as nat),
        decreases w,
    {
        proof {
            if k0 - k == 0 {
                assert(layer_width(0) == 1);
            }
        }
        w = w / 2;
        k = k + 1;
    }
    proof {
        lemma_width_positive(k0);
        if k < k0 {
            lemma_width_strictly_increases(0, (k0 - k) as nat);
        }
    }
    assert(k == k0);
    let mut rising: Vec<Vec<i32>> = Vec::new();
    rising.push(leaves);
    let mut built: usize = 0;
    while built < k
        invariant
            built <= k,
            k == k0,
            layer_width(k0) == rising[0].len(),
            rising.len() == built + 1,
            forall|i: int| 0 <= i <= built ==> (#[trigger] rising[i]).len() == layer_width((k - i) as nat),
            forall|i: int, b: int|
                0 <= i < built && 0 <= b < layer_width((k - i - 1) as nat) ==> #[trigger] rising[i + 1]@[b]
                    == combine_spec(
                    is_max_layer(k - i - 1, root_maximizes),
                    rising[i]@[2 * b] as int,
                    rising[i]@[2 * b + 1] as int,
                ),
            old(tree).len() == 1,
            rising[0]@ == old(tree)[0]@,
        decreases k - built,
    {
        let is_max = ((k - 1 - built) % 2 == 0) == root_maximizes;
        assert(rising[built as int].len() % 2 == 0);
        let above = combine_layer(&rising[built], is_max);
        rising.push(above);
        built = built + 1;
    }
    let ghost grown = rising@;
    while rising.len() > 0
        invariant
            tree.len() + rising.len() == k + 1,
            grown.len() == k + 1,
            rising@ == grown.subrange(0, rising.len() as int),
            forall|i: int| 0 <= i < tree.len() ==> #[trigger] tree[i]@ == grown[k - i]@,
        decreases rising.len(),
    {
        let layer = rising.pop().unwrap();
        assert(rising@ =~= grown.subrange(0, rising.len() as int));
        tree.push(layer);
    }
    let ghost t = layers_view(tree@);
    assert forall|l: int| 0 <= l < t.len() implies (#[trigger] t[l]).len() == layer_width(l as nat) by {
        assert(t[l] == grown[k - l]@);
    }
    assert forall|l: int, b: int|
        0 <= l < t.len() - 1 && 0 <= b < t[l].len() implies #[trigger] node_consistent(
        t,
        root_maximizes,
        l,
        b,
    ) by {
        let i = k - l - 1;
        assert(t[l] == grown[i + 1]@);
        assert(t[l + 1] == grown[i]@);
        assert(grown[i + 1]@[b] == combine_spec(
            is_max_layer(k - i - 1, root_maximizes),
            grown[i]@[2 * b] as int,
            grown[i]@[2 * b + 1] as int,
        ));
    }
    assert(t.last() == grown[0]@);
}

} // verus!

verus! {

/// A complete binary tree of game values. Layer 0 is the root, the last layer
/// holds the leaves, and node `(l, b)` has children `(l + 1, 2b)` and
/// `(l + 1, 2b + 1)`. Once built, a tree does not change.
pub struct Tree {
    layers: Vec<Vec<i32>>,
    root_maximizes: bool,
}

impl View for Tree {
    type V = Seq<Seq<i32>>;

    closed spec fn view(&self) -> Seq<Seq<i32>> {
        layers_view(self.layers@)
    }
}

impl Tree {
    /// Whether the player who moves at the root is the maximizer.
    pub closed spec fn maximizer_at_root(&self) -> bool {
        self.root_maximizes
    }

    /// Every node above the leaves holds its minimax value.
    pub open spec fn wf(&self) -> bool {
        is_game_tree(self@, self.maximizer_at_root())
    }

    /// The game tree over the given leaves; their number must be a power of two.
    pub fn from_leaves(leaves: Vec<i32>, root_maximizes: bool) -> (r: Result<Tree, ConfigError>)
        ensures
            r is Ok <==> is_layer_width(leaves@.len()),
            r matches Ok(t) ==> {
                &&& t.wf()
                &&& t.maximizer_at_root() == root_maximizes
                &&& t@.last() == leaves@
            },
            r matches Err(e) ==> e == ConfigError::LeafCount,
    {
        let n = leaves.len();
        if n == 0 {
            proof {
                if is_layer_width(0) {
                    let k = choose|k: nat| layer_width(k) == 0;
                    lemma_width_positive(k);
                }
            }
            return Err(ConfigError::LeafCount);
        }
        let mut w: usize = 1;
        let ghost mut k: nat = 0;
        while w < n
            invariant
                n == leaves.len(),
                1 <= w <= n,
                w == layer_width(k),
            decreases n - w,
        {
            if w > n / 2 {
                proof {
                    assert(layer_width(k + 1) == 2 * w);
                    lemma_no_width_between(k, n as nat);
                }
                return Err(ConfigError::LeafCount);
            }
            w = w * 2;
            proof {
                k = k + 1;
            }
        }
        assert(layer_width(k) == n as nat);
        let mut layers: Vec<Vec<i32>> = Vec::new();
        layers.push(leaves);
        expand_tree(&mut layers, root_maximizes);
        Ok(Tree { layers, root_maximizes })
    }

    /// The tree's layers and their nodes can be counted in a `usize`.
    pub proof fn lemma_sizes_fit(&self)
        ensures
            self@.len() <= usize::MAX,
            forall|l: int| 0 <= l < self@.len() ==> #[trigger] self@[l].len() <= usize::MAX,
    {
        assert forall|l: int| 0 <= l < self@.len() implies #[trigger] self@[l].len() <= usize::MAX by {
            assert(self@[l] == self.layers@[l]@);
            assert(self.layers@[l].len() == self.layers@[l]@.len());
        }
        assert(self.layers.len() == self@.len());
    }

    /// Number of layers, the root's and the leaves' included.
    pub fn depth(&self) -> (r: usize)
        ensures
            r == self@.len(),
    {
        self.layers.len()
    }

    /// Number of nodes in `layer`.
    pub fn width(&self, layer: usize) -> (r: usize)
        requires
            layer < self@.len(),
        ensures
            r == self@[layer as int].len(),
    {
        self.layers[layer].len()
    }

    /// The value of node `(layer, branch)`.
    pub fn value(&self, layer: usize, branch: usize) -> (r: i32)
        requires
            layer < self@.len(),
            branch < self@[layer as int].len(),
        ensures
            r == self@[layer as int][branch as int],
    {
        self.layers[layer][branch]
    }

    /// All layers, the root's first.
    pub fn layers(&self) -> (r: &Vec<Vec<i32>>)
        ensures
            layers_view(r@) == self@,
    {
        &self.layers
    }

    /// Whether the player who moves at the root is the maximizer.
    pub fn root_maximizes(&self) -> (r: bool)
        ensures
            r == self.maximizer_at_root(),
    {
        self.root_maximizes
    }
}

/// A game tree of `depth` layers whose leaves are drawn uniformly from
/// `[LEAF_MIN, LEAF_MAX)` by `rng`.
pub fn generate_tree(depth: u32, root_maximizes: bool, rng: &mut StdRng) -> (r: Result<Tree, ConfigError>)
    ensures
        depth == 0 ==> r == Err::<Tree, ConfigError>(ConfigError::ZeroDepth),
        depth > MAX_DEPTH ==> r == Err::<Tree, ConfigError>(ConfigError::TooDeep),
        1 <= depth <= MAX_DEPTH ==> r is Ok,
        r matches Ok(t) ==> {
            &&& t.wf()
            &&& t.maximizer_at_root() == root_maximizes
            &&& t@.len() == depth
            &&& forall|b: int|
                0 <= b < t@.last().len() ==> LEAF_MIN <= #[trigger] t@.last()[b] < LEAF_MAX
        },
{
    if depth == 0 {
        return Err(ConfigError::ZeroDepth);
    }
    if depth > MAX_DEPTH {
        return Err(ConfigError::TooDeep);
    }
    proof {
        lemma_width_is_pow((depth - 1) as nat);
        lemma_width_bound((depth - 1) as nat);
    }
    let leaf_count = pow(2, depth - 1);
    let mut leaves: Vec<i32> = Vec::new();
    let mut i: u32 = 0;
    while i < leaf_count
        invariant
            i <= leaf_count,
            leaves.len() == i,
            forall|b: int| 0 <= b < i ==> LEAF_MIN <= #[trigger] leaves[b] < LEAF_MAX,
        decreases leaf_count - i,
    {
        leaves.push(uniform_in(rng, LEAF_MIN, LEAF_MAX));
        i = i + 1;
    }
    assert(layer_width((depth - 1) as nat) == leaves.len());
    let ghost drawn = leaves@;
    let mut layers: Vec<Vec<i32>> = Vec::new();
    layers.push(leaves);
    expand_tree(&mut layers, root_maximizes);
    let t = Tree { layers, root_maximizes };
    proof {
        lemma_depth_of_leaves(t@, root_maximizes, (depth - 1) as nat);
    }
    Ok(t)
}

} // verus!

verus! {

/// The minimax value of node `(l, b)` of a tree whose leaf layer, layer `k`,
/// holds `leaves`, computed by searching down to the leaves.
pub open spec fn minimax(leaves: Seq<i32>, root_maximizes: bool, k: nat, l: nat, b: int) -> int
    decreases k - l,
{
    if l >= k {
        leaves[b] as int
    } else {
        combine_spec(
            is_max_layer(l as int, root_maximizes),
            minimax(leaves, root_maximizes, k, l + 1, 2 * b),
            minimax(leaves, root_maximizes, k, l + 1, 2 * b + 1),
        )
    }
}

/// Every node of a game tree holds the value that a full minimax search from
/// it down to the leaves finds.
pub proof fn lemma_node_is_minimax(t: Seq<Seq<i32>>, root_maximizes: bool, l: nat, b: int)
    requires
        is_game_tree(t, root_maximizes),
        l < t.len(),
        0 <= b < t[l as int].len(),
    ensures
        t[l as int][b] == minimax(t.last(), root_maximizes, (t.len() - 1) as nat, l, b),
    decreases t.len() - l,
{
    let k = (t.len() - 1) as nat;
    if l < k {
        assert(node_consistent(t, root_maximizes, l as int, b));
        assert(t[l as int].len() == layer_width(l));
        assert(t[l + 1 as int].len() == layer_width(l + 1));
        lemma_node_is_minimax(t, root_maximizes, l + 1, 2 * b);
        lemma_node_is_minimax(t, root_maximizes, l + 1, 2 * b + 1);
    }
}

/// A game tree is determined by its leaves and by who moves at the root: two
/// trees built from the same leaves with the same mover at the root are equal.
pub proof fn lemma_determined_by_leaves(t1: Seq<Seq<i32>>, t2: Seq<Seq<i32>>, root_maximizes: bool)
    requires
        is_game_tree(t1, root_maximizes),
        is_game_tree(t2, root_maximizes),
        t1.last() == t2.last(),
    ensures
        t1 == t2,
{
    let k = (t1.len() - 1) as nat;
    assert(t1[k as int].len() == layer_width(k));
    lemma_depth_of_leaves(t2, root_maximizes, k);
    assert forall|l: int| 0 <= l < t1.len() implies #[trigger] t1[l] == t2[l] by {
        assert(t1[l].len() == layer_width(l as nat));
        assert(t2[l].len() == layer_width(l as nat));
        assert forall|b: int| 0 <= b < t1[l].len() implies t1[l][b] == t2[l][b] by {
            lemma_node_is_minimax(t1, root_maximizes, l as nat, b);
            lemma_node_is_minimax(t2, root_maximizes, l as nat, b);
        }
        assert(t1[l] =~= t2[l]);
    }
    assert(t1 =~= t2);
}

} // verus!
