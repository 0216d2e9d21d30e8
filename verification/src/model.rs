//! Mathematical model of the voxel tree: ghost nodes, octant paths, and the
//! effect of each operation on the model.

use vstd::arithmetic::div_mod::{
    lemma_fundamental_div_mod, lemma_fundamental_div_mod_converse_div,
    lemma_fundamental_div_mod_converse_mod, lemma_mod_division_less_than_divisor,
    lemma_mod_multiples_vanish,
};
use vstd::arithmetic::power2::{
    lemma2_to64, lemma2_to64_rest, lemma_pow2_adds, lemma_pow2_pos,
    lemma_pow2_strictly_increases, pow2,
};
use vstd::prelude::*;

use crate::voxel_bounds::VoxelBounds;

verus! {

/// Ghost image of one tree node: either empty space, a terminal value, or a
/// full set of eight children (one per octant).
pub enum Node<T> {
    Empty,
    Leaf(T),
    Branch(Seq<Node<T>>),
}

/// Ghost image of a whole tree: the covered cube is
/// `[-2^lg, 2^lg)` on each axis, and the root is always a full set of eight
/// children.
pub struct TreeModel<T> {
    pub lg: int,
    pub root: Seq<Node<T>>,
}

/// Eight empty children.
pub open spec fn empty8<T>() -> Seq<Node<T>> {
    Seq::new(8, |i: int| Node::Empty)
}

/// A branch always carries exactly eight children, recursively.
pub open spec fn wf_node<T>(n: Node<T>) -> bool
    decreases n,
{
    match n {
        Node::Branch(cs) => cs.len() == 8 && (forall|i: int|
            0 <= i < 8 ==> wf_node(#[trigger] cs[i])),
        _ => true,
    }
}

pub open spec fn wf8<T>(ns: Seq<Node<T>>) -> bool {
    ns.len() == 8 && (forall|i: int| 0 <= i < 8 ==> wf_node(#[trigger] ns[i]))
}

/// The children of a node, where anything that is not a branch counts as
/// eight empty slots.
pub open spec fn children_of<T>(n: Node<T>) -> Seq<Node<T>> {
    match n {
        Node::Branch(cs) => cs,
        _ => empty8(),
    }
}

// ---------------------------------------------------------------------------
// Octant paths
// ---------------------------------------------------------------------------

/// Bit `j` of a coordinate in two's complement, expressed arithmetically:
/// flooring division by `2^j`, then parity.  For `j` at or above the
/// coordinate's width this yields the sign extension.
pub open spec fn coord_bit(x: int, j: nat) -> bool {
    (x / (pow2(j) as int)) % 2 == 1
}

/// Octant index built from one choice per axis: bit 2 selects the x half,
/// bit 1 the y half, bit 0 the z half ("high" = true).
pub open spec fn octant(bx: bool, by: bool, bz: bool) -> int {
    (if bx { 4int } else { 0int }) + (if by { 2int } else { 0int }) + (if bz { 1int } else { 0int })
}

/// The first traversal step branches only on the sign of each coordinate:
/// the covered cube is centered on the origin.
pub open spec fn sign_octant(v: VoxelBounds) -> int {
    octant(v.x >= 0, v.y >= 0, v.z >= 0)
}

/// Every deeper step tests one bit of each coordinate.
pub open spec fn bit_octant(v: VoxelBounds, j: nat) -> int {
    octant(coord_bit(v.x as int, j), coord_bit(v.y as int, j), coord_bit(v.z as int, j))
}

/// The sequence of octant choices that addresses `v` in a tree of size
/// exponent `lg`: the sign step, then one step per coordinate bit from
/// `lg - 1 - v.lg_size` down to 0.
pub open spec fn path_of(lg: int, v: VoxelBounds) -> Seq<int> {
    let e = lg - 1 - v.lg_size;
    if e >= 0 {
        seq![sign_octant(v)] + Seq::new((e + 1) as nat, |i: int| bit_octant(v, (e - i) as nat))
    } else {
        seq![sign_octant(v)]
    }
}

/// Every entry of an octant path is a valid child index.
pub open spec fn path_ok(p: Seq<int>) -> bool {
    forall|i: int| 0 <= i < p.len() ==> 0 <= #[trigger] p[i] < 8
}

// ---------------------------------------------------------------------------
// Containment
// ---------------------------------------------------------------------------

/// Whether `v` lies within the cube `[-2^lg, 2^lg)` once scales are aligned:
/// strictly inside `(-h, h)` with `h = 2^(lg - v.lg_size)`, per axis.
/// Sub-unit bounds (negative `lg_size`) are always considered containable,
/// since they can be reached by descending deeper.
pub open spec fn contains_spec(lg: int, v: VoxelBounds) -> bool {
    ||| v.lg_size < 0
    ||| {
        &&& v.lg_size <= lg
        &&& -(pow2((lg - v.lg_size) as nat) as int) < v.x < pow2((lg - v.lg_size) as nat) as int
        &&& -(pow2((lg - v.lg_size) as nat) as int) < v.y < pow2((lg - v.lg_size) as nat) as int
        &&& -(pow2((lg - v.lg_size) as nat) as int) < v.z < pow2((lg - v.lg_size) as nat) as int
    }
}

/// The coordinates of `v` genuinely lie within `[-h, h)` for
/// `h = 2^(lg - v.lg_size)`.  For non-negative `lg_size` this follows from
/// `contains_spec`; for sub-unit bounds it rules out coordinates that only
/// alias a position inside the covered cube.
pub open spec fn within_range(lg: int, v: VoxelBounds) -> bool {
    &&& v.lg_size <= lg
    &&& -(pow2((lg - v.lg_size) as nat) as int) <= v.x < pow2((lg - v.lg_size) as nat) as int
    &&& -(pow2((lg - v.lg_size) as nat) as int) <= v.y < pow2((lg - v.lg_size) as nat) as int
    &&& -(pow2((lg - v.lg_size) as nat) as int) <= v.z < pow2((lg - v.lg_size) as nat) as int
}

/// The largest size exponent a tree ever takes; beyond it the 32-bit
/// coordinate comparisons of the containment check would overflow.
pub open spec fn max_lg() -> int {
    30
}

/// A voxel the tree can grow to hold without passing `max_lg`.
pub open spec fn fits(v: VoxelBounds) -> bool {
    contains_spec(max_lg(), v)
}

/// The size exponent the tree has after growing just enough to hold `v`.
pub open spec fn grow_lg(lg: int, v: VoxelBounds) -> int
    decreases max_lg() - lg,
{
    if lg >= max_lg() || contains_spec(lg, v) {
        lg
    } else {
        grow_lg(lg + 1, v)
    }
}

// ---------------------------------------------------------------------------
// Lookup and insertion on the model
// ---------------------------------------------------------------------------

/// Follows a path down a node: empty path addresses the node itself; a
/// non-branch encountered before the end of the path blocks the walk, which
/// then yields empty.
pub open spec fn lookup_node<T>(n: Node<T>, p: Seq<int>) -> Node<T>
    decreases p.len(),
{
    if p.len() == 0 {
        n
    } else {
        match n {
            Node::Branch(cs) => lookup_node(cs[p[0]], p.skip(1)),
            _ => Node::Empty,
        }
    }
}

/// Rewrites the node addressed by `p` to `nv`, replacing every non-branch
/// node along the way with a fresh set of eight empty children (which
/// discards whatever was stored there).
pub open spec fn carve_node<T>(n: Node<T>, p: Seq<int>, nv: Node<T>) -> Node<T>
    decreases p.len(),
{
    if p.len() == 0 {
        nv
    } else {
        let cs = children_of(n);
        Node::Branch(cs.update(p[0], carve_node(cs[p[0]], p.skip(1), nv)))
    }
}

/// `carve_node` on a root that is forced to stay a full set of children.
pub open spec fn carve8<T>(ns: Seq<Node<T>>, p: Seq<int>, nv: Node<T>) -> Seq<Node<T>> {
    children_of(carve_node(Node::Branch(ns), p, nv))
}

/// One doubling of the covered cube: each old root child moves into the
/// diagonally opposite slot (octant code `7 - i`) of a fresh branch that
/// becomes the new root child `i`.
pub open spec fn grow_once<T>(ns: Seq<Node<T>>) -> Seq<Node<T>> {
    Seq::new(8, |i: int| Node::Branch(empty8::<T>().update(7 - i, ns[i])))
}

/// `k` successive doublings.
pub open spec fn grow_iter<T>(ns: Seq<Node<T>>, k: nat) -> Seq<Node<T>>
    decreases k,
{
    if k == 0 {
        ns
    } else {
        grow_once(grow_iter(ns, (k - 1) as nat))
    }
}

/// The model of a tree after it has grown just enough to hold `v`.
pub open spec fn grow_model<T>(m: TreeModel<T>, v: VoxelBounds) -> TreeModel<T> {
    TreeModel {
        lg: grow_lg(m.lg, v),
        root: grow_iter(m.root, (grow_lg(m.lg, v) - m.lg) as nat),
    }
}

/// The model of a tree after the node addressed by `v` has been set to `nv`:
/// grow to hold `v`, then carve the path to `v`.
pub open spec fn insert_model<T>(m: TreeModel<T>, v: VoxelBounds, nv: Node<T>) -> TreeModel<T> {
    let g = grow_model(m, v);
    TreeModel { lg: g.lg, root: carve8(g.root, path_of(g.lg, v), nv) }
}

/// What a lookup of `v` observes: the stored value if the walk stays inside
/// branches the whole way down and ends exactly on a leaf.
pub open spec fn tree_get<T>(m: TreeModel<T>, v: VoxelBounds) -> Option<T> {
    if !contains_spec(m.lg, v) {
        None
    } else {
        match lookup_node(Node::Branch(m.root), path_of(m.lg, v)) {
            Node::Leaf(t) => Some(t),
            _ => None,
        }
    }
}

/// The model of a freshly created tree.
pub open spec fn empty_model<T>() -> TreeModel<T> {
    TreeModel { lg: 0, root: empty8() }
}

// ---------------------------------------------------------------------------
// Facts about coordinate bits and paths
// ---------------------------------------------------------------------------

/// A machine path (octant codes as bytes) as a mathematical path.
pub open spec fn to_path(s: Seq<u8>) -> Seq<int> {
    Seq::new(s.len(), |i: int| s[i] as int)
}

/// At or above the coordinate's width, `coord_bit` is the sign bit.
pub proof fn lemma_coord_bit_sign(x: int, j: nat)
    requires
        -0x8000_0000 <= x < 0x8000_0000,
        j >= 31,
    ensures
        coord_bit(x, j) == (x < 0),
{
    lemma_pow2_pos(j);
    let d = pow2(j) as int;
    lemma2_to64();
    lemma2_to64_rest();
    if j > 31 {
        lemma_pow2_strictly_increases(31, j);
    }
    assert(d >= 0x8000_0000);
    if x >= 0 {
        lemma_fundamental_div_mod_converse_div(x, d, 0, x);
        assert(x / d == 0);
    } else {
        lemma_fundamental_div_mod_converse_div(x, d, -1, x + d);
        assert(x / d == -1);
        assert((-1int) % 2 == 1);
    }
}

/// Below the coordinate's width, `coord_bit` agrees with the same bit of the
/// non-negative offset value `x + 2^31`.
pub proof fn lemma_coord_bit_offset(x: int, j: nat)
    requires
        j <= 30,
    ensures
        coord_bit(x, j) == (((x + 0x8000_0000) / (pow2(j) as int)) % 2 == 1),
{
    lemma_pow2_pos(j);
    let d = pow2(j) as int;
    let q = x / d;
    let r = x % d;
    lemma_fundamental_div_mod(x, d);
    lemma_mod_division_less_than_divisor(x, d);
    lemma_pow2_adds(j, (31 - j) as nat);
    let m = pow2((31 - j) as nat) as int;
    lemma_pow2_pos((31 - j) as nat);
    lemma2_to64();
    lemma2_to64_rest();
    assert(d * m == 0x8000_0000);
    assert(x + 0x8000_0000 == d * (q + m) + r) by (nonlinear_arith)
        requires
            x == d * q + r,
            d * m == 0x8000_0000,
    ;
    lemma_fundamental_div_mod_converse_div(x + 0x8000_0000, d, q + m, r);
    assert((x + 0x8000_0000) / d == q + m);
    lemma_pow2_adds(1, (30 - j) as nat);
    assert(m == 2 * pow2((30 - j) as nat));
    lemma_mod_multiples_vanish(pow2((30 - j) as nat) as int, q, 2);
    assert((q + m) % 2 == q % 2);
}

/// Every entry of an octant path is a valid child index.
pub proof fn lemma_path_ok(lg: int, v: VoxelBounds)
    ensures
        path_ok(path_of(lg, v)),
        path_of(lg, v).len() >= 1,
{
    let p = path_of(lg, v);
    assert forall|i: int| 0 <= i < p.len() implies 0 <= #[trigger] p[i] < 8 by {
        if i == 0 {
            assert(p[i] == sign_octant(v));
        } else {
            let e = lg - 1 - v.lg_size;
            assert(p[i] == bit_octant(v, (e - (i - 1)) as nat));
        }
    }
}

/// No leaf anywhere in the node: lookups can observe nothing in it.
pub open spec fn leaf_free<T>(n: Node<T>) -> bool
    decreases n,
{
    match n {
        Node::Empty => true,
        Node::Leaf(t) => false,
        Node::Branch(cs) => forall|i: int| 0 <= i < cs.len() ==> leaf_free(#[trigger] cs[i]),
    }
}

/// Well-formedness survives a doubling.
pub proof fn lemma_grow_once_wf<T>(ns: Seq<Node<T>>)
    requires
        wf8(ns),
    ensures
        wf8(grow_once(ns)),
{
    let g = grow_once(ns);
    assert forall|i: int| 0 <= i < 8 implies wf_node(#[trigger] g[i]) by {
        let inner = empty8::<T>().update(7 - i, ns[i]);
        assert(forall|j: int| 0 <= j < 8 ==> wf_node(#[trigger] inner[j]));
    }
}

/// Well-formedness survives any number of doublings.
pub proof fn lemma_grow_iter_wf<T>(ns: Seq<Node<T>>, k: nat)
    requires
        wf8(ns),
    ensures
        wf8(grow_iter(ns, k)),
    decreases k,
{
    if k > 0 {
        lemma_grow_iter_wf(ns, (k - 1) as nat);
        lemma_grow_once_wf(grow_iter(ns, (k - 1) as nat));
    }
}

/// Absence of leaves survives a doubling.
pub proof fn lemma_grow_once_leaf_free<T>(ns: Seq<Node<T>>)
    requires
        ns.len() == 8,
        forall|i: int| 0 <= i < 8 ==> leaf_free(#[trigger] ns[i]),
    ensures
        forall|i: int| 0 <= i < 8 ==> leaf_free(#[trigger] grow_once(ns)[i]),
{
    let g = grow_once(ns);
    assert forall|i: int| 0 <= i < 8 implies leaf_free(#[trigger] g[i]) by {
        let inner = empty8::<T>().update(7 - i, ns[i]);
        assert(forall|j: int| 0 <= j < 8 ==> leaf_free(#[trigger] inner[j]));
    }
}

/// Absence of leaves survives any number of doublings.
pub proof fn lemma_grow_iter_leaf_free<T>(ns: Seq<Node<T>>, k: nat)
    requires
        ns.len() == 8,
        forall|i: int| 0 <= i < 8 ==> leaf_free(#[trigger] ns[i]),
    ensures
        forall|i: int| 0 <= i < 8 ==> leaf_free(#[trigger] grow_iter(ns, k)[i]),
        grow_iter(ns, k).len() == 8,
    decreases k,
{
    if k > 0 {
        lemma_grow_iter_leaf_free(ns, (k - 1) as nat);
        lemma_grow_once_leaf_free(grow_iter(ns, (k - 1) as nat));
    }
}

/// A lookup in a well-formed, leaf-free node never observes a leaf.
pub proof fn lemma_leaf_free_lookup<T>(n: Node<T>, q: Seq<int>)
    requires
        wf_node(n),
        leaf_free(n),
        path_ok(q),
    ensures
        !(lookup_node(n, q) is Leaf),
    decreases q.len(),
{
    if q.len() > 0 {
        match n {
            Node::Branch(cs) => {
                assert(leaf_free(cs[q[0]]));
                assert(wf_node(cs[q[0]]));
                assert(path_ok(q.skip(1)));
                lemma_leaf_free_lookup(cs[q[0]], q.skip(1));
            },
            _ => {},
        }
    }
}

/// Carving a non-empty path always produces a branch.
pub proof fn lemma_carve_is_branch<T>(n: Node<T>, p: Seq<int>, nv: Node<T>)
    requires
        p.len() >= 1,
    ensures
        carve_node(n, p, nv) is Branch,
{
}

/// Looking up the very path that was carved observes the carved node.
pub proof fn lemma_carve_lookup_same<T>(n: Node<T>, p: Seq<int>, nv: Node<T>)
    requires
        wf_node(n),
        path_ok(p),
    ensures
        lookup_node(carve_node(n, p, nv), p) == nv,
    decreases p.len(),
{
    if p.len() > 0 {
        let cs = children_of(n);
        assert(cs.len() == 8);
        assert(wf_node(cs[p[0]]));
        lemma_carve_lookup_same(cs[p[0]], p.skip(1), nv);
        assert(path_ok(p.skip(1)));
    }
}

/// Looking up a proper prefix of a carved path observes a branch: carving
/// turns every node strictly above the carved one into a branch.
pub proof fn lemma_carve_lookup_prefix<T>(n: Node<T>, p: Seq<int>, j: int, nv: Node<T>)
    requires
        wf_node(n),
        path_ok(p),
        1 <= j < p.len(),
    ensures
        lookup_node(carve_node(n, p, nv), p.take(j)) is Branch,
    decreases p.len(),
{
    let cs = children_of(n);
    assert(cs.len() == 8);
    let child = carve_node(cs[p[0]], p.skip(1), nv);
    assert(p.take(j)[0] == p[0]);
    if j == 1 {
        assert(p.take(1).skip(1).len() == 0);
        assert(lookup_node(carve_node(n, p, nv), p.take(1)) == cs.update(p[0], child)[p[0]]);
        lemma_carve_is_branch(cs[p[0]], p.skip(1), nv);
    } else {
        assert(wf_node(cs[p[0]]));
        assert(path_ok(p.skip(1)));
        lemma_carve_lookup_prefix(cs[p[0]], p.skip(1), j - 1, nv);
        assert(p.take(j).skip(1) =~= p.skip(1).take(j - 1));
        assert(lookup_node(carve_node(n, p, nv), p.take(j)) == lookup_node(
            child,
            p.take(j).skip(1),
        ));
    }
}

/// Looking up a strict extension of a carved path observes empty space when
/// the carved node is not itself a branch.
pub proof fn lemma_carve_lookup_extension<T>(n: Node<T>, p: Seq<int>, q: Seq<int>, nv: Node<T>)
    requires
        wf_node(n),
        path_ok(p),
        q.len() > p.len(),
        q.take(p.len() as int) == p,
        !(nv is Branch),
    ensures
        lookup_node(carve_node(n, p, nv), q) == Node::Empty::<T>,
    decreases p.len(),
{
    if p.len() == 0 {
        assert(q.len() >= 1);
    } else {
        let cs = children_of(n);
        assert(cs.len() == 8);
        let child = carve_node(cs[p[0]], p.skip(1), nv);
        assert(q[0] == q.take(p.len() as int)[0]);
        assert(q[0] == p[0]);
        assert(wf_node(cs[p[0]]));
        assert(path_ok(p.skip(1)));
        assert(q.skip(1).take(p.len() - 1) =~= p.skip(1));
        lemma_carve_lookup_extension(cs[p[0]], p.skip(1), q.skip(1), nv);
        assert(lookup_node(carve_node(n, p, nv), q) == lookup_node(child, q.skip(1)));
    }
}

/// After carving a leaf at `p`, a lookup at any other path `q` never
/// observes that leaf — or any leaf at all if the node held none before.
pub proof fn lemma_carve_lookup_leaf_free<T>(n: Node<T>, p: Seq<int>, q: Seq<int>, x: T)
    requires
        wf_node(n),
        leaf_free(n),
        path_ok(p),
        path_ok(q),
        p.len() >= 1,
        q.len() >= 1,
        q != p,
    ensures
        !(lookup_node(carve_node(n, p, Node::Leaf(x)), q) is Leaf),
    decreases p.len(),
{
    let cs = children_of(n);
    assert(cs.len() == 8);
    let nv = Node::Leaf(x);
    let child = carve_node(cs[p[0]], p.skip(1), nv);
    let carved = carve_node(n, p, nv);
    if q[0] != p[0] {
        assert(lookup_node(carved, q) == lookup_node(cs.update(p[0], child)[q[0]], q.skip(1)));
        assert(cs.update(p[0], child)[q[0]] == cs[q[0]]);
        assert(leaf_free(cs[q[0]]));
        lemma_leaf_free_lookup(cs[q[0]], q.skip(1));
    } else {
        assert(lookup_node(carved, q) == lookup_node(child, q.skip(1)));
        if p.len() == 1 {
            if q.len() == 1 {
                assert(q =~= p);
            } else {
                assert(q.skip(1).len() >= 1);
                assert(lookup_node(child, q.skip(1)) == Node::Empty::<T>);
            }
        } else {
            if q.len() == 1 {
                lemma_carve_is_branch(cs[p[0]], p.skip(1), nv);
                assert(q.skip(1).len() == 0);
            } else {
                if p.skip(1) == q.skip(1) {
                    assert(q.len() == p.len());
                    assert forall|i: int| 0 <= i < p.len() implies q[i] == p[i] by {
                        if i >= 1 {
                            assert(q.skip(1)[i - 1] == q[i]);
                            assert(p.skip(1)[i - 1] == p[i]);
                        }
                    }
                    assert(q =~= p);
                }
                assert(wf_node(cs[p[0]]));
                assert(leaf_free(cs[p[0]]));
                assert(path_ok(p.skip(1)));
                assert(path_ok(q.skip(1)));
                lemma_carve_lookup_leaf_free(cs[p[0]], p.skip(1), q.skip(1), x);
            }
        }
    }
}

/// Growing stops at a level that holds `v` and never passes `max_lg`.
pub proof fn lemma_grow_lg_contains(lg: int, v: VoxelBounds)
    requires
        lg <= max_lg(),
        fits(v),
    ensures
        lg <= grow_lg(lg, v) <= max_lg(),
        contains_spec(grow_lg(lg, v), v),
    decreases max_lg() - lg,
{
    if lg >= max_lg() || contains_spec(lg, v) {
    } else {
        lemma_grow_lg_contains(lg + 1, v);
    }
}

/// A coordinate within `[-2^j, 2^j)` has its sign as bit `j`.
pub proof fn lemma_coord_bit_range(x: int, j: nat)
    requires
        -(pow2(j) as int) <= x < pow2(j) as int,
    ensures
        coord_bit(x, j) == (x < 0),
{
    lemma_pow2_pos(j);
    let d = pow2(j) as int;
    if x >= 0 {
        lemma_fundamental_div_mod_converse_div(x, d, 0, x);
    } else {
        lemma_fundamental_div_mod_converse_div(x, d, -1, x + d);
        assert((-1int) % 2 == 1);
    }
}

/// Ranges only widen as the tree's size exponent grows.
pub proof fn lemma_within_mono(lg1: int, lg2: int, v: VoxelBounds)
    requires
        lg1 <= lg2,
        within_range(lg1, v),
    ensures
        within_range(lg2, v),
{
    lemma_pow2_pos((lg1 - v.lg_size) as nat);
    if lg1 < lg2 {
        lemma_pow2_strictly_increases((lg1 - v.lg_size) as nat, (lg2 - v.lg_size) as nat);
    }
}

/// One doubling prepends the antipode of the sign octant to the tail of the
/// path: the old content is reachable exactly one level deeper.
pub proof fn lemma_path_grow_step(lg: int, v: VoxelBounds)
    requires
        0 <= lg,
        within_range(lg, v),
    ensures
        path_of(lg + 1, v) == seq![sign_octant(v), 7 - sign_octant(v)] + path_of(lg, v).skip(1),
{
    let e = lg - 1 - v.lg_size;
    let p1 = path_of(lg + 1, v);
    let p0 = path_of(lg, v);
    let rhs = seq![sign_octant(v), 7 - sign_octant(v)] + p0.skip(1);
    assert(e >= -1);
    assert(p1.len() == e + 3);
    assert(rhs.len() == 2 + (p0.len() - 1));
    assert(p0.len() == if e >= 0 { e + 2 } else { 1int });
    lemma_coord_bit_range(v.x as int, (e + 1) as nat);
    lemma_coord_bit_range(v.y as int, (e + 1) as nat);
    lemma_coord_bit_range(v.z as int, (e + 1) as nat);
    assert(bit_octant(v, (e + 1) as nat) == octant(v.x < 0, v.y < 0, v.z < 0));
    assert(7 - sign_octant(v) == octant(v.x < 0, v.y < 0, v.z < 0));
    assert forall|i: int| 0 <= i < p1.len() implies p1[i] == rhs[i] by {
        if i == 0 {
        } else if i == 1 {
            assert(p1[1] == bit_octant(v, ((e + 1) - 0) as nat));
        } else {
            assert(p1[i] == bit_octant(v, ((e + 1) - (i - 1)) as nat));
            assert(rhs[i] == p0.skip(1)[i - 2]);
            assert(p0.skip(1)[i - 2] == p0[i - 1]);
            assert(p0[i - 1] == bit_octant(v, (e - (i - 2)) as nat));
        }
    }
    assert(p1 =~= rhs);
}

/// One doubling leaves every lookup that was in range unchanged.
pub proof fn lemma_grow_once_get<T>(ns: Seq<Node<T>>, lg: int, v: VoxelBounds)
    requires
        wf8(ns),
        0 <= lg,
        within_range(lg, v),
    ensures
        lookup_node(Node::Branch(grow_once(ns)), path_of(lg + 1, v)) == lookup_node(
            Node::Branch(ns),
            path_of(lg, v),
        ),
{
    lemma_path_grow_step(lg, v);
    lemma_path_ok(lg, v);
    lemma_path_ok(lg + 1, v);
    let s0 = sign_octant(v);
    let p1 = path_of(lg + 1, v);
    let p0 = path_of(lg, v);
    let g = grow_once(ns);
    assert(0 <= s0 < 8);
    assert(p1[0] == s0);
    let inner = empty8::<T>().update(7 - s0, ns[s0]);
    assert(g[s0] == Node::Branch(inner));
    assert(lookup_node(Node::Branch(g), p1) == lookup_node(g[s0], p1.skip(1)));
    assert(p1.skip(1)[0] == 7 - s0);
    assert(lookup_node(g[s0], p1.skip(1)) == lookup_node(inner[7 - s0], p1.skip(1).skip(1)));
    assert(inner[7 - s0] == ns[s0]);
    assert(p1.skip(1).skip(1) =~= p0.skip(1));
    assert(lookup_node(Node::Branch(ns), p0) == lookup_node(ns[p0[0]], p0.skip(1)));
    assert(p0[0] == s0);
}

/// Any number of doublings leaves every lookup that was in range unchanged.
pub proof fn lemma_grow_iter_get<T>(ns: Seq<Node<T>>, lg: int, v: VoxelBounds, k: nat)
    requires
        wf8(ns),
        0 <= lg,
        within_range(lg, v),
    ensures
        lookup_node(Node::Branch(grow_iter(ns, k)), path_of(lg + k, v)) == lookup_node(
            Node::Branch(ns),
            path_of(lg, v),
        ),
    decreases k,
{
    if k > 0 {
        lemma_grow_iter_get(ns, lg, v, (k - 1) as nat);
        lemma_grow_iter_wf(ns, (k - 1) as nat);
        lemma_within_mono(lg, lg + k - 1, v);
        lemma_grow_once_get(grow_iter(ns, (k - 1) as nat), lg + k - 1, v);
    }
}

/// Dividing twice by positive divisors is dividing by their product.
pub proof fn lemma_div_div(x: int, a: int, b: int)
    requires
        a >= 1,
        b >= 1,
    ensures
        (x / a) / b == x / (a * b),
{
    assert(a * b >= 1) by (nonlinear_arith)
        requires
            a >= 1 && b >= 1,
    ;
    let q = x / (a * b);
    let r = x % (a * b);
    lemma_fundamental_div_mod(x, a * b);
    lemma_mod_division_less_than_divisor(x, a * b);
    let q1 = r / a;
    let r1 = r % a;
    lemma_fundamental_div_mod(r, a);
    lemma_mod_division_less_than_divisor(r, a);
    assert(x == (b * q + q1) * a + r1) by (nonlinear_arith)
        requires
            x == (a * b) * q + r,
            r == a * q1 + r1,
    ;
    lemma_fundamental_div_mod_converse_div(x, a, b * q + q1, r1);
    assert(q1 < b) by (nonlinear_arith)
        requires
            a * q1 <= r,
            r < a * b,
            a >= 1,
            0 <= q1,
    ;
    assert(a * q1 <= r) by (nonlinear_arith)
        requires
            r == a * q1 + r1,
            r1 >= 0,
    ;
    lemma_fundamental_div_mod_converse_div(x / a, b, q, q1);
}

/// Flooring division by a positive divisor preserves the sign.
pub proof fn lemma_div_sign(x: int, d: int)
    requires
        d >= 1,
    ensures
        (x / d < 0) == (x < 0),
{
    lemma_fundamental_div_mod(x, d);
    lemma_mod_division_less_than_divisor(x, d);
    let q = x / d;
    let r = x % d;
    if x >= 0 && q < 0 {
        assert(d * q + r < 0) by (nonlinear_arith)
            requires
                q <= -1,
                d >= 1,
                0 <= r < d,
        ;
    }
    if x < 0 && q >= 0 {
        assert(d * q + r >= 0) by (nonlinear_arith)
            requires
                q >= 0,
                d >= 1,
                r >= 0,
        ;
    }
}

/// One bit of the quotient is a higher bit of the dividend.
pub proof fn lemma_coord_bit_shift(xf: int, xc: int, dd: nat, j: nat)
    requires
        xc == xf / (pow2(dd) as int),
    ensures
        coord_bit(xf, (j + dd) as nat) == coord_bit(xc, j),
{
    lemma_pow2_pos(dd);
    lemma_pow2_pos(j);
    lemma_pow2_adds(dd, j);
    lemma_div_div(xf, pow2(dd) as int, pow2(j) as int);
}

/// The cube `c` covers the cube `f`: on each axis, `f`'s offset falls inside
/// `c`'s span once the scales are aligned (`c`'s coordinate is the flooring
/// quotient of `f`'s by the scale ratio).
pub open spec fn covers(c: VoxelBounds, f: VoxelBounds) -> bool {
    let d = pow2((c.lg_size - f.lg_size) as nat) as int;
    &&& c.lg_size >= f.lg_size
    &&& c.x as int == f.x as int / d
    &&& c.y as int == f.y as int / d
    &&& c.z as int == f.z as int / d
}

/// The path of a covering cube is a prefix of the path of any cube it
/// covers, in any tree that can address the coarser one.
pub proof fn lemma_covers_path_prefix(lg: int, c: VoxelBounds, f: VoxelBounds)
    requires
        covers(c, f),
        c.lg_size <= lg,
    ensures
        path_of(lg, f).take(path_of(lg, c).len() as int) == path_of(lg, c),
        path_of(lg, c).len() <= path_of(lg, f).len(),
{
    let ec = lg - 1 - c.lg_size;
    let ef = lg - 1 - f.lg_size;
    let dd = (c.lg_size - f.lg_size) as nat;
    let pc = path_of(lg, c);
    let pf = path_of(lg, f);
    lemma_pow2_pos(dd);
    lemma_div_sign(f.x as int, pow2(dd) as int);
    lemma_div_sign(f.y as int, pow2(dd) as int);
    lemma_div_sign(f.z as int, pow2(dd) as int);
    assert(sign_octant(c) == sign_octant(f));
    assert(pc.len() <= pf.len());
    assert forall|i: int| 0 <= i < pc.len() implies pf[i] == pc[i] by {
        if i == 0 {
        } else {
            let j = (ec - (i - 1)) as nat;
            assert(pc[i] == bit_octant(c, j));
            assert(pf[i] == bit_octant(f, (ef - (i - 1)) as nat));
            assert((ef - (i - 1)) as nat == (j + dd) as nat);
            lemma_coord_bit_shift(f.x as int, c.x as int, dd, j);
            lemma_coord_bit_shift(f.y as int, c.y as int, dd, j);
            lemma_coord_bit_shift(f.z as int, c.z as int, dd, j);
        }
    }
    assert(pf.take(pc.len() as int) =~= pc);
}

/// One step of binary decomposition: the remainder modulo `2^(k+1)` splits
/// into bit `k` and the remainder modulo `2^k`.
proof fn lemma_mod_bit_split(x: int, k: nat)
    ensures
        x % (pow2((k + 1) as nat) as int) == (pow2(k) as int) * (
        if coord_bit(x, k) {
            1int
        } else {
            0int
        }) + x % (pow2(k) as int),
{
    let m = pow2(k) as int;
    lemma_pow2_pos(k);
    lemma_pow2_adds(k, 1);
    lemma2_to64();
    assert(pow2((k + 1) as nat) == 2 * pow2(k));
    let q = x / m;
    let r = x % m;
    lemma_fundamental_div_mod(x, m);
    lemma_mod_division_less_than_divisor(x, m);
    let b = q % 2;
    let q2 = q / 2;
    lemma_fundamental_div_mod(q, 2);
    lemma_mod_division_less_than_divisor(q, 2);
    assert(x == q2 * (2 * m) + (b * m + r)) by (nonlinear_arith)
        requires
            x == m * q + r,
            q == 2 * q2 + b,
    ;
    assert(0 <= b * m + r < 2 * m) by (nonlinear_arith)
        requires
            0 <= b <= 1,
            0 <= r < m,
            m >= 1,
    ;
    lemma_fundamental_div_mod_converse_mod(x, 2 * m, q2, b * m + r);
    assert(x % (2 * m) == b * m + r);
    assert(pow2((k + 1) as nat) as int == 2 * m);
    if coord_bit(x, k) {
        assert(b == 1);
        assert(b * m == m) by (nonlinear_arith)
            requires
                b == 1,
        ;
        assert(x % (pow2((k + 1) as nat) as int) == m * 1 + r);
    } else {
        assert(b == 0);
        assert(b * m == 0) by (nonlinear_arith)
            requires
                b == 0,
        ;
        assert(x % (pow2((k + 1) as nat) as int) == m * 0 + r);
    }
}

/// Coordinates that agree on all bits below `k` agree modulo `2^k`.
proof fn lemma_bits_to_mod(x: int, x2: int, k: nat)
    requires
        forall|j: nat| j < k ==> #[trigger] coord_bit(x, j) == coord_bit(x2, j),
    ensures
        x % (pow2(k) as int) == x2 % (pow2(k) as int),
    decreases k,
{
    if k == 0 {
        lemma2_to64();
        lemma_fundamental_div_mod(x, 1);
        lemma_mod_division_less_than_divisor(x, 1);
        lemma_fundamental_div_mod(x2, 1);
        lemma_mod_division_less_than_divisor(x2, 1);
    } else {
        lemma_bits_to_mod(x, x2, (k - 1) as nat);
        lemma_mod_bit_split(x, (k - 1) as nat);
        lemma_mod_bit_split(x2, (k - 1) as nat);
        assert(coord_bit(x, (k - 1) as nat) == coord_bit(x2, (k - 1) as nat));
    }
}

/// Two coordinates within `[-2^(e+1), 2^(e+1))` that share their sign and
/// all bits up to `e` are the same coordinate.
proof fn lemma_coord_inj(x: int, x2: int, e: nat)
    requires
        (x >= 0) == (x2 >= 0),
        forall|j: nat| j <= e ==> #[trigger] coord_bit(x, j) == coord_bit(x2, j),
        -(pow2((e + 1) as nat) as int) <= x < pow2((e + 1) as nat) as int,
        -(pow2((e + 1) as nat) as int) <= x2 < pow2((e + 1) as nat) as int,
    ensures
        x == x2,
{
    let m = pow2((e + 1) as nat) as int;
    lemma_pow2_pos((e + 1) as nat);
    assert(forall|j: nat| j < (e + 1) as nat ==> #[trigger] coord_bit(x, j) == coord_bit(x2, j));
    lemma_bits_to_mod(x, x2, (e + 1) as nat);
    if x >= 0 {
        lemma_fundamental_div_mod_converse_mod(x, m, 0, x);
        lemma_fundamental_div_mod_converse_mod(x2, m, 0, x2);
    } else {
        lemma_fundamental_div_mod_converse_mod(x, m, -1, x + m);
        lemma_fundamental_div_mod_converse_mod(x2, m, -1, x2 + m);
    }
}

/// In-range bounds are addressed injectively: equal paths mean equal bounds.
pub proof fn lemma_paths_inj(lg: int, v: VoxelBounds, w: VoxelBounds)
    requires
        within_range(lg, v),
        within_range(lg, w),
        path_of(lg, v) == path_of(lg, w),
    ensures
        v == w,
{
    let p = path_of(lg, v);
    let pw = path_of(lg, w);
    let ev = lg - 1 - v.lg_size;
    let ew = lg - 1 - w.lg_size;
    assert(p.len() == if ev >= 0 { ev + 2 } else { 1int });
    assert(pw.len() == if ew >= 0 { ew + 2 } else { 1int });
    assert(p[0] == sign_octant(v) && pw[0] == sign_octant(w));
    assert((v.x >= 0) == (w.x >= 0) && (v.y >= 0) == (w.y >= 0) && (v.z >= 0) == (w.z >= 0));
    if ev >= 0 || ew >= 0 {
        assert(ev == ew);
        assert(v.lg_size == w.lg_size);
        assert forall|j: nat| j <= ev implies #[trigger] coord_bit(v.x as int, j) == coord_bit(
            w.x as int,
            j,
        ) by {
            let i = ev + 1 - j;
            assert(p[i] == bit_octant(v, (ev - (i - 1)) as nat));
            assert(pw[i] == bit_octant(w, (ew - (i - 1)) as nat));
            assert((ev - (i - 1)) as nat == j);
        }
        assert forall|j: nat| j <= ev implies #[trigger] coord_bit(v.y as int, j) == coord_bit(
            w.y as int,
            j,
        ) by {
            let i = ev + 1 - j;
            assert(p[i] == bit_octant(v, (ev - (i - 1)) as nat));
            assert(pw[i] == bit_octant(w, (ew - (i - 1)) as nat));
            assert((ev - (i - 1)) as nat == j);
        }
        assert forall|j: nat| j <= ev implies #[trigger] coord_bit(v.z as int, j) == coord_bit(
            w.z as int,
            j,
        ) by {
            let i = ev + 1 - j;
            assert(p[i] == bit_octant(v, (ev - (i - 1)) as nat));
            assert(pw[i] == bit_octant(w, (ew - (i - 1)) as nat));
            assert((ev - (i - 1)) as nat == j);
        }
        assert((lg - v.lg_size) as nat == (ev + 1) as nat);
        lemma_coord_inj(v.x as int, w.x as int, ev as nat);
        lemma_coord_inj(v.y as int, w.y as int, ev as nat);
        lemma_coord_inj(v.z as int, w.z as int, ev as nat);
    } else {
        assert(v.lg_size == lg && w.lg_size == lg);
        lemma2_to64();
        assert(pow2((lg - v.lg_size) as nat) == 1);
        assert(v.x == w.x && v.y == w.y && v.z == w.z);
    }
}

/// Carving one path does not disturb a lookup along a path that diverges
/// from it (neither is a prefix of the other).
pub proof fn lemma_carve_lookup_diverge<T>(n: Node<T>, p: Seq<int>, q: Seq<int>, nv: Node<T>)
    requires
        wf_node(n),
        path_ok(p),
        path_ok(q),
        p.len() >= 1,
        q.len() >= 1,
        p.len() <= q.len() ==> q.take(p.len() as int) != p,
        q.len() <= p.len() ==> p.take(q.len() as int) != q,
    ensures
        lookup_node(carve_node(n, p, nv), q) == lookup_node(n, q),
    decreases p.len(),
{
    let cs = children_of(n);
    assert(cs.len() == 8);
    let child = carve_node(cs[p[0]], p.skip(1), nv);
    let carved = carve_node(n, p, nv);
    if q[0] != p[0] {
        assert(lookup_node(carved, q) == lookup_node(cs.update(p[0], child)[q[0]], q.skip(1)));
        assert(cs.update(p[0], child)[q[0]] == cs[q[0]]);
        match n {
            Node::Branch(cs0) => {},
            _ => {
                assert(cs[q[0]] == Node::Empty::<T>);
                assert(lookup_node(cs[q[0]], q.skip(1)) == Node::Empty::<T>);
            },
        }
    } else {
        if p.len() == 1 {
            assert(q.take(1) =~= p);
            assert(false);
        }
        if q.len() == 1 {
            assert(p.take(1) =~= q);
            assert(false);
        }
        let pt = p.skip(1);
        let qt = q.skip(1);
        assert(pt.len() <= qt.len() ==> qt.take(pt.len() as int) != pt) by {
            if pt.len() <= qt.len() && qt.take(pt.len() as int) == pt {
                assert forall|i: int| 0 <= i < p.len() implies q.take(p.len() as int)[i] == p[i] by {
                    if i >= 1 {
                        assert(q[i] == qt[i - 1]);
                        assert(qt.take(pt.len() as int)[i - 1] == pt[i - 1]);
                        assert(pt[i - 1] == p[i]);
                    }
                }
                assert(q.take(p.len() as int) =~= p);
            }
        }
        assert(qt.len() <= pt.len() ==> pt.take(qt.len() as int) != qt) by {
            if qt.len() <= pt.len() && pt.take(qt.len() as int) == qt {
                assert forall|i: int| 0 <= i < q.len() implies p.take(q.len() as int)[i] == q[i] by {
                    if i >= 1 {
                        assert(p[i] == pt[i - 1]);
                        assert(pt.take(qt.len() as int)[i - 1] == qt[i - 1]);
                        assert(qt[i - 1] == q[i]);
                    }
                }
                assert(p.take(q.len() as int) =~= q);
            }
        }
        assert(wf_node(cs[p[0]]));
        assert(path_ok(pt));
        assert(path_ok(qt));
        lemma_carve_lookup_diverge(cs[p[0]], pt, qt, nv);
        assert(lookup_node(carved, q) == lookup_node(child, qt));
        match n {
            Node::Branch(cs0) => {},
            _ => {
                assert(cs[q[0]] == Node::Empty::<T>);
                assert(lookup_node(cs[q[0]], qt) == Node::Empty::<T>);
            },
        }
    }
}

/// Containment is monotone in the tree's size exponent.
pub proof fn lemma_contains_mono(lg1: int, lg2: int, v: VoxelBounds)
    requires
        lg1 <= lg2,
        contains_spec(lg1, v),
    ensures
        contains_spec(lg2, v),
{
    if v.lg_size >= 0 {
        lemma_pow2_pos((lg1 - v.lg_size) as nat);
        if lg1 < lg2 {
            lemma_pow2_strictly_increases((lg1 - v.lg_size) as nat, (lg2 - v.lg_size) as nat);
        }
    }
}

} // verus!
