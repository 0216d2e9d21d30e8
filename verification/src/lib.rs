//! A sparse, dynamically growing octree that maps axis-aligned cubic regions
//! of 3D space, at arbitrary power-of-two scales, to values.
//!
//! The tree covers the cube `[-2^lg_size, 2^lg_size)` on each axis and grows
//! (never shrinks) on demand.  Every operation is specified against the
//! ghost model in [`model`]: a tree of [`model::Node`]s addressed by octant
//! paths.

pub mod laws;
pub mod model;
pub mod voxel_bounds;

pub use voxel_bounds::VoxelBounds;

use vstd::arithmetic::power2::{
    lemma2_to64, lemma2_to64_rest, lemma_pow2_strictly_increases, pow2,
};
use vstd::bits::{lemma_u32_shr_is_div, lemma_u64_shl_is_mul};
use vstd::prelude::*;

use crate::model::{
    bit_octant, carve8, carve_node, children_of, contains_spec, coord_bit, empty8, empty_model,
    fits, grow_iter, grow_lg, grow_once, insert_model, lemma_coord_bit_offset,
    lemma_coord_bit_sign, lemma_path_ok, lookup_node, max_lg, octant, path_of, to_path, tree_get,
    wf8, wf_node, Node, TreeModel,
};

verus! {

/// The sparse octree.  `lg_size` is the exponent of the covered cube's half
/// edge; the root is forced to always be a full set of eight children, which
/// removes a special case from the growth algorithm.
#[derive(Debug)]
pub struct VoxelTree<T> {
    /// The log_2 of the tree's size.
    lg_size: u8,
    /// Force the top level to always be branches;
    /// it saves a branch in the grow logic.
    contents: Branches<T>,
}

/// Exactly eight child nodes, one per octant, named by the half each child
/// occupies on the x, y and z axes (`l` = low, `h` = high), in that order.
#[derive(Debug)]
pub struct Branches<T> {
    lll: TreeBody<T>,
    llh: TreeBody<T>,
    lhl: TreeBody<T>,
    lhh: TreeBody<T>,
    hll: TreeBody<T>,
    hlh: TreeBody<T>,
    hhl: TreeBody<T>,
    hhh: TreeBody<T>,
}

/// The main, recursive, tree-y part of the `VoxelTree`.
#[derive(Debug)]
pub enum TreeBody<T> {
    Empty,
    Leaf(T),
    Branch(Box<Branches<T>>),
}

/// Ghost image of a node.
pub closed spec fn body_view<T>(b: TreeBody<T>) -> Node<T>
    decreases b,
{
    match b {
        TreeBody::Empty => Node::Empty,
        TreeBody::Leaf(t) => Node::Leaf(t),
        TreeBody::Branch(bb) => Node::Branch(branches_view(*bb)),
    }
}

/// Ghost image of eight children, indexed by octant code: bit 2 is the
/// x half, bit 1 the y half, bit 0 the z half.
pub closed spec fn branches_view<T>(b: Branches<T>) -> Seq<Node<T>>
    decreases b,
{
    seq![
        body_view(b.lll),
        body_view(b.llh),
        body_view(b.lhl),
        body_view(b.lhh),
        body_view(b.hll),
        body_view(b.hlh),
        body_view(b.hhl),
        body_view(b.hhh),
    ]
}

impl<T> View for TreeBody<T> {
    type V = Node<T>;

    closed spec fn view(&self) -> Node<T> {
        body_view(*self)
    }
}

impl<T> View for Branches<T> {
    type V = Seq<Node<T>>;

    closed spec fn view(&self) -> Seq<Node<T>> {
        branches_view(*self)
    }
}

impl<T> View for VoxelTree<T> {
    type V = TreeModel<T>;

    closed spec fn view(&self) -> TreeModel<T> {
        TreeModel { lg: self.lg_size as int, root: branches_view(self.contents) }
    }
}

impl<T> Branches<T> {
    /// Eight empty children.
    pub fn empty() -> (r: Branches<T>)
        ensures
            r@ == empty8::<T>(),
    {
        let r = Branches {
            lll: TreeBody::Empty,
            llh: TreeBody::Empty,
            lhl: TreeBody::Empty,
            lhh: TreeBody::Empty,
            hll: TreeBody::Empty,
            hlh: TreeBody::Empty,
            hhl: TreeBody::Empty,
            hhh: TreeBody::Empty,
        };
        proof {
            assert(r@ =~= empty8::<T>());
        }
        r
    }

    /// The child in the octant selected by one low/high choice per axis.
    pub fn get(&self, x: usize, y: usize, z: usize) -> (r: &TreeBody<T>)
        requires
            x <= 1,
            y <= 1,
            z <= 1,
        ensures
            (*r)@ == self@[octant(x == 1, y == 1, z == 1)],
    {
        match (x == 1, y == 1, z == 1) {
            (false, false, false) => &self.lll,
            (false, false, true) => &self.llh,
            (false, true, false) => &self.lhl,
            (false, true, true) => &self.lhh,
            (true, false, false) => &self.hll,
            (true, false, true) => &self.hlh,
            (true, true, false) => &self.hhl,
            (true, true, true) => &self.hhh,
        }
    }

    /// The child at an octant code.
    fn child_ref(&self, i: u8) -> (r: &TreeBody<T>)
        requires
            i < 8,
        ensures
            (*r)@ == self@[i as int],
    {
        match i {
            0 => &self.lll,
            1 => &self.llh,
            2 => &self.lhl,
            3 => &self.lhh,
            4 => &self.hll,
            5 => &self.hlh,
            6 => &self.hhl,
            _ => &self.hhh,
        }
    }

    /// Moves the child at an octant code out, leaving empty space behind.
    fn take_child(&mut self, i: u8) -> (c: TreeBody<T>)
        requires
            i < 8,
        ensures
            c@ == old(self)@[i as int],
            final(self)@ == old(self)@.update(i as int, Node::Empty),
    {
        let mut t = TreeBody::Empty;
        if i == 0 {
            core::mem::swap(&mut t, &mut self.lll);
        } else if i == 1 {
            core::mem::swap(&mut t, &mut self.llh);
        } else if i == 2 {
            core::mem::swap(&mut t, &mut self.lhl);
        } else if i == 3 {
            core::mem::swap(&mut t, &mut self.lhh);
        } else if i == 4 {
            core::mem::swap(&mut t, &mut self.hll);
        } else if i == 5 {
            core::mem::swap(&mut t, &mut self.hlh);
        } else if i == 6 {
            core::mem::swap(&mut t, &mut self.hhl);
        } else {
            core::mem::swap(&mut t, &mut self.hhh);
        }
        proof {
            assert(self@ =~= old(self)@.update(i as int, Node::Empty));
        }
        t
    }

    /// Stores a node as the child at an octant code.
    fn put_child(&mut self, i: u8, c: TreeBody<T>)
        requires
            i < 8,
        ensures
            final(self)@ == old(self)@.update(i as int, c@),
    {
        if i == 0 {
            self.lll = c;
        } else if i == 1 {
            self.llh = c;
        } else if i == 2 {
            self.lhl = c;
        } else if i == 3 {
            self.lhh = c;
        } else if i == 4 {
            self.hll = c;
        } else if i == 5 {
            self.hlh = c;
        } else if i == 6 {
            self.hhl = c;
        } else {
            self.hhh = c;
        }
        proof {
            assert(self@ =~= old(self)@.update(i as int, c@));
        }
    }
}

/// `2^e` as a machine word.
fn pow2_u64(e: u32) -> (r: u64)
    requires
        e <= 62,
    ensures
        r == pow2(e as nat),
{
    proof {
        lemma2_to64();
        lemma2_to64_rest();
        if e < 63 {
            lemma_pow2_strictly_increases(e as nat, 63);
        }
        lemma_u64_shl_is_mul(1u64, e as u64);
    }
    1u64 << (e as u64)
}

/// The ghost image of any node is well formed: a branch always carries
/// exactly eight children.
proof fn lemma_body_view_wf<T>(b: &TreeBody<T>)
    ensures
        wf_node(body_view(*b)),
    decreases *b,
{
    match b {
        TreeBody::Branch(bb) => {
            lemma_branches_view_wf(&**bb);
        },
        _ => {},
    }
}

/// The ghost image of any set of eight children is well formed.
proof fn lemma_branches_view_wf<T>(bs: &Branches<T>)
    ensures
        wf8(branches_view(*bs)),
    decreases *bs,
{
    lemma_body_view_wf(&bs.lll);
    lemma_body_view_wf(&bs.llh);
    lemma_body_view_wf(&bs.lhl);
    lemma_body_view_wf(&bs.lhh);
    lemma_body_view_wf(&bs.hll);
    lemma_body_view_wf(&bs.hlh);
    lemma_body_view_wf(&bs.hhl);
    lemma_body_view_wf(&bs.hhh);
}

/// The ghost image of a real tree is always well formed, so every law in
/// [`crate::laws`] applies to it.
pub proof fn lemma_view_wf<T>(t: &VoxelTree<T>)
    ensures
        wf8(t@.root),
{
    lemma_branches_view_wf(&t.contents);
}

/// A branch whose only occupied slot is `c`, at octant code `i`.
fn lone_branch<T>(c: TreeBody<T>, i: u8) -> (r: TreeBody<T>)
    requires
        i < 8,
    ensures
        r@ == Node::Branch(empty8::<T>().update(i as int, c@)),
{
    let mut bs = Branches::empty();
    bs.put_child(i, c);
    TreeBody::Branch(Box::new(bs))
}

/// One doubling of the covered cube: every old root child moves into the
/// diagonally opposite slot of a fresh branch in the new root.
fn make_grown<T>(b: Branches<T>) -> (r: Branches<T>)
    ensures
        r@ == grow_once(b@),
{
    let ghost bv = b@;
    let Branches { lll, llh, lhl, lhh, hll, hlh, hhl, hhh } = b;
    let r = Branches {
        lll: lone_branch(lll, 7),
        llh: lone_branch(llh, 6),
        lhl: lone_branch(lhl, 5),
        lhh: lone_branch(lhh, 4),
        hll: lone_branch(hll, 3),
        hlh: lone_branch(hlh, 2),
        hhl: lone_branch(hhl, 1),
        hhh: lone_branch(hhh, 0),
    };
    proof {
        assert(r@ =~= grow_once(bv));
    }
    r
}

/// One low/high choice per axis as an octant code.
fn octant_exec(bx: bool, by: bool, bz: bool) -> (r: u8)
    ensures
        r as int == octant(bx, by, bz),
        r < 8,
{
    (if bx { 4u8 } else { 0u8 }) + (if by { 2u8 } else { 0u8 }) + (if bz { 1u8 } else { 0u8 })
}

/// Bit `j` of a coordinate in two's complement, with bits at or above the
/// coordinate's width reading the sign.
fn coord_bit_exec(x: i32, j: i32) -> (b: bool)
    requires
        j >= 0,
    ensures
        b == coord_bit(x as int, j as nat),
{
    if j >= 31 {
        proof {
            lemma_coord_bit_sign(x as int, j as nat);
        }
        x < 0
    } else {
        let u: u32 = ((x as i64) + 0x8000_0000i64) as u32;
        let w: u32 = (u >> (j as u32)) & 1;
        proof {
            lemma_u32_shr_is_div(u, j as u32);
            assert((u >> (j as u32)) & 1 == (u >> (j as u32)) % 2) by (bit_vector);
            lemma_coord_bit_offset(x as int, j as nat);
        }
        w == 1
    }
}

/// The octant path that addresses `voxel` in a tree of size exponent `lg`.
fn path_exec(lg: u8, voxel: VoxelBounds) -> (p: Vec<u8>)
    requires
        lg as int <= max_lg(),
    ensures
        to_path(p@) == path_of(lg as int, voxel),
        forall|i: int| 0 <= i < p@.len() ==> #[trigger] p@[i] < 8,
        p@.len() >= 1,
{
    let ghost q = path_of(lg as int, voxel);
    proof {
        lemma_path_ok(lg as int, voxel);
    }
    let mut p: Vec<u8> = Vec::new();
    let s0 = octant_exec(voxel.x >= 0, voxel.y >= 0, voxel.z >= 0);
    p.push(s0);
    let e: i32 = lg as i32 - 1 - (voxel.lg_size as i32);
    proof {
        if e >= 0 {
            assert(q.len() == e + 2);
        } else {
            assert(q.len() == 1);
        }
        assert(p@[0] as int == q[0]);
    }
    let mut j: i32 = e;
    while j >= 0
        invariant
            j <= e,
            e >= 0 ==> -1 <= j,
            e == lg as int - 1 - voxel.lg_size,
            q == path_of(lg as int, voxel),
            e >= 0 ==> q.len() == e + 2,
            e < 0 ==> q.len() == 1,
            p@.len() == if e >= 0 { 1 + (e - j) } else { 1int },
            forall|i: int| 0 <= i < p@.len() ==> #[trigger] p@[i] as int == q[i],
            forall|i: int| 0 <= i < p@.len() ==> #[trigger] p@[i] < 8,
        decreases j + 1,
    {
        let o = octant_exec(
            coord_bit_exec(voxel.x, j),
            coord_bit_exec(voxel.y, j),
            coord_bit_exec(voxel.z, j),
        );
        p.push(o);
        proof {
            let k = p@.len() - 1;
            assert(q[k] == bit_octant(voxel, (e - (k - 1)) as nat));
            assert((e - (k - 1)) as nat == j as nat);
            assert(p@[k] as int == q[k]);
        }
        j = j - 1;
    }
    proof {
        assert(to_path(p@) =~= q);
    }
    p
}

/// Rewrites the node addressed by the path suffix `p[k..]` to `node`,
/// replacing every non-branch node along the way with a fresh branch of
/// eight empty children (which discards whatever was stored there).
fn set_rec<T>(b: &mut Branches<T>, p: &Vec<u8>, k: usize, node: TreeBody<T>)
    requires
        k < p@.len(),
        forall|i: int| 0 <= i < p@.len() ==> #[trigger] p@[i] < 8,
    ensures
        final(b)@ == carve8(old(b)@, to_path(p@).skip(k as int), node@),
    decreases p@.len() - k,
{
    let ghost q = to_path(p@).skip(k as int);
    proof {
        assert(q.len() == p@.len() - k);
        assert(q[0] == p@[k as int] as int);
    }
    let i = p[k];
    if k == p.len() - 1 {
        b.put_child(i, node);
        proof {
            assert(q.len() == 1);
            assert(carve_node(Node::Branch(old(b)@), q, node@) == Node::Branch(
                old(b)@.update(i as int, carve_node(old(b)@[i as int], q.skip(1), node@)),
            ));
            assert(q.skip(1).len() == 0);
            assert(carve_node(old(b)@[i as int], q.skip(1), node@) == node@);
        }
    } else {
        let c = b.take_child(i);
        let mut sub: Branches<T> = match c {
            TreeBody::Branch(bb) => *bb,
            _ => Branches::empty(),
        };
        proof {
            assert(sub@ == children_of(old(b)@[i as int]));
        }
        set_rec(&mut sub, p, k + 1, node);
        b.put_child(i, TreeBody::Branch(Box::new(sub)));
        proof {
            assert(to_path(p@).skip(k as int + 1) =~= q.skip(1));
            assert(sub@ == carve8(children_of(old(b)@[i as int]), q.skip(1), node@));
            assert(b@ =~= old(b)@.update(i as int, Node::Empty).update(
                i as int,
                Node::Branch(sub@),
            ));
            assert(b@ =~= old(b)@.update(i as int, Node::Branch(sub@)));
            assert(carve_node(Node::Branch(old(b)@), q, node@) == Node::Branch(
                old(b)@.update(i as int, carve_node(old(b)@[i as int], q.skip(1), node@)),
            ));
            let inner = old(b)@[i as int];
            assert(carve_node(inner, q.skip(1), node@) == Node::Branch(
                children_of(inner).update(
                    q.skip(1)[0],
                    carve_node(children_of(inner)[q.skip(1)[0]], q.skip(1).skip(1), node@),
                ),
            ));
            assert(carve_node(Node::Branch(children_of(inner)), q.skip(1), node@) == Node::Branch(
                children_of(inner).update(
                    q.skip(1)[0],
                    carve_node(children_of(inner)[q.skip(1)[0]], q.skip(1).skip(1), node@),
                ),
            ));
            assert(carve_node(inner, q.skip(1), node@) == Node::Branch(
                carve8(children_of(inner), q.skip(1), node@),
            ));
        }
    }
}

impl<T> VoxelTree<T> {
    /// The tree's structural invariant: the size exponent never passes
    /// `max_lg`, which keeps every coordinate computation in range.
    pub open spec fn inv(&self) -> bool {
        self@.lg <= max_lg()
    }

    /// A fresh tree: unit coverage `[-1, 1)` per axis and all-empty root.
    pub fn new() -> (r: VoxelTree<T>)
        ensures
            r@ == empty_model::<T>(),
            r.inv(),
    {
        VoxelTree { lg_size: 0, contents: Branches::empty() }
    }

    /// Is this voxel within the origin-centered cube the tree covers, once
    /// the voxel's scale is aligned with the tree's?  The comparison is
    /// strict on both sides of each axis, and sub-unit bounds (negative
    /// `lg_size`) always count as contained: they can be reached by
    /// descending deeper.
    pub fn contains_bounds(&self, voxel: VoxelBounds) -> (r: bool)
        requires
            self.inv(),
        ensures
            r == contains_spec(self@.lg, voxel),
    {
        if voxel.lg_size < 0 {
            return true;
        }
        if voxel.lg_size as i32 > self.lg_size as i32 {
            return false;
        }
        let d: u32 = self.lg_size as u32 - voxel.lg_size as u32;
        let high: i64 = pow2_u64(d) as i64;
        proof {
            lemma_pow2_strictly_increases(d as nat, 62);
            lemma2_to64();
            lemma2_to64_rest();
        }
        (voxel.x as i64) > -high && ((voxel.x as i64) < high) && ((voxel.y as i64) > -high) && (
        (voxel.y as i64) < high) && ((voxel.z as i64) > -high) && ((voxel.z as i64) < high)
    }

    /// Ensure that this tree can hold the provided voxel, doubling its
    /// coverage in every direction as often as needed.  Each doubling moves
    /// the old root children into the diagonally opposite slots of fresh
    /// branches, so existing content keeps its position in space.
    pub fn grow_to_hold(&mut self, voxel: VoxelBounds)
        requires
            old(self).inv(),
            fits(voxel),
        ensures
            final(self).inv(),
            final(self)@.lg == grow_lg(old(self)@.lg, voxel),
            final(self)@.root == grow_iter(old(self)@.root, (final(self)@.lg - old(self)@.lg) as nat),
            contains_spec(final(self)@.lg, voxel),
    {
        while !self.contains_bounds(voxel)
            invariant
                self.inv(),
                fits(voxel),
                old(self)@.lg <= self@.lg,
                grow_lg(old(self)@.lg, voxel) == grow_lg(self@.lg, voxel),
                self@.root == grow_iter(old(self)@.root, (self@.lg - old(self)@.lg) as nat),
            decreases max_lg() - self@.lg,
        {
            proof {
                assert(self@.lg < max_lg());
                assert(grow_lg(self@.lg, voxel) == grow_lg(self@.lg + 1, voxel));
            }
            let ghost pre = self@;
            self.lg_size = self.lg_size + 1;
            let mut tmp = Branches::empty();
            core::mem::swap(&mut tmp, &mut self.contents);
            self.contents = make_grown(tmp);
            proof {
                let k = (pre.lg - old(self)@.lg) as nat;
                assert(self@.root == grow_once(grow_iter(old(self)@.root, k)));
                assert(grow_iter(old(self)@.root, k + 1) == grow_once(grow_iter(old(self)@.root, k)));
            }
        }
        proof {
            assert(grow_lg(self@.lg, voxel) == self@.lg);
        }
    }

    /// Stores `node` at the position addressed by `voxel`, growing the tree
    /// first and creating the path on demand.  Every non-branch node crossed
    /// on the way down is replaced by a fresh branch, and whatever the
    /// terminal slot held before is discarded: inserting at a finer
    /// granularity than an existing coarse leaf erases that leaf, and
    /// inserting a coarse node over existing fine structure erases the
    /// subtree.
    pub fn get_mut_or_create(&mut self, voxel: VoxelBounds, node: TreeBody<T>)
        requires
            old(self).inv(),
            fits(voxel),
        ensures
            final(self).inv(),
            final(self)@ == insert_model(old(self)@, voxel, node@),
    {
        self.grow_to_hold(voxel);
        let p = path_exec(self.lg_size, voxel);
        proof {
            assert(to_path(p@).skip(0) =~= to_path(p@));
        }
        set_rec(&mut self.contents, &p, 0, node);
        proof {
            assert(self@ == insert_model(old(self)@, voxel, node@));
        }
    }

    /// Find a voxel inside this tree.  The walk must stay inside branches
    /// the whole way down and end exactly on a leaf; any other outcome,
    /// including bounds outside the covered cube, is "not found".  Lookup
    /// never mutates or allocates.
    pub fn get(&self, voxel: VoxelBounds) -> (r: Option<&T>)
        requires
            self.inv(),
        ensures
            match r {
                Some(t) => tree_get(self@, voxel) == Some(*t),
                None => tree_get(self@, voxel) is None,
            },
    {
        if !self.contains_bounds(voxel) {
            return None;
        }
        let p = path_exec(self.lg_size, voxel);
        let ghost q = to_path(p@);
        let mut cur: &Branches<T> = &self.contents;
        let mut k: usize = 0;
        proof {
            assert(q.skip(0) =~= q);
        }
        while k < p.len()
            invariant
                q == path_of(self@.lg, voxel),
                q.len() == p@.len(),
                forall|i: int| 0 <= i < p@.len() ==> #[trigger] p@[i] as int == q[i],
                forall|i: int| 0 <= i < p@.len() ==> #[trigger] p@[i] < 8,
                0 <= k < q.len(),
                contains_spec(self@.lg, voxel),
                lookup_node(Node::Branch(self@.root), q) == lookup_node(
                    Node::Branch(cur@),
                    q.skip(k as int),
                ),
            decreases q.len() - k,
        {
            let ghost rest = q.skip(k as int);
            proof {
                assert(rest.len() == q.len() - k);
                assert(rest[0] == p@[k as int] as int);
                assert(q.skip(k as int + 1) =~= rest.skip(1));
            }
            let c = cur.child_ref(p[k]);
            if k == p.len() - 1 {
                proof {
                    assert(rest.skip(1).len() == 0);
                    assert(lookup_node(Node::Branch(cur@), rest) == cur@[rest[0]]);
                }
                match c {
                    TreeBody::Leaf(t) => {
                        return Some(t);
                    },
                    _ => {
                        return None;
                    },
                }
            }
            match c {
                TreeBody::Branch(bb) => {
                    proof {
                        assert(lookup_node(Node::Branch(cur@), rest) == lookup_node(
                            cur@[rest[0]],
                            rest.skip(1),
                        ));
                    }
                    cur = &**bb;
                    k = k + 1;
                },
                _ => {
                    proof {
                        assert(lookup_node(Node::Branch(cur@), rest) == lookup_node(
                            cur@[rest[0]],
                            rest.skip(1),
                        ));
                        assert(rest.skip(1).len() >= 1);
                        assert(lookup_node(cur@[rest[0]], rest.skip(1)) == Node::Empty::<T>);
                    }
                    return None;
                },
            }
        }
        // The walk always ends at the terminal path entry, through one of
        // the returns above.
        proof {
            assert(false);
        }
        None
    }
}

} // verus!
