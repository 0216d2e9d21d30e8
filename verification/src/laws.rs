//! Laws relating the tree's operations, proved over the ghost model.
//!
//! Each law is stated against [`crate::model::insert_model`],
//! [`crate::model::grow_model`] and [`crate::model::tree_get`], which are
//! exactly what the executable operations are specified to compute.

use vstd::arithmetic::power2::{lemma2_to64, lemma_pow2_strictly_increases, pow2};
use vstd::prelude::*;

use crate::model::{
    carve8, carve_node, children_of, contains_spec, covers, empty8, empty_model, fits, grow_iter,
    grow_lg, grow_model, insert_model, lemma_carve_is_branch, lemma_carve_lookup_diverge,
    lemma_carve_lookup_extension, lemma_carve_lookup_leaf_free, lemma_carve_lookup_prefix,
    lemma_carve_lookup_same, lemma_contains_mono, lemma_covers_path_prefix, lemma_grow_iter_get,
    lemma_grow_iter_leaf_free, lemma_grow_iter_wf, lemma_grow_lg_contains, lemma_path_ok,
    lemma_paths_inj, lemma_within_mono, leaf_free, max_lg, path_of, path_ok, tree_get, wf8,
    wf_node, within_range, Node, TreeModel,
};
use crate::voxel_bounds::VoxelBounds;

verus! {

/// Carving preserves well-formedness.
pub proof fn lemma_carve_wf<T>(n: Node<T>, p: Seq<int>, nv: Node<T>)
    requires
        wf_node(n),
        path_ok(p),
        wf_node(nv),
    ensures
        wf_node(carve_node(n, p, nv)),
    decreases p.len(),
{
    if p.len() > 0 {
        let cs = children_of(n);
        assert(cs.len() == 8);
        assert(wf_node(cs[p[0]]));
        assert(path_ok(p.skip(1)));
        lemma_carve_wf(cs[p[0]], p.skip(1), nv);
        let cs2 = cs.update(p[0], carve_node(cs[p[0]], p.skip(1), nv));
        assert forall|i: int| 0 <= i < 8 implies wf_node(#[trigger] cs2[i]) by {
            if i != p[0] {
                assert(cs2[i] == cs[i]);
            }
        }
    }
}

/// The root after an insertion is well formed.
pub proof fn lemma_insert_model_wf<T>(m: TreeModel<T>, v: VoxelBounds, nv: Node<T>)
    requires
        wf8(m.root),
        0 <= m.lg <= max_lg(),
        fits(v),
        wf_node(nv),
    ensures
        wf8(insert_model(m, v, nv).root),
        m.lg <= insert_model(m, v, nv).lg <= max_lg(),
{
    lemma_grow_lg_contains(m.lg, v);
    let lg2 = grow_lg(m.lg, v);
    let k = (lg2 - m.lg) as nat;
    lemma_grow_iter_wf(m.root, k);
    let g = grow_iter(m.root, k);
    let p = path_of(lg2, v);
    lemma_path_ok(lg2, v);
    lemma_carve_wf(Node::Branch(g), p, nv);
    lemma_carve_is_branch(Node::Branch(g), p, nv);
}

/// Round trip: looking up the exact bounds that were just written returns
/// the value that was written, whatever the tree held before — a later
/// insertion at identical bounds overwrites an earlier one.
pub proof fn law_round_trip<T>(m: TreeModel<T>, v: VoxelBounds, x: T)
    requires
        wf8(m.root),
        0 <= m.lg <= max_lg(),
        fits(v),
    ensures
        tree_get(insert_model(m, v, Node::Leaf(x)), v) == Some(x),
{
    lemma_grow_lg_contains(m.lg, v);
    let lg2 = grow_lg(m.lg, v);
    let k = (lg2 - m.lg) as nat;
    lemma_grow_iter_wf(m.root, k);
    let g = grow_iter(m.root, k);
    let p = path_of(lg2, v);
    lemma_path_ok(lg2, v);
    let nv = Node::Leaf(x);
    lemma_carve_is_branch(Node::Branch(g), p, nv);
    assert(Node::Branch(carve8(g, p, nv)) == carve_node(Node::Branch(g), p, nv));
    lemma_carve_lookup_same(Node::Branch(g), p, nv);
}

/// Scale exactness: writing a leaf into a fresh tree and then querying the
/// same coordinates at any other scale finds nothing — the traversal never
/// conflates scales.
pub proof fn law_scale_exactness<T>(v: VoxelBounds, w: VoxelBounds, x: T)
    requires
        fits(v),
        w.x == v.x,
        w.y == v.y,
        w.z == v.z,
        w.lg_size != v.lg_size,
    ensures
        tree_get(insert_model(empty_model::<T>(), v, Node::Leaf(x)), w) is None,
{
    let lg2 = grow_lg(0, v);
    lemma_grow_lg_contains(0, v);
    let k = lg2 as nat;
    assert(forall|i: int| 0 <= i < 8 ==> #[trigger] empty8::<T>()[i] == Node::Empty::<T>);
    assert(wf8(empty8::<T>()));
    lemma_grow_iter_wf(empty8::<T>(), k);
    lemma_grow_iter_leaf_free(empty8::<T>(), k);
    let g = grow_iter(empty8::<T>(), k);
    let m1 = insert_model(empty_model::<T>(), v, Node::Leaf(x));
    if contains_spec(lg2, w) {
        let p = path_of(lg2, v);
        let q = path_of(lg2, w);
        lemma_path_ok(lg2, v);
        lemma_path_ok(lg2, w);
        let ev = lg2 - 1 - v.lg_size;
        let ew = lg2 - 1 - w.lg_size;
        assert(p.len() == if ev >= 0 { ev + 2 } else { 1int });
        assert(q.len() == if ew >= 0 { ew + 2 } else { 1int });
        if v.lg_size >= 0 {
            assert(v.lg_size <= lg2);
        }
        if w.lg_size >= 0 {
            assert(w.lg_size <= lg2);
        }
        assert(p.len() != q.len());
        assert(p != q);
        assert(leaf_free(Node::Branch(g)));
        lemma_carve_lookup_leaf_free(Node::Branch(g), p, q, x);
        assert(Node::Branch(carve8(g, p, Node::Leaf(x))) == carve_node(
            Node::Branch(g),
            p,
            Node::Leaf(x),
        ));
    }
}

/// Growth transparency: growing the tree to hold any other bounds, any
/// number of times, never changes what a lookup of existing in-range bounds
/// observes.  For bounds with non-negative `lg_size` the range condition is
/// implied by containment; for sub-unit bounds it rules out coordinates
/// that merely alias a position inside the covered cube.
pub proof fn law_grow_transparent<T>(m: TreeModel<T>, v: VoxelBounds, w: VoxelBounds)
    requires
        wf8(m.root),
        0 <= m.lg <= max_lg(),
        contains_spec(m.lg, v),
        v.lg_size < 0 ==> within_range(m.lg, v),
        fits(w),
    ensures
        tree_get(grow_model(m, w), v) == tree_get(m, v),
        wf8(grow_model(m, w).root),
        m.lg <= grow_model(m, w).lg <= max_lg(),
        contains_spec(grow_model(m, w).lg, v),
        v.lg_size < 0 ==> within_range(grow_model(m, w).lg, v),
{
    let lg2 = grow_lg(m.lg, w);
    lemma_grow_lg_contains(m.lg, w);
    let k = (lg2 - m.lg) as nat;
    assert(within_range(m.lg, v));
    lemma_grow_iter_get(m.root, m.lg, v, k);
    lemma_contains_mono(m.lg, lg2, v);
    lemma_within_mono(m.lg, lg2, v);
    lemma_grow_iter_wf(m.root, k);
}

/// Containment boundary: a tree with size exponent `k` contains unit-scale
/// bounds with a coordinate of exactly `2^k - 1` or `-(2^k) + 1`, and does
/// not contain one unit beyond, on either side.
pub proof fn law_containment_boundary(k: int, y: i32, z: i32)
    requires
        0 <= k <= max_lg(),
        -(pow2(k as nat) as int) < y < pow2(k as nat) as int,
        -(pow2(k as nat) as int) < z < pow2(k as nat) as int,
    ensures
        contains_spec(k, VoxelBounds { x: (pow2(k as nat) - 1) as i32, y, z, lg_size: 0 }),
        !contains_spec(k, VoxelBounds { x: pow2(k as nat) as i32, y, z, lg_size: 0 }),
        contains_spec(k, VoxelBounds { x: (1 - pow2(k as nat) as int) as i32, y, z, lg_size: 0 }),
        !contains_spec(k, VoxelBounds { x: (-(pow2(k as nat) as int)) as i32, y, z, lg_size: 0 }),
{
    lemma2_to64();
    if k < 30 {
        lemma_pow2_strictly_increases(k as nat, 30);
    }
    assert(pow2(30) == 0x40000000);
    assert(pow2(k as nat) <= 0x40000000);
}

/// Insertion isolation: writing a leaf at one bounds never invents content
/// at another.  A lookup of any other in-range bounds afterwards observes
/// either exactly what it observed before, or nothing (when the write's
/// path destroyed it, per the destructive insertion policy).
pub proof fn law_insert_elsewhere<T>(m: TreeModel<T>, v: VoxelBounds, w: VoxelBounds, y: T)
    requires
        wf8(m.root),
        0 <= m.lg <= max_lg(),
        contains_spec(m.lg, v),
        v.lg_size < 0 ==> within_range(m.lg, v),
        fits(w),
        w.lg_size < 0 ==> within_range(m.lg, w),
        v != w,
    ensures
        tree_get(insert_model(m, w, Node::Leaf(y)), v) == tree_get(m, v) || tree_get(
            insert_model(m, w, Node::Leaf(y)),
            v,
        ) is None,
{
    let lg2 = grow_lg(m.lg, w);
    lemma_grow_lg_contains(m.lg, w);
    let k = (lg2 - m.lg) as nat;
    lemma_grow_iter_wf(m.root, k);
    let g = grow_iter(m.root, k);
    assert(within_range(m.lg, v));
    lemma_grow_iter_get(m.root, m.lg, v, k);
    lemma_contains_mono(m.lg, lg2, v);
    lemma_within_mono(m.lg, lg2, v);
    assert(within_range(lg2, w)) by {
        if w.lg_size < 0 {
            lemma_within_mono(m.lg, lg2, w);
        }
    }
    let pv = path_of(lg2, v);
    let pw = path_of(lg2, w);
    lemma_path_ok(lg2, v);
    lemma_path_ok(lg2, w);
    if pv == pw {
        lemma_paths_inj(lg2, v, w);
        assert(false);
    }
    let nv = Node::Leaf(y);
    lemma_carve_is_branch(Node::Branch(g), pw, nv);
    assert(Node::Branch(carve8(g, pw, nv)) == carve_node(Node::Branch(g), pw, nv));
    if pw.len() < pv.len() && pv.take(pw.len() as int) == pw {
        lemma_carve_lookup_extension(Node::Branch(g), pw, pv, nv);
    } else if pv.len() < pw.len() && pw.take(pv.len() as int) == pv {
        lemma_carve_lookup_prefix(Node::Branch(g), pw, pv.len() as int, nv);
    } else {
        assert(pw.len() <= pv.len() ==> pv.take(pw.len() as int) != pw) by {
            if pw.len() == pv.len() && pv.take(pw.len() as int) == pw {
                assert(pv.take(pv.len() as int) =~= pv);
            }
        }
        assert(pv.len() <= pw.len() ==> pw.take(pv.len() as int) != pv) by {
            if pv.len() == pw.len() && pw.take(pv.len() as int) == pv {
                assert(pw.take(pw.len() as int) =~= pw);
            }
        }
        lemma_carve_lookup_diverge(Node::Branch(g), pw, pv, nv);
    }
}

/// Destructive insertion, coarse over fine: writing a coarse leaf erases any
/// previously written leaf at bounds it covers — the finer bounds are no
/// longer found.
pub proof fn law_destructive_coarse_over_fine<T>(
    m: TreeModel<T>,
    c: VoxelBounds,
    f: VoxelBounds,
    a: T,
    b: T,
)
    requires
        wf8(m.root),
        0 <= m.lg <= max_lg(),
        covers(c, f),
        c.lg_size > f.lg_size,
        fits(f),
        fits(c),
    ensures
        tree_get(insert_model(insert_model(m, f, Node::Leaf(a)), c, Node::Leaf(b)), f) is None,
{
    let m1 = insert_model(m, f, Node::Leaf(a));
    lemma_insert_model_wf(m, f, Node::Leaf(a));
    let lg1 = grow_lg(m.lg, f);
    lemma_grow_lg_contains(m.lg, f);
    let lg2 = grow_lg(lg1, c);
    lemma_grow_lg_contains(lg1, c);
    lemma_contains_mono(lg1, lg2, f);
    let k = (lg2 - lg1) as nat;
    lemma_grow_iter_wf(m1.root, k);
    let g = grow_iter(m1.root, k);
    let pc = path_of(lg2, c);
    let pf = path_of(lg2, f);
    lemma_path_ok(lg2, c);
    lemma_path_ok(lg2, f);
    if c.lg_size >= 0 {
        assert(c.lg_size <= lg2);
    }
    lemma_covers_path_prefix(lg2, c, f);
    let ec = lg2 - 1 - c.lg_size;
    let ef = lg2 - 1 - f.lg_size;
    assert(pc.len() == if ec >= 0 { ec + 2 } else { 1int });
    assert(pf.len() == ef + 2);
    assert(pc.len() < pf.len());
    lemma_carve_lookup_extension(Node::Branch(g), pc, pf, Node::Leaf(b));
    assert(Node::Branch(carve8(g, pc, Node::Leaf(b))) == carve_node(
        Node::Branch(g),
        pc,
        Node::Leaf(b),
    ));
}

/// Destructive insertion, fine inside coarse: writing a leaf at finer
/// bounds replaces a previously written coarse leaf covering it with a
/// branch — the coarse bounds are no longer found.
pub proof fn law_destructive_fine_in_coarse<T>(
    m: TreeModel<T>,
    c: VoxelBounds,
    f: VoxelBounds,
    a: T,
    b: T,
)
    requires
        wf8(m.root),
        0 <= m.lg <= max_lg(),
        covers(c, f),
        c.lg_size > f.lg_size,
        fits(f),
        fits(c),
    ensures
        tree_get(insert_model(insert_model(m, c, Node::Leaf(b)), f, Node::Leaf(a)), c) is None,
{
    let m1 = insert_model(m, c, Node::Leaf(b));
    lemma_insert_model_wf(m, c, Node::Leaf(b));
    let lg1 = grow_lg(m.lg, c);
    lemma_grow_lg_contains(m.lg, c);
    let lg2 = grow_lg(lg1, f);
    lemma_grow_lg_contains(lg1, f);
    lemma_contains_mono(lg1, lg2, c);
    let k = (lg2 - lg1) as nat;
    lemma_grow_iter_wf(m1.root, k);
    let g = grow_iter(m1.root, k);
    let pc = path_of(lg2, c);
    let pf = path_of(lg2, f);
    lemma_path_ok(lg2, c);
    lemma_path_ok(lg2, f);
    if c.lg_size >= 0 {
        assert(c.lg_size <= lg2);
    }
    lemma_covers_path_prefix(lg2, c, f);
    let ec = lg2 - 1 - c.lg_size;
    let ef = lg2 - 1 - f.lg_size;
    assert(pc.len() == if ec >= 0 { ec + 2 } else { 1int });
    assert(pf.len() == ef + 2);
    assert(pc.len() < pf.len());
    assert(pf.take(pc.len() as int) == pc);
    lemma_carve_lookup_prefix(Node::Branch(g), pf, pc.len() as int, Node::Leaf(a));
    assert(Node::Branch(carve8(g, pf, Node::Leaf(a))) == carve_node(
        Node::Branch(g),
        pf,
        Node::Leaf(a),
    ));
}

} // verus!
