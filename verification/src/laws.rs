//! What lookup returns after the operations that build and change a tree.

use crate::grid::corner;
use crate::grid::lemma_block_side;
use crate::grid::lemma_cell_count;
use crate::grid::lemma_corner_rank;
use crate::grid::lemma_mod_half;
use crate::grid::lemma_mod_width;
use crate::grid::lemma_pow2_splits;
use crate::grid::lemma_rank_bound;
use crate::grid::lemma_rank_same_block;
use crate::grid::lemma_same_block_step;
use crate::grid::lemma_same_block_unit;
use crate::grid::lemma_same_block_whole;
use crate::grid::lemma_splits_doubles;
use crate::grid::lemma_splits_halves;
use crate::grid::octant;
use crate::grid::rank;
use crate::grid::same_block;
use crate::grid::splits;
use crate::node::Node;
use crate::octree::OctreeView;
use crate::voxel::Voxel;
use vstd::arithmetic::div_mod::lemma_mod_bound;
use vstd::arithmetic::div_mod::lemma_mod_twice;
use vstd::arithmetic::power::lemma_pow_positive;
use vstd::arithmetic::power::pow;
use vstd::arithmetic::power2::lemma2_to64;
use vstd::arithmetic::power2::lemma_pow2_adds;
use vstd::arithmetic::power2::lemma_pow2_pos;
use vstd::arithmetic::power2::lemma_pow2_unfold;
use vstd::arithmetic::power2::pow2;
use vstd::prelude::*;
use vstd::set_lib::lemma_int_range;
use vstd::set_lib::set_int_range;

verus! {

/// Lookup wraps around: a coordinate and its remainder modulo the side of
/// the cube name the same cell.
pub proof fn law_lookup_wraps(tree: Node, x: nat, y: nat, z: nat, size: nat)
    requires
        size > 0,
        tree.fits(size),
    ensures
        tree.cell(x, y, z, size) == tree.cell(x % size, y % size, z % size, size),
    decreases size,
{
    lemma_mod_bound(x as int, size as int);
    lemma_mod_bound(y as int, size as int);
    lemma_mod_bound(z as int, size as int);
    if tree is Branch {
        lemma_mod_twice(x as int, size as int);
        lemma_mod_twice(y as int, size as int);
        lemma_mod_twice(z as int, size as int);
        lemma_mod_half(x, size);
        lemma_mod_half(y, size);
        lemma_mod_half(z, size);
        assert(octant(x, y, z, size) == octant(x % size, y % size, z % size, size));
    }
}

/// Splitting a leaf changes no cell: each of the eight new leaves carries
/// the payload of the leaf it came from.
pub proof fn law_subdivision_keeps_cells(tree: Node, x: nat, y: nat, z: nat, size: nat)
    requires
        size >= 2,
    ensures
        tree.subdivided().cell(x, y, z, size) == tree.cell(x, y, z, size),
{
    reveal_with_fuel(Node::cell, 2);
    let i = octant(x, y, z, size);
    assert(i == 0 || i == 1 || i == 2 || i == 3 || i == 4 || i == 5 || i == 6 || i == 7);
}

/// After an insertion, a cell inside the sub-cube that was written reads
/// from the inserted node, and every other cell reads what it read before.
pub proof fn law_insert_cells(
    tree: Node,
    x: nat,
    y: nat,
    z: nat,
    node: Node,
    size: nat,
    depth: nat,
    u: nat,
    v: nat,
    w: nat,
)
    requires
        splits(size, depth),
        node.fits(size / pow2(depth)),
    ensures
        tree.inserted(x, y, z, node, size, depth).cell(u, v, w, size) == (if same_block(
            x,
            y,
            z,
            u,
            v,
            w,
            size,
            depth,
        ) {
            node.cell(u, v, w, size / pow2(depth))
        } else {
            tree.cell(u, v, w, size)
        }),
    decreases depth,
{
    if depth == 0 {
        lemma2_to64();
        lemma_same_block_whole(x, y, z, u, v, w, size);
    } else {
        let below = (depth - 1) as nat;
        let half = size / 2;
        let width = size / pow2(depth);
        let branch = tree.subdivided();
        let i = octant(x, y, z, size);
        let j = octant(u, v, w, size);
        let child = branch.child(i).inserted(x % half, y % half, z % half, node, half, below);
        let after = branch.with_child(i, child);
        lemma_splits_halves(size, depth);
        lemma_same_block_step(x, y, z, u, v, w, size, depth);
        law_subdivision_keeps_cells(tree, u, v, w, size);
        assert(after == tree.inserted(x, y, z, node, size, depth));
        if j == i {
            assert(after.child(j) == child);
            law_insert_cells(
                branch.child(i),
                x % half,
                y % half,
                z % half,
                node,
                half,
                below,
                u % half,
                v % half,
                w % half,
            );
            if same_block(x, y, z, u, v, w, size, depth) {
                lemma_block_side(half, below);
                lemma_mod_width(u, half, below);
                lemma_mod_width(v, half, below);
                lemma_mod_width(w, half, below);
                law_lookup_wraps(node, u, v, w, width);
                law_lookup_wraps(node, u % half, v % half, w % half, width);
            }
        } else {
            assert(after.child(j) == branch.child(j));
        }
    }
}

/// Inserting the same node at the same place and depth a second time
/// changes nothing: the tree is the one that the first insertion left.
pub proof fn law_insert_twice(tree: Node, x: nat, y: nat, z: nat, node: Node, size: nat, depth: nat)
    requires
        splits(size, depth),
    ensures
        tree.inserted(x, y, z, node, size, depth).inserted(x, y, z, node, size, depth)
            == tree.inserted(x, y, z, node, size, depth),
    decreases depth,
{
    if depth > 0 {
        let below = (depth - 1) as nat;
        let half = size / 2;
        let branch = tree.subdivided();
        let i = octant(x, y, z, size);
        let child = branch.child(i).inserted(x % half, y % half, z % half, node, half, below);
        let once = branch.with_child(i, child);
        lemma_splits_halves(size, depth);
        law_insert_twice(branch.child(i), x % half, y % half, z % half, node, half, below);
        assert(once.child(i) == child);
        assert(once.with_child(i, child)->children@ =~= once->children@);
        assert(*once.with_child(i, child)->children =~= *once->children);
        assert(once.inserted(x, y, z, node, size, depth) == once.with_child(i, child));
    }
}

/// In a full tree every cell holds a payload, and its identity is the first
/// identity plus the place of the cell's unit leaf in the order of the
/// octants.
pub proof fn law_full_cells(depth: nat, first: nat, x: nat, y: nat, z: nat, size: nat)
    requires
        splits(size, depth),
        first + pow(8, depth) <= u32::MAX + 1,
    ensures
        Node::full(depth, first).cell(x, y, z, size) is Some,
        Node::full(depth, first).cell(x, y, z, size)->0.index == first + rank(x, y, z, size, depth),
    decreases depth,
{
    reveal(pow);
    if depth > 0 {
        let below = (depth - 1) as nat;
        let half = size / 2;
        let step = pow(8, below) as nat;
        let i = octant(x, y, z, size);
        let tree = Node::full(depth, first);
        lemma_splits_halves(size, depth);
        lemma_pow_positive(8, below);
        lemma_rank_bound(x % half, y % half, z % half, half, below);
        if i == 0 {
            law_full_cells(below, first, x % half, y % half, z % half, half);
        } else if i == 1 {
            law_full_cells(below, first + step, x % half, y % half, z % half, half);
        } else if i == 2 {
            law_full_cells(below, first + 2 * step, x % half, y % half, z % half, half);
        } else if i == 3 {
            law_full_cells(below, first + 3 * step, x % half, y % half, z % half, half);
        } else if i == 4 {
            law_full_cells(below, first + 4 * step, x % half, y % half, z % half, half);
        } else if i == 5 {
            law_full_cells(below, first + 5 * step, x % half, y % half, z % half, half);
        } else if i == 6 {
            law_full_cells(below, first + 6 * step, x % half, y % half, z % half, half);
        } else {
            law_full_cells(below, first + 7 * step, x % half, y % half, z % half, half);
        }
    }
}

/// A node wrapped `levels` times fits the cube of `2^levels` times the
/// side. In that cube, the cells of the low corner cube of the old side
/// read what they read before, and every other cell is empty.
pub proof fn law_grown_cells(tree: Node, size: nat, levels: nat, x: nat, y: nat, z: nat)
    requires
        size > 0,
        tree.fits(size),
    ensures
        tree.grown(levels).fits(size * pow2(levels)),
        tree.grown(levels).cell(x, y, z, size * pow2(levels)) == (if x % (size * pow2(levels))
            < size && y % (size * pow2(levels)) < size && z % (size * pow2(levels)) < size {
            tree.cell(x, y, z, size)
        } else {
            None
        }),
    decreases levels,
{
    if levels == 0 {
        lemma2_to64();
        assert(size * pow2(0) == size) by (nonlinear_arith)
            requires
                pow2(0) == 1,
        ;
        law_lookup_wraps(tree, x, y, z, size);
        lemma_mod_bound(x as int, size as int);
        lemma_mod_bound(y as int, size as int);
        lemma_mod_bound(z as int, size as int);
    } else {
        let below = (levels - 1) as nat;
        let half = size * pow2(below);
        let whole = size * pow2(levels);
        let inner = tree.grown(below);
        lemma_pow2_pos(below);
        lemma_pow2_unfold(levels);
        assert(whole == 2 * half && half >= size) by (nonlinear_arith)
            requires
                whole == size * pow2(levels),
                half == size * pow2(below),
                pow2(levels) == 2 * pow2(below),
                pow2(below) > 0,
                size > 0,
        ;
        law_grown_cells(tree, size, below, x, y, z);
        inner.lemma_wrapped_fits(half);
        law_grown_cells(tree, size, below, x % half, y % half, z % half);
        law_lookup_wraps(inner, x, y, z, half);
        lemma_mod_half(x, whole);
        lemma_mod_half(y, whole);
        lemma_mod_half(z, whole);
        lemma_mod_twice(x as int, half as int);
        lemma_mod_twice(y as int, half as int);
        lemma_mod_twice(z as int, half as int);
        let i = octant(x, y, z, whole);
        assert(i == 0 || i == 1 || i == 2 || i == 3 || i == 4 || i == 5 || i == 6 || i == 7);
        reveal_with_fuel(Node::cell, 2);
    }
}

/// A leaf is uniform: a cell that shares the cube of the leaf that covers
/// `(x, y, z)` is covered by that leaf and reads what `(x, y, z)` reads. The
/// cube of that leaf is one of the sub-cubes of the leaf's depth.
pub proof fn law_leaf_uniform(
    tree: Node,
    x: nat,
    y: nat,
    z: nat,
    u: nat,
    v: nat,
    w: nat,
    size: nat,
)
    requires
        size > 0,
        tree.fits(size),
        same_block(x, y, z, u, v, w, size, tree.leaf_depth(x, y, z, size)),
    ensures
        splits(size, tree.leaf_depth(x, y, z, size)),
        tree.leaf_depth(u, v, w, size) == tree.leaf_depth(x, y, z, size),
        tree.cell(u, v, w, size) == tree.cell(x, y, z, size),
    decreases size,
{
    lemma_leaf_depth_splits(tree, x, y, z, size);
    if tree is Branch {
        let half = size / 2;
        let i = octant(x, y, z, size);
        let depth = tree.leaf_depth(x, y, z, size);
        lemma_same_block_step(x, y, z, u, v, w, size, depth);
        law_leaf_uniform(
            tree.child(i),
            x % half,
            y % half,
            z % half,
            u % half,
            v % half,
            w % half,
            half,
        );
    }
}

/// The cube of a node that fits it splits as often as the leaf that covers
/// a cell is deep.
proof fn lemma_leaf_depth_splits(tree: Node, x: nat, y: nat, z: nat, size: nat)
    requires
        size > 0,
        tree.fits(size),
    ensures
        splits(size, tree.leaf_depth(x, y, z, size)),
    decreases size,
{
    if tree is Branch {
        let half = size / 2;
        let i = octant(x, y, z, size);
        lemma_leaf_depth_splits(tree.child(i), x % half, y % half, z % half, half);
        lemma_splits_doubles(half, tree.child(i).leaf_depth(x % half, y % half, z % half, half));
    } else {
        lemma2_to64();
    }
}

/// Full coverage: in a freshly built tree every cell holds a payload, and
/// the identities found over the whole cube are the `8^depth` identities
/// from `first` on, so there are `2^(3 * depth)` of them, one for each unit
/// cell.
pub proof fn law_full_coverage(depth: nat, first: nat)
    requires
        first + pow(8, depth) <= u32::MAX + 1,
    ensures
        forall|x: nat, y: nat, z: nat|
            (#[trigger] OctreeView::full(depth, first).cell(x, y, z)) is Some
                && OctreeView::full(depth, first).cell(x, y, z)->0.index == first + rank(
                x,
                y,
                z,
                pow2(depth),
                depth,
            ),
        OctreeView::full(depth, first).identities() == set_int_range(
            first as int,
            first + pow(8, depth),
        ),
        OctreeView::full(depth, first).identities().finite(),
        OctreeView::full(depth, first).identities().len() == pow2(3 * depth),
{
    let tree = OctreeView::full(depth, first);
    let side = pow2(depth);
    let count = pow(8, depth);
    lemma_pow2_splits(depth, depth);
    lemma_pow_positive(8, depth);
    assert forall|x: nat, y: nat, z: nat|
        (#[trigger] tree.cell(x, y, z)) is Some && tree.cell(x, y, z)->0.index == first + rank(
            x,
            y,
            z,
            side,
            depth,
        ) by {
        law_full_cells(depth, first, x, y, z, side);
    }
    assert forall|id: int| tree.identities().contains(id) <==> first <= id < first + count by {
        if tree.identities().contains(id) {
            let (x, y, z) = choose|x: nat, y: nat, z: nat|
                x < side && y < side && z < side && #[trigger] tree.cell(x, y, z) is Some
                    && tree.cell(x, y, z)->0.index == id;
            lemma_rank_bound(x, y, z, side, depth);
        }
        if first <= id < first + count {
            let (x, y, z) = corner(id - first, side, depth);
            lemma_corner_rank(id - first, side, depth);
            assert(tree.cell(x, y, z) is Some && tree.cell(x, y, z)->0.index == id);
        }
    }
    assert(tree.identities() =~= set_int_range(first as int, first + count));
    lemma_int_range(first as int, first + count);
    lemma_cell_count(depth);
}

/// One identity for each unit cell: in a freshly built tree, two cells
/// inside the cube hold the same identity only if they are the same cell.
pub proof fn law_full_identities_distinct(
    depth: nat,
    first: nat,
    x: nat,
    y: nat,
    z: nat,
    u: nat,
    v: nat,
    w: nat,
)
    requires
        first + pow(8, depth) <= u32::MAX + 1,
        x < pow2(depth),
        y < pow2(depth),
        z < pow2(depth),
        u < pow2(depth),
        v < pow2(depth),
        w < pow2(depth),
    ensures
        OctreeView::full(depth, first).cell(x, y, z) == OctreeView::full(depth, first).cell(u, v, w)
            <==> x == u && y == v && z == w,
{
    let side = pow2(depth);
    lemma_pow2_splits(depth, depth);
    law_full_cells(depth, first, x, y, z, side);
    law_full_cells(depth, first, u, v, w, side);
    lemma_rank_same_block(x, y, z, u, v, w, side, depth);
    lemma_same_block_unit(x, y, z, u, v, w, depth);
}

/// The octants' numbers: in a cube of side 2 the cell `(x, y, z)` is the
/// octant `x + 2 * y + 4 * z`, and a branch over that cube reads the cell
/// from its child of that number.
pub proof fn law_octant_numbers(tree: Node, x: nat, y: nat, z: nat)
    requires
        tree is Branch,
        x < 2,
        y < 2,
        z < 2,
    ensures
        octant(x, y, z, 2) == x + 2 * y + 4 * z,
        tree.cell(x, y, z, 2) == tree.child((x + 2 * y + 4 * z) as int).cell(0, 0, 0, 1),
{
}

/// The order of the identities: in a freshly built tree of depth 1 the cell
/// `(x, y, z)` holds the identity `first + x + 2 * y + 4 * z`.
pub proof fn law_octant_order(first: nat, x: nat, y: nat, z: nat)
    requires
        first + 8 <= u32::MAX + 1,
        x < 2,
        y < 2,
        z < 2,
    ensures
        OctreeView::full(1, first).cell(x, y, z) is Some,
        OctreeView::full(1, first).cell(x, y, z)->0.index == first + x + 2 * y + 4 * z,
{
    lemma2_to64();
    lemma_pow2_splits(1, 1);
    assert(pow(8, 0) == 1 && pow(8, 1) == 8) by {
        reveal_with_fuel(pow, 2);
    }
    law_full_cells(1, first, x, y, z, 2);
    assert(octant(x, y, z, 2) == x + 2 * y + 4 * z);
    assert(rank(x % 1, y % 1, z % 1, 1, 0) == 0);
    assert(rank(x, y, z, 2, 1) == octant(x, y, z, 2) * pow(8, 0) + rank(x % 1, y % 1, z % 1, 1, 0));
}

/// Lookup in a tree wraps around: a coordinate and its remainder modulo
/// the side of the cube name the same cell.
pub proof fn law_tree_lookup_wraps(tree: OctreeView, x: nat, y: nat, z: nat)
    requires
        tree.wf(),
    ensures
        tree.cell(x, y, z) == tree.cell(x % tree.side(), y % tree.side(), z % tree.side()),
{
    lemma_pow2_pos(tree.max_depth);
    law_lookup_wraps(tree.root, x, y, z, tree.side());
}

/// Growth keeps every cell where it was: in the grown tree the cells of the
/// old cube read what they read before, and every other cell is empty. The
/// grown tree is consistent as long as its side fits the coordinate type.
pub proof fn law_growth_keeps_cells(tree: OctreeView, depth: nat, x: nat, y: nat, z: nat)
    requires
        tree.wf(),
    ensures
        depth < 32 ==> tree.grown_to(depth).wf(),
        tree.grown_to(depth).cell(x, y, z) == (if x % tree.grown_to(depth).side() < tree.side() && y
            % tree.grown_to(depth).side() < tree.side() && z % tree.grown_to(depth).side()
            < tree.side() {
            tree.cell(x, y, z)
        } else {
            None
        }),
{
    lemma_pow2_pos(tree.max_depth);
    if depth <= tree.max_depth {
        law_lookup_wraps(tree.root, x, y, z, tree.side());
        lemma_mod_bound(x as int, tree.side() as int);
        lemma_mod_bound(y as int, tree.side() as int);
        lemma_mod_bound(z as int, tree.side() as int);
    } else {
        let levels = (depth - tree.max_depth) as nat;
        lemma_pow2_adds(tree.max_depth, levels);
        law_grown_cells(tree.root, tree.side(), levels, x, y, z);
    }
}

/// After an insertion into a tree, a cell inside the sub-cube that was
/// written reads from the inserted node, and every other cell reads what it
/// read in the tree grown to the depth of the insertion.
pub proof fn law_tree_insert_cells(
    tree: OctreeView,
    x: nat,
    y: nat,
    z: nat,
    node: Node,
    depth: nat,
    u: nat,
    v: nat,
    w: nat,
)
    requires
        node.fits(pow2((tree.grown_to(depth).max_depth - depth) as nat)),
    ensures
        tree.inserted(x, y, z, node, depth).cell(u, v, w) == (if same_block(
            x,
            y,
            z,
            u,
            v,
            w,
            tree.grown_to(depth).side(),
            depth,
        ) {
            node.cell(u, v, w, pow2((tree.grown_to(depth).max_depth - depth) as nat))
        } else {
            tree.grown_to(depth).cell(u, v, w)
        }),
{
    let grown = tree.grown_to(depth);
    lemma_pow2_splits(grown.max_depth, depth);
    law_insert_cells(grown.root, x, y, z, node, grown.side(), depth, u, v, w);
}

/// Insertion keeps a tree consistent, provided that the side of the cube
/// still fits the coordinate type and the inserted node fits the sub-cube
/// it is written to. The depth of a tree never shrinks.
pub proof fn law_insert_keeps_wf(tree: OctreeView, x: nat, y: nat, z: nat, node: Node, depth: nat)
    requires
        tree.wf(),
        depth < 32,
        node.fits(pow2((tree.grown_to(depth).max_depth - depth) as nat)),
    ensures
        tree.inserted(x, y, z, node, depth).wf(),
        tree.inserted(x, y, z, node, depth).max_depth >= tree.max_depth,
{
    let grown = tree.grown_to(depth);
    law_growth_keeps_cells(tree, depth, x, y, z);
    lemma_pow2_splits(grown.max_depth, depth);
    grown.root.lemma_inserted_fits(x, y, z, node, grown.side(), depth);
}

/// Round trip: a payload inserted at a cell is what lookup then finds at
/// that cell.
pub proof fn law_round_trip(tree: OctreeView, x: nat, y: nat, z: nat, voxel: Voxel, depth: nat)
    ensures
        tree.inserted(x, y, z, Node::Leaf(Some(voxel)), depth).cell(x, y, z) == Some(voxel),
{
    law_tree_insert_cells(tree, x, y, z, Node::Leaf(Some(voxel)), depth, x, y, z);
}

/// Overwrite idempotence: inserting the same node at the same cell and
/// depth twice in a row leaves the tree that inserting it once leaves.
pub proof fn law_tree_insert_twice(tree: OctreeView, x: nat, y: nat, z: nat, node: Node, depth: nat)
    ensures
        tree.inserted(x, y, z, node, depth).inserted(x, y, z, node, depth) == tree.inserted(
            x,
            y,
            z,
            node,
            depth,
        ),
{
    let grown = tree.grown_to(depth);
    lemma_pow2_splits(grown.max_depth, depth);
    law_insert_twice(grown.root, x, y, z, node, grown.side(), depth);
}

/// Subdivision preserves siblings: where `(x, y, z)` lies in a leaf larger
/// than a unit cell, and a new leaf is written one level below that leaf at
/// some cell `(a, b, c)` of the leaf's cube, every cell `(u, v, w)` of that
/// cube outside the sub-cube that was written still reads what the leaf
/// held.
pub proof fn law_subdivision_preserves_siblings(
    tree: OctreeView,
    x: nat,
    y: nat,
    z: nat,
    a: nat,
    b: nat,
    c: nat,
    payload: Option<Voxel>,
    u: nat,
    v: nat,
    w: nat,
)
    requires
        tree.wf(),
        tree.root.leaf_depth(x, y, z, tree.side()) < tree.max_depth,
        same_block(x, y, z, a, b, c, tree.side(), tree.root.leaf_depth(x, y, z, tree.side())),
        same_block(x, y, z, u, v, w, tree.side(), tree.root.leaf_depth(x, y, z, tree.side())),
        !same_block(a, b, c, u, v, w, tree.side(), tree.root.leaf_depth(x, y, z, tree.side()) + 1),
    ensures
        tree.inserted(
            a,
            b,
            c,
            Node::Leaf(payload),
            tree.root.leaf_depth(x, y, z, tree.side()) + 1,
        ).cell(u, v, w) == tree.cell(x, y, z),
{
    let depth = tree.root.leaf_depth(x, y, z, tree.side()) + 1;
    lemma_pow2_pos(tree.max_depth);
    law_leaf_uniform(tree.root, x, y, z, u, v, w, tree.side());
    law_tree_insert_cells(tree, a, b, c, Node::Leaf(payload), depth, u, v, w);
}

} // verus!
