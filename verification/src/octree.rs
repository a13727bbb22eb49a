//! The tree as its callers see it: a root node together with the number of
//! halvings that lead from the whole cube down to a unit cell.

use crate::grid::lemma_pow2_splits;
use crate::grid::side_length;
use crate::node::Node;
use crate::voxel::Voxel;
use crate::voxel::VoxelCounter;
use vstd::arithmetic::power::pow;
use vstd::arithmetic::power2::lemma_pow2_pos;
use vstd::arithmetic::power2::lemma_pow2_unfold;
use vstd::arithmetic::power2::pow2;
use vstd::prelude::*;

verus! {

/// A sparse voxel octree over the cube of side `2^max_depth`.
#[derive(Debug)]
pub struct SparseVoxelOctree {
    root: Node,
    max_depth: u32,
}

/// What a [`SparseVoxelOctree`] is to its contracts: the root node and the
/// number of halvings from the whole cube down to a unit cell.
pub struct OctreeView {
    pub root: Node,
    pub max_depth: nat,
}

impl View for SparseVoxelOctree {
    type V = OctreeView;

    closed spec fn view(&self) -> OctreeView {
        OctreeView { root: self.root, max_depth: self.max_depth as nat }
    }
}

impl OctreeView {
    /// The side length of the whole cube, `2^max_depth`.
    pub open spec fn side(self) -> nat {
        pow2(self.max_depth)
    }

    /// The tree is consistent: its side length fits the coordinate type, and
    /// the root fits the cube of that side.
    pub open spec fn wf(self) -> bool {
        &&& self.max_depth < 32
        &&& self.root.fits(self.side())
    }

    /// What the cell `(x, y, z)` holds. Coordinates count modulo the side
    /// length.
    pub open spec fn cell(self, x: nat, y: nat, z: nat) -> Option<Voxel> {
        self.root.cell(x, y, z, self.side())
    }

    /// The identities of the payloads that lookup finds over the whole cube.
    pub open spec fn identities(self) -> Set<int> {
        Set::new(
            |id: int|
                exists|x: nat, y: nat, z: nat|
                    x < self.side() && y < self.side() && z < self.side() && #[trigger] self.cell(
                        x,
                        y,
                        z,
                    ) is Some && self.cell(x, y, z)->0.index == id,
        )
    }

    /// The tree of the given depth in which every unit cell is a leaf of its
    /// own, with the identities from `first` on.
    pub open spec fn full(depth: nat, first: nat) -> OctreeView {
        OctreeView { root: Node::full(depth, first), max_depth: depth }
    }

    /// The tree with the side of its cube doubled: the old root is octant 0
    /// of the new root, and the other seven octants are empty leaves.
    pub open spec fn grown(self) -> OctreeView {
        OctreeView { root: self.root.wrapped(), max_depth: self.max_depth + 1 }
    }

    /// The tree grown, one doubling at a time, until its depth is at least
    /// `depth`.
    pub open spec fn grown_to(self, depth: nat) -> OctreeView {
        if depth <= self.max_depth {
            self
        } else {
            OctreeView {
                root: self.root.grown((depth - self.max_depth) as nat),
                max_depth: depth,
            }
        }
    }

    /// The tree after `node` was written `depth` levels below the root, on
    /// the path towards the cell `(x, y, z)`: the tree first grows to
    /// `depth` where it is shallower.
    pub open spec fn inserted(self, x: nat, y: nat, z: nat, node: Node, depth: nat) -> OctreeView {
        let tree = self.grown_to(depth);
        OctreeView {
            root: tree.root.inserted(x, y, z, node, tree.side(), depth),
            max_depth: tree.max_depth,
        }
    }
}

impl SparseVoxelOctree {
    /// Every tree keeps its depth below 32, so that the side of its cube
    /// fits the coordinate type.
    #[verifier::type_invariant]
    spec fn side_fits(self) -> bool {
        self.max_depth < 32
    }

    /// The root node.
    pub fn root(&self) -> (root: &Node)
        ensures
            *root == self@.root,
    {
        &self.root
    }

    /// The number of halvings from the whole cube down to a unit cell.
    pub fn max_depth(&self) -> (max_depth: u32)
        ensures
            max_depth == self@.max_depth,
            max_depth < 32,
    {
        proof {
            use_type_invariant(&*self);
        }
        self.max_depth
    }

    /// Builds the tree of the given depth with every unit cell present: each
    /// of the `8^depth` unit leaves holds a payload minted from `counter`.
    /// The side `2^depth` must fit the coordinate type, and the counter must
    /// have `8^depth` steps left.
    pub fn new(depth: u32, counter: &mut VoxelCounter) -> (tree: Self)
        requires
            depth < 32,
            old(counter)@ + pow(8, depth as nat) <= u32::MAX,
        ensures
            tree@ == OctreeView::full(depth as nat, old(counter)@),
            tree@.wf(),
            final(counter)@ == old(counter)@ + pow(8, depth as nat),
    {
        proof {
            lemma_pow2_splits(depth as nat, depth as nat);
            Node::lemma_full_fits(depth as nat, counter@, pow2(depth as nat));
        }
        SparseVoxelOctree { root: Node::new(depth, counter), max_depth: depth }
    }

    /// Looks up the cell `(x, y, z)`: the payload of the leaf that covers
    /// it, or `None` where that leaf is empty. Coordinates count modulo the
    /// side length.
    pub fn get(&self, x: u32, y: u32, z: u32) -> (found: Option<&Voxel>)
        ensures
            found == (match self@.cell(x as nat, y as nat, z as nat) {
                Some(voxel) => Some(&voxel),
                None => None,
            }),
    {
        proof {
            use_type_invariant(&*self);
        }
        self.root.get(x, y, z, side_length(self.max_depth))
    }

    /// Doubles the side of the cube. The old root becomes octant 0 of a new
    /// root, so every cell keeps its coordinates and its content; the other
    /// seven octants are empty leaves. The doubled side must fit the
    /// coordinate type.
    pub fn grow(&mut self)
        requires
            old(self)@.max_depth < 31,
        ensures
            final(self)@ == old(self)@.grown(),
            old(self)@.wf() ==> final(self)@.wf(),
    {
        proof {
            if self@.wf() {
                lemma_pow2_pos(self.max_depth as nat);
                lemma_pow2_unfold((self.max_depth + 1) as nat);
                self.root.lemma_wrapped_fits(pow2(self.max_depth as nat));
            }
        }
        let mut root = Node::Leaf(None);
        std::mem::swap(&mut root, &mut self.root);
        self.root = Node::Branch {
            children: Box::new(
                [
                    root,
                    Node::Leaf(None),
                    Node::Leaf(None),
                    Node::Leaf(None),
                    Node::Leaf(None),
                    Node::Leaf(None),
                    Node::Leaf(None),
                    Node::Leaf(None),
                ],
            ),
        };
        self.max_depth = self.max_depth + 1;
    }

    /// Writes `node` into the tree `depth` levels below the root, on the
    /// path towards the cell `(x, y, z)`. Where `depth` exceeds the tree's
    /// depth, the tree first grows to that depth, one doubling at a time.
    /// Coordinates count modulo the side length that the tree has after
    /// that. The side `2^depth` must fit the coordinate type. The tree stays
    /// consistent where `node` fits the sub-cube it is written to.
    pub fn insert(&mut self, x: u32, y: u32, z: u32, node: Node, depth: u32)
        requires
            depth < 32,
        ensures
            final(self)@ == old(self)@.inserted(x as nat, y as nat, z as nat, node, depth as nat),
            final(self)@.max_depth >= old(self)@.max_depth,
            old(self)@.wf() && node.fits(
                pow2((old(self)@.grown_to(depth as nat).max_depth - depth) as nat),
            ) ==> final(self)@.wf(),
    {
        proof {
            use_type_invariant(&*self);
        }
        while self.max_depth < depth
            invariant
                depth < 32,
                self@.max_depth < 32,
                old(self)@.max_depth <= self@.max_depth <= old(self)@.grown_to(
                    depth as nat,
                ).max_depth,
                self@.root == old(self)@.root.grown(
                    (self@.max_depth - old(self)@.max_depth) as nat,
                ),
                old(self)@.wf() ==> self@.wf(),
            decreases depth - self.max_depth,
        {
            self.grow();
        }
        proof {
            lemma_pow2_splits(self.max_depth as nat, depth as nat);
        }
        let size = side_length(self.max_depth);
        let mut root = Node::Leaf(None);
        std::mem::swap(&mut root, &mut self.root);
        root.insert(x, y, z, node, size, depth);
        self.root = root;
    }
}

} // verus!
