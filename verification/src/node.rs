//! The recursive unit of the tree: a leaf that stands for a whole cube, or a
//! branch that splits its cube into eight octants.

use crate::grid::lemma_splits_halves;
use crate::grid::octant;
use crate::grid::octant_index;
use crate::grid::splits;
use crate::voxel::Voxel;
use crate::voxel::VoxelCounter;
use vstd::arithmetic::power::lemma_pow_positive;
use vstd::arithmetic::power::pow;
use vstd::arithmetic::power2::lemma2_to64;
use vstd::arithmetic::power2::pow2;
use vstd::array::spec_array_update;
use vstd::prelude::*;

verus! {

/// A node of the tree. A `Leaf` gives every unit cell of its cube the same
/// optional payload. A `Branch` holds one child for each octant of its cube,
/// numbered as [`octant`] numbers them.
#[derive(Debug, PartialEq, Eq)]
pub enum Node {
    Branch { children: Box<[Node; 8]> },
    Leaf(Option<Voxel>),
}

impl Node {
    /// The child that a branch holds for octant `i`.
    #[verifier::inline]
    pub open spec fn child(self, i: int) -> Node
        recommends
            self is Branch,
            0 <= i < 8,
    {
        self->children[i]
    }

    /// This branch with the child for octant `i` replaced by `child`.
    pub open spec fn with_child(self, i: int, child: Node) -> Node
        recommends
            self is Branch,
            0 <= i < 8,
    {
        Node::Branch { children: Box::new(spec_array_update(*self->children, i, child)) }
    }

    /// The node can stand for a cube of side `size`: wherever a branch is
    /// met, the side that is left is even and at least 2, so that the eight
    /// children tile the branch's cube exactly.
    pub open spec fn fits(self, size: nat) -> bool
        decreases size,
    {
        match self {
            Node::Leaf(_) => true,
            Node::Branch { children } => {
                &&& size >= 2
                &&& size % 2 == 0
                &&& forall|i: int| 0 <= i < 8 ==> (#[trigger] children[i]).fits(size / 2)
            },
        }
    }

    /// What the cell `(x, y, z)` holds when this node stands for a cube of
    /// side `size`: the payload of the leaf whose cube contains the cell.
    /// Coordinates count modulo `size`. A branch that is met where the side
    /// left is below 2 has no room for its children and holds nothing.
    pub open spec fn cell(self, x: nat, y: nat, z: nat, size: nat) -> Option<Voxel>
        decreases size,
    {
        match self {
            Node::Leaf(voxel) => voxel,
            Node::Branch { children } => if size >= 2 {
                let half = size / 2;
                children[octant(x, y, z, size)].cell(x % half, y % half, z % half, half)
            } else {
                None
            },
        }
    }

    /// How many levels below this node the leaf stands that covers the cell
    /// `(x, y, z)` of this node's cube of side `size`.
    pub open spec fn leaf_depth(self, x: nat, y: nat, z: nat, size: nat) -> nat
        decreases size,
    {
        match self {
            Node::Leaf(_) => 0,
            Node::Branch { children } => if size >= 2 {
                let half = size / 2;
                1 + children[octant(x, y, z, size)].leaf_depth(x % half, y % half, z % half, half)
            } else {
                0
            },
        }
    }

    /// The fully expanded tree of the given depth whose leaves carry the
    /// identities from `first` on, one each, in the order in which the
    /// octants are numbered, the top level counting most.
    pub open spec fn full(depth: nat, first: nat) -> Node
        decreases depth,
    {
        if depth == 0 {
            Node::Leaf(Some(Voxel { index: first as u32 }))
        } else {
            let below = (depth - 1) as nat;
            let step = pow(8, below) as nat;
            Node::Branch {
                children: Box::new(
                    [
                        Node::full(below, first),
                        Node::full(below, first + step),
                        Node::full(below, first + 2 * step),
                        Node::full(below, first + 3 * step),
                        Node::full(below, first + 4 * step),
                        Node::full(below, first + 5 * step),
                        Node::full(below, first + 6 * step),
                        Node::full(below, first + 7 * step),
                    ],
                ),
            }
        }
    }

    /// A leaf split once: a branch of eight leaves that each carry the
    /// leaf's payload. A branch is left as it is.
    pub open spec fn subdivided(self) -> Node {
        match self {
            Node::Leaf(voxel) => Node::Branch {
                children: Box::new(
                    [
                        Node::Leaf(voxel),
                        Node::Leaf(voxel),
                        Node::Leaf(voxel),
                        Node::Leaf(voxel),
                        Node::Leaf(voxel),
                        Node::Leaf(voxel),
                        Node::Leaf(voxel),
                        Node::Leaf(voxel),
                    ],
                ),
            },
            Node::Branch { .. } => self,
        }
    }

    /// This node set into a cube of twice the side: a branch that holds the
    /// node as octant 0 and an empty leaf in each of the other seven.
    pub open spec fn wrapped(self) -> Node {
        Node::Branch {
            children: Box::new(
                [
                    self,
                    Node::Leaf(None),
                    Node::Leaf(None),
                    Node::Leaf(None),
                    Node::Leaf(None),
                    Node::Leaf(None),
                    Node::Leaf(None),
                    Node::Leaf(None),
                ],
            ),
        }
    }

    /// This node wrapped `levels` times.
    pub open spec fn grown(self, levels: nat) -> Node
        decreases levels,
    {
        if levels == 0 {
            self
        } else {
            self.grown((levels - 1) as nat).wrapped()
        }
    }

    /// The tree that insertion makes of this one: `node` stands `depth`
    /// levels down, on the path that leads towards the cell `(x, y, z)` of a
    /// cube of side `size`. Every leaf met before that depth is split on the
    /// way; nothing off the path changes.
    pub open spec fn inserted(
        self,
        x: nat,
        y: nat,
        z: nat,
        node: Node,
        size: nat,
        depth: nat,
    ) -> Node
        decreases depth,
    {
        if depth == 0 {
            node
        } else {
            let branch = self.subdivided();
            let half = size / 2;
            let i = octant(x, y, z, size);
            branch.with_child(
                i,
                branch.child(i).inserted(
                    x % half,
                    y % half,
                    z % half,
                    node,
                    half,
                    (depth - 1) as nat,
                ),
            )
        }
    }

    /// Builds the fully expanded tree of the given depth. Each of its
    /// `8^depth` unit leaves holds a payload minted from `counter`, which
    /// must have that many steps left.
    pub fn new(depth: u32, counter: &mut VoxelCounter) -> (node: Node)
        requires
            old(counter)@ + pow(8, depth as nat) <= u32::MAX,
        ensures
            node == Node::full(depth as nat, old(counter)@),
            final(counter)@ == old(counter)@ + pow(8, depth as nat),
        decreases depth,
    {
        proof {
            reveal(pow);
        }
        if depth == 0 {
            Node::Leaf(Some(Voxel::new(counter)))
        } else {
            proof {
                lemma_pow_positive(8, (depth - 1) as nat);
            }
            Node::Branch {
                children: Box::new(
                    [
                        Node::new(depth - 1, counter),
                        Node::new(depth - 1, counter),
                        Node::new(depth - 1, counter),
                        Node::new(depth - 1, counter),
                        Node::new(depth - 1, counter),
                        Node::new(depth - 1, counter),
                        Node::new(depth - 1, counter),
                        Node::new(depth - 1, counter),
                    ],
                ),
            }
        }
    }

    /// Looks up the cell `(x, y, z)` of this node's cube, whose side is
    /// `size`: the payload of the leaf that covers the cell, or `None` where
    /// that leaf is empty. Coordinates count modulo `size`. A branch that is
    /// met where the side left is below 2 has no room for its children and
    /// holds nothing.
    pub fn get(&self, x: u32, y: u32, z: u32, size: u32) -> (found: Option<&Voxel>)
        ensures
            found == (match self.cell(x as nat, y as nat, z as nat, size as nat) {
                Some(voxel) => Some(&voxel),
                None => None,
            }),
    {
        let mut node = self;
        let mut cx = x;
        let mut cy = y;
        let mut cz = z;
        let mut side = size;
        loop
            invariant
                node.cell(cx as nat, cy as nat, cz as nat, side as nat) == self.cell(
                    x as nat,
                    y as nat,
                    z as nat,
                    size as nat,
                ),
            decreases side,
        {
            match node {
                Node::Leaf(voxel) => {
                    return voxel.as_ref();
                },
                Node::Branch { children } => {
                    if side < 2 {
                        return None;
                    }
                    let half = side / 2;
                    let index = octant_index(cx, cy, cz, side);
                    node = &children[index];
                    cx = cx % half;
                    cy = cy % half;
                    cz = cz % half;
                    side = half;
                },
            }
        }
    }

    /// Writes `node` into the tree `depth` levels below this node, on the
    /// path towards the cell `(x, y, z)` of this node's cube, whose side is
    /// `size`. Whatever stood there is dropped. A leaf above that depth is
    /// first split into eight leaves with its payload, so every cell outside
    /// the target keeps what it had. To go down `depth` levels, the cube must
    /// split that often.
    pub fn insert(&mut self, x: u32, y: u32, z: u32, node: Node, size: u32, depth: u32)
        requires
            depth > 0 ==> splits(size as nat, depth as nat),
        ensures
            *final(self) == old(self).inserted(
                x as nat,
                y as nat,
                z as nat,
                node,
                size as nat,
                depth as nat,
            ),
            old(self).fits(size as nat) && node.fits(size as nat / pow2(depth as nat))
                ==> final(self).fits(size as nat),
        decreases depth, (if *old(self) is Leaf { 1nat } else { 0nat }),
    {
        proof {
            if depth == 0 {
                lemma2_to64();
            } else if self.fits(size as nat) && node.fits(size as nat / pow2(depth as nat)) {
                self.lemma_inserted_fits(
                    x as nat,
                    y as nat,
                    z as nat,
                    node,
                    size as nat,
                    depth as nat,
                );
            }
        }
        if depth == 0 {
            *self = node;
            return ;
        }
        match self {
            Node::Branch { children } => {
                proof {
                    lemma_splits_halves(size as nat, depth as nat);
                }
                let half = size / 2;
                let index = octant_index(x, y, z, size);
                children[index].insert(x % half, y % half, z % half, node, half, depth - 1);
            },
            Node::Leaf(voxel) => {
                let voxel = *voxel;
                *self = Node::Branch {
                    children: Box::new(
                        [
                            Node::Leaf(voxel),
                            Node::Leaf(voxel),
                            Node::Leaf(voxel),
                            Node::Leaf(voxel),
                            Node::Leaf(voxel),
                            Node::Leaf(voxel),
                            Node::Leaf(voxel),
                            Node::Leaf(voxel),
                        ],
                    ),
                };
                self.insert(x, y, z, node, size, depth);
            },
        }
    }
}

impl Node {
    /// A full tree of depth `depth` fits every cube that splits `depth`
    /// times.
    pub proof fn lemma_full_fits(depth: nat, first: nat, size: nat)
        requires
            splits(size, depth),
        ensures
            Node::full(depth, first).fits(size),
        decreases depth,
    {
        if depth > 0 {
            let below = (depth - 1) as nat;
            let step = pow(8, below) as nat;
            let tree = Node::full(depth, first);
            lemma_splits_halves(size, depth);
            Node::lemma_full_fits(below, first, size / 2);
            Node::lemma_full_fits(below, first + step, size / 2);
            Node::lemma_full_fits(below, first + 2 * step, size / 2);
            Node::lemma_full_fits(below, first + 3 * step, size / 2);
            Node::lemma_full_fits(below, first + 4 * step, size / 2);
            Node::lemma_full_fits(below, first + 5 * step, size / 2);
            Node::lemma_full_fits(below, first + 6 * step, size / 2);
            Node::lemma_full_fits(below, first + 7 * step, size / 2);
            assert forall|i: int| 0 <= i < 8 implies (#[trigger] tree.child(i)).fits(size / 2) by {
                assert(i == 0 || i == 1 || i == 2 || i == 3 || i == 4 || i == 5 || i == 6 || i
                    == 7);
            }
        }
    }

    /// A node that fits a cube, wrapped, fits the cube of twice the side.
    pub proof fn lemma_wrapped_fits(self, size: nat)
        requires
            size > 0,
            self.fits(size),
        ensures
            self.wrapped().fits(2 * size),
    {
        assert forall|i: int| 0 <= i < 8 implies (#[trigger] self.wrapped().child(i)).fits(
            size,
        ) by {
            assert(i == 0 || i == 1 || i == 2 || i == 3 || i == 4 || i == 5 || i == 6 || i == 7);
        }
    }

    /// Insertion keeps a tree within its cube, provided that the inserted
    /// node fits the sub-cube it is written to.
    pub proof fn lemma_inserted_fits(
        self,
        x: nat,
        y: nat,
        z: nat,
        node: Node,
        size: nat,
        depth: nat,
    )
        requires
            splits(size, depth),
            self.fits(size),
            node.fits(size / pow2(depth)),
        ensures
            self.inserted(x, y, z, node, size, depth).fits(size),
        decreases depth,
    {
        if depth == 0 {
            assert(pow2(0) == 1) by {
                lemma2_to64();
            }
        } else {
            lemma_splits_halves(size, depth);
            let branch = self.subdivided();
            let half = size / 2;
            let i = octant(x, y, z, size);
            let below = branch.child(i).inserted(
                x % half,
                y % half,
                z % half,
                node,
                half,
                (depth - 1) as nat,
            );
            assert(branch.child(i).fits(half));
            branch.child(i).lemma_inserted_fits(
                x % half,
                y % half,
                z % half,
                node,
                half,
                (depth - 1) as nat,
            );
            let after = branch.with_child(i, below);
            assert forall|j: int| 0 <= j < 8 implies (#[trigger] after.child(j)).fits(half) by {
                if j != i {
                    assert(after.child(j) == branch.child(j));
                }
            }
        }
    }
}

} // verus!
