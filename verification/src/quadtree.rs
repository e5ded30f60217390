//! A quadtree over points of the plane. Only the empty tree can be made so
//! far.

use vstd::prelude::*;

verus! {

/// Anything that has a place in the plane.
pub trait Cartesian {
    /// The horizontal coordinate.
    fn get_x(&self) -> i32;

    /// The vertical coordinate.
    fn get_y(&self) -> i32;
}

/// A node of the tree: nothing, one item, or four quadrants.
pub enum Node<T: Cartesian> {
    Empty,
    Object(T),
    Node(Box<Node<T>>, Box<Node<T>>, Box<Node<T>>, Box<Node<T>>),
}

/// A quadtree of items of type `T`.
pub struct QuadTree<T: Cartesian> {
    pub root: Node<T>,
}

impl<T: Cartesian> QuadTree<T> {
    /// A tree without items.
    pub fn new() -> (tree: QuadTree<T>)
        ensures
            tree.root is Empty,
    {
        QuadTree { root: Node::Empty }
    }
}

} // verus!
