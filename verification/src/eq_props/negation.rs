//! Double negation: a negation applied to a negation.

use vstd::prelude::*;
use crate::token::{Token, UnaryOperator};
use crate::tree::{size_of, Tree, TreeNode};

verus! {

/// Whether a node that holds `value` above a right child that holds `below`
/// is a double negation: both are negations.
pub open spec fn negation_twice(value: Token, below: Option<Token>) -> bool {
    value == Token::UnOp(UnaryOperator::Negation) && below == Some(
        Token::UnOp(UnaryOperator::Negation),
    )
}

/// The token of the root of `child`, if there is a child.
pub open spec fn value_of(child: Option<Box<TreeNode>>) -> Option<Token> {
    match child {
        Some(c) => Some(c.value),
        None => None,
    }
}

/// The place, in the row of `tree`, of the first double negation that a
/// search finds which looks at a node, then below its right child, then
/// below its left child; `None` where the tree holds no double negation.
pub open spec fn first_double_negation(tree: TreeNode) -> Option<nat>
    decreases tree,
{
    if negation_twice(tree.value, value_of(tree.right)) {
        Some((tree.size() - 1) as nat)
    } else {
        let on_right = match tree.right {
            Some(r) => first_double_negation(*r),
            None => None,
        };
        let on_left = match tree.left {
            Some(l) => first_double_negation(*l),
            None => None,
        };
        match on_right {
            Some(place) => Some(size_of(tree.left) + place),
            None => on_left,
        }
    }
}

/// Whether a double negation stands anywhere in `tree`.
pub open spec fn has_double_negation(tree: TreeNode) -> bool
    decreases tree,
{
    ||| negation_twice(tree.value, value_of(tree.right))
    ||| tree.right matches Some(r) && has_double_negation(*r)
    ||| tree.left matches Some(l) && has_double_negation(*l)
}

/// The search finds a double negation exactly where the tree holds one, and
/// what it finds is a place of the tree.
pub proof fn lemma_first_double_negation(tree: TreeNode)
    ensures
        first_double_negation(tree) is Some <==> has_double_negation(tree),
        first_double_negation(tree) matches Some(place) ==> place < tree.size(),
    decreases tree,
{
    if let Some(r) = tree.right {
        lemma_first_double_negation(*r);
    }
    if let Some(l) = tree.left {
        lemma_first_double_negation(*l);
    }
}

/// What can be asked of a node about double negation.
pub trait Negation {
    /// Whether the node is a negation whose right child is a negation.
    spec fn double_negation(&self) -> bool;

    /// The identifier of the first double negation at or below the node.
    spec fn first_place(&self) -> Option<nat>;

    fn is_double_neg(&self) -> (b: bool)
        ensures
            b == self.double_negation(),
    ;

    fn neg_id_first(&self) -> (id: Option<usize>)
        ensures
            match self.first_place() {
                Some(place) => id matches Some(found) && found == place,
                None => id is None,
            },
    ;
}

impl Negation for TreeNode {
    open spec fn double_negation(&self) -> bool {
        negation_twice(self.value, value_of(self.right))
    }

    open spec fn first_place(&self) -> Option<nat> {
        first_double_negation(*self)
    }

    /// Whether the node is a negation whose right child is a negation too.
    fn is_double_neg(&self) -> (b: bool) {
        match &self.right {
            Some(right) => self.value == Token::UnOp(UnaryOperator::Negation) && right.value
                == Token::UnOp(UnaryOperator::Negation),
            None => false,
        }
    }

    /// The identifier that the first double negation at or below this node
    /// has in the tree whose root this node is.
    fn neg_id_first(&self) -> (id: Option<usize>) {
        Tree::copy_of(self).neg_id_first()
    }
}

impl Tree {
    /// The first double negation at or below the node with the identifier
    /// `id`: the node itself, else the first below its right child, else the
    /// first below its left child.
    fn first_below(&self, id: usize) -> (found: Option<usize>)
        requires
            id < self.len(),
        ensures
            match first_double_negation(self.subtree(id as int)) {
                Some(place) => found matches Some(at) && at == id + 1 - self.subtree(
                    id as int,
                ).size() + place,
                None => found is None,
            },
            found matches Some(at) ==> at <= id && self.subtree(at as int).double_negation(),
        decreases id,
    {
        let node = self.node(id).unwrap();
        let ghost below = self.subtree(id as int);
        proof {
            lemma_first_double_negation(below);
        }
        if let Some(r) = node.right {
            let right = self.node(r).unwrap();
            if node.value == Token::UnOp(UnaryOperator::Negation) && right.value == Token::UnOp(
                UnaryOperator::Negation,
            ) {
                return Some(id);
            }
            let on_right = self.first_below(r);
            if on_right.is_some() {
                return on_right;
            }
        }
        match node.left {
            Some(l) => self.first_below(l),
            None => None,
        }
    }

    /// Whether the node with the identifier `id` is a double negation.
    pub fn is_double_neg(&self, id: usize) -> (b: bool)
        ensures
            b == (id < self.len() && self.subtree(id as int).double_negation()),
    {
        match self.node(id) {
            Some(node) => match node.right {
                Some(r) => node.value == Token::UnOp(UnaryOperator::Negation) && self.node(
                    r,
                ).unwrap().value == Token::UnOp(UnaryOperator::Negation),
                None => false,
            },
            None => false,
        }
    }

    /// The identifier of the first double negation in the tree: the root
    /// if it is one, else the first below its right child, else the first
    /// below its left child. `None` exactly where the tree holds no double
    /// negation.
    pub fn neg_id_first(&self) -> (id: Option<usize>)
        ensures
            match first_double_negation(self@) {
                Some(place) => id matches Some(found) && found == place,
                None => id is None,
            },
            id is Some <==> has_double_negation(self@),
            id matches Some(found) ==> found < self.len() && self.subtree(
                found as int,
            ).double_negation(),
    {
        let root = self.root_id();
        proof {
            lemma_first_double_negation(self@);
        }
        self.first_below(root)
    }
}

} // verus!
