//! Expression trees and their token lists.

use vstd::prelude::*;
use crate::lexer::Traversal;
use crate::builder::{build, parse, refusal, TreeError};
use crate::token::{Priority, Token};

verus! {

/// A node of an expression tree together with everything below it.
#[derive(Debug, PartialEq, Eq)]
pub struct TreeNode {
    pub value: Token,
    pub left: Option<Box<TreeNode>>,
    pub right: Option<Box<TreeNode>>,
}

/// Whether `child`, standing below a node that holds `parent`, is put in
/// parentheses in an in-order token list: it has children of its own and
/// the parent binds strictly tighter.
pub open spec fn needs_parens(parent: Token, child: TreeNode) -> bool {
    !child.is_leaf() && parent.rank() > child.value.rank()
}

/// `inner` between a pair of parentheses.
pub open spec fn parenthesized(inner: Seq<Token>) -> Seq<Token> {
    seq![Token::LParen] + inner + seq![Token::RParen]
}

/// `value` alone if `here` holds, nothing otherwise.
pub open spec fn emit_if(here: bool, value: Token) -> Seq<Token> {
    if here {
        seq![value]
    } else {
        Seq::empty()
    }
}

/// What a child contributes to the token list of a node that holds `parent`:
/// nothing where there is no child, else the child's own list, which only
/// the in-order list puts in parentheses, and only where `needs_parens` holds.
pub open spec fn subtree_tokens(parent: Token, child: Option<Box<TreeNode>>, order: Traversal) -> Seq<
    Token,
>
    decreases child,
{
    match child {
        None => Seq::empty(),
        Some(c) => if order is In && needs_parens(parent, *c) {
            parenthesized(c.linearize(order))
        } else {
            c.linearize(order)
        },
    }
}

impl TreeNode {
    /// Whether the node has no children.
    pub open spec fn is_leaf(self) -> bool {
        self.left is None && self.right is None
    }

    /// The number of nodes.
    pub open spec fn size(self) -> nat
        decreases self,
    {
        1 + match self.left {
            Some(l) => l.size(),
            None => 0,
        } + match self.right {
            Some(r) => r.size(),
            None => 0,
        }
    }

    /// Whether the tree is an expression: numbers and variables are
    /// leaves, a prefix operator has a right child only, a binary operator
    /// has both children, and no node holds a parenthesis.
    pub open spec fn is_expression(self) -> bool
        decreases self,
    {
        match self.value {
            Token::Number(_) | Token::Var(_) => self.is_leaf(),
            Token::UnOp(_) => {
                &&& self.left is None
                &&& self.right matches Some(r)
                &&& r.is_expression()
            },
            Token::Op(_) => {
                &&& self.left matches Some(l)
                &&& l.is_expression()
                &&& self.right matches Some(r)
                &&& r.is_expression()
            },
            Token::LParen | Token::RParen => false,
        }
    }

    /// The token list of the tree in the order `order`.
    ///
    /// A leaf is its own token. Any other node stands before its children
    /// (`Pre`), between them (`In`) or after them (`Post`).
    pub open spec fn linearize(self, order: Traversal) -> Seq<Token>
        decreases self,
    {
        if self.is_leaf() {
            seq![self.value]
        } else {
            emit_if(order is Pre, self.value) + subtree_tokens(self.value, self.left, order)
                + emit_if(order is In, self.value) + subtree_tokens(self.value, self.right, order)
                + emit_if(order is Post, self.value)
        }
    }

    /// A node that holds `value` above the given children.
    pub fn new(value: Token, left: Option<TreeNode>, right: Option<TreeNode>) -> (node: TreeNode)
        ensures
            node.value == value,
            node.left == match left {
                Some(l) => Some(Box::new(l)),
                None => None,
            },
            node.right == match right {
                Some(r) => Some(Box::new(r)),
                None => None,
            },
    {
        let left = match left {
            Some(l) => Some(Box::new(l)),
            None => None,
        };
        let right = match right {
            Some(r) => Some(Box::new(r)),
            None => None,
        };
        TreeNode { value, left, right }
    }
}

/// The token list of a tree in an order is one list: whoever derives it
/// again has the same list.
pub proof fn lemma_linearize_again(tree: TreeNode, order: Traversal, first: Seq<Token>, second: Seq<Token>)
    requires
        first == tree.linearize(order),
        second == tree.linearize(order),
    ensures
        first == second,
{
}

/// Appends to `stack` the token list of the tree below `node` in the order
/// `order`.
#[verifier::rlimit(50)]
pub fn push_into_order(node: &TreeNode, stack: &mut Vec<Token>, order: Traversal)
    ensures
        final(stack)@ == old(stack)@ + node.linearize(order),
    decreases *node,
{
    // A leaf never stands in parentheses.
    if node.left.is_none() && node.right.is_none() {
        stack.push(node.value);
        return ;
    }
    let ghost before = stack@;
    let ghost head = emit_if(order is Pre, node.value);
    let ghost left = subtree_tokens(node.value, node.left, order);
    let ghost middle = emit_if(order is In, node.value);
    let ghost right = subtree_tokens(node.value, node.right, order);
    let ghost tail = emit_if(order is Post, node.value);
    if order == Traversal::Pre {
        stack.push(node.value);
    }
    assert(stack@ == before + head);
    push_subtree(node.value, &node.left, stack, order);
    if order == Traversal::In {
        stack.push(node.value);
    }
    assert(stack@ == before + head + left + middle);
    push_subtree(node.value, &node.right, stack, order);
    if order == Traversal::Post {
        stack.push(node.value);
    }
    assert(stack@ == before + head + left + middle + right + tail);
    assert(before + head + left + middle + right + tail == before + (head + left + middle + right
        + tail));
}

/// Appends to `stack` what `child` contributes to the token list of a node
/// that holds `parent`.
#[verifier::rlimit(50)]
fn push_subtree(parent: Token, child: &Option<Box<TreeNode>>, stack: &mut Vec<Token>, order: Traversal)
    ensures
        final(stack)@ == old(stack)@ + subtree_tokens(parent, *child, order),
    decreases *child,
{
    let ghost before = stack@;
    match child {
        Some(c) => {
            let ghost inner = c.linearize(order);
            if order == Traversal::In && !(c.left.is_none() && c.right.is_none())
                && parent.priority() > c.value.priority() {
                stack.push(Token::LParen);
                push_into_order(c, stack, order);
                stack.push(Token::RParen);
                assert(subtree_tokens(parent, *child, order) == parenthesized(inner));
                assert(stack@ == before + parenthesized(inner));
            } else {
                push_into_order(c, stack, order);
                assert(subtree_tokens(parent, *child, order) == inner);
            }
        },
        None => {
            assert(subtree_tokens(parent, *child, order) == Seq::<Token>::empty());
            assert(stack@ == before + Seq::<Token>::empty());
        },
    }
}

/// One node as a `Tree` holds it: its token, and the places of its children
/// among the nodes of the tree.
#[derive(Debug, Copy, Clone, PartialEq, Eq)]
pub struct Node {
    pub value: Token,
    pub left: Option<usize>,
    pub right: Option<usize>,
}

/// The number of nodes of the tree below `child`, none where there is no
/// child.
pub open spec fn size_of(child: Option<Box<TreeNode>>) -> nat {
    match child {
        Some(c) => c.size(),
        None => 0,
    }
}

/// The nodes of `tree` in a row that begins at the place `base`: those of
/// the left child, those of the right child, then the node itself. Each
/// child is the last node of its own part.
pub open spec fn layout(tree: TreeNode, base: int) -> Seq<Node>
    decreases tree,
{
    let left_end = base + size_of(tree.left);
    let right_end = left_end + size_of(tree.right);
    (match tree.left {
        Some(l) => layout(*l, base),
        None => Seq::empty(),
    }) + (match tree.right {
        Some(r) => layout(*r, left_end),
        None => Seq::empty(),
    }) + seq![
        Node {
            value: tree.value,
            left: if tree.left is Some {
                Some((left_end - 1) as usize)
            } else {
                None
            },
            right: if tree.right is Some {
                Some((right_end - 1) as usize)
            } else {
                None
            },
        },
    ]
}

/// The place that `child` names, where it is a place before `at`.
pub open spec fn child_before(child: Option<usize>, at: int) -> Option<int> {
    match child {
        Some(c) if c < at => Some(c as int),
        _ => None,
    }
}

/// The tree below the node at the place `at` of `nodes`.
pub open spec fn shape(nodes: Seq<Node>, at: int) -> TreeNode
    decreases at,
{
    if 0 <= at < nodes.len() {
        TreeNode {
            value: nodes[at].value,
            left: match child_before(nodes[at].left, at) {
                Some(l) => Some(Box::new(shape(nodes, l))),
                None => None,
            },
            right: match child_before(nodes[at].right, at) {
                Some(r) => Some(Box::new(shape(nodes, r))),
                None => None,
            },
        }
    } else {
        TreeNode { value: Token::LParen, left: None, right: None }
    }
}

/// A row holds as many nodes as the tree has.
pub proof fn lemma_layout_len(tree: TreeNode, base: int)
    ensures
        layout(tree, base).len() == tree.size(),
    decreases tree,
{
    if let Some(l) = tree.left {
        lemma_layout_len(*l, base);
    }
    if let Some(r) = tree.right {
        lemma_layout_len(*r, base + size_of(tree.left));
    }
}

/// The last node of a row is the root of its tree, and names the last
/// nodes of the rows of its children.
pub proof fn lemma_layout_last(tree: TreeNode, base: int)
    ensures
        layout(tree, base).len() == tree.size(),
        layout(tree, base).last() == (Node {
            value: tree.value,
            left: if tree.left is Some {
                Some((base + size_of(tree.left) - 1) as usize)
            } else {
                None
            },
            right: if tree.right is Some {
                Some((base + size_of(tree.left) + size_of(tree.right) - 1) as usize)
            } else {
                None
            },
        }),
        tree.left matches Some(l) ==> layout(tree, base).subrange(0, l.size() as int) == layout(
            *l,
            base,
        ),
        tree.right matches Some(r) ==> layout(tree, base).subrange(
            size_of(tree.left) as int,
            (size_of(tree.left) + r.size()) as int,
        ) == layout(*r, base + size_of(tree.left)),
{
    lemma_layout_len(tree, base);
    if let Some(l) = tree.left {
        lemma_layout_len(*l, base);
        assert(layout(tree, base).subrange(0, l.size() as int) =~= layout(*l, base));
    }
    if let Some(r) = tree.right {
        lemma_layout_len(*r, base + size_of(tree.left));
        assert(layout(tree, base).subrange(
            size_of(tree.left) as int,
            (size_of(tree.left) + r.size()) as int,
        ) =~= layout(*r, base + size_of(tree.left)));
    }
}

/// The children that the node at the place `k` of a row names stand inside
/// the row and before that node.
#[verifier::rlimit(50)]
pub proof fn lemma_layout_children(tree: TreeNode, base: int, k: int)
    requires
        0 <= base,
        base + tree.size() <= usize::MAX,
        0 <= k < tree.size(),
    ensures
        layout(tree, base)[k].left matches Some(l) ==> base <= l < base + k,
        layout(tree, base)[k].right matches Some(r) ==> base <= r < base + k,
    decreases tree,
{
    lemma_layout_last(tree, base);
    let row = layout(tree, base);
    let left_size = size_of(tree.left) as int;
    if k < left_size {
        let l = tree.left.unwrap();
        assert(row[k] == row.subrange(0, left_size)[k]);
        lemma_layout_children(*l, base, k);
    } else if k < left_size + size_of(tree.right) {
        let r = tree.right.unwrap();
        assert(row[k] == row.subrange(left_size, (left_size + r.size()) as int)[k - left_size]);
        lemma_layout_children(*r, base + left_size, k - left_size);
    } else {
        assert(row[k] == row.last());
    }
}

/// Where the nodes of `all` from the place `base` on are the row of `tree`,
/// the last of them has `tree` below it.
#[verifier::rlimit(50)]
pub proof fn lemma_layout_shape(all: Seq<Node>, tree: TreeNode, base: int)
    requires
        0 <= base,
        base + tree.size() <= all.len(),
        all.len() <= usize::MAX,
        all.subrange(base, base + tree.size()) == layout(tree, base),
    ensures
        shape(all, base + tree.size() - 1) == tree,
    decreases tree,
{
    lemma_layout_last(tree, base);
    let row = layout(tree, base);
    let left_size = size_of(tree.left) as int;
    let right_size = size_of(tree.right) as int;
    let top = base + left_size + right_size;
    assert(all[top] == row[top - base]);
    assert(row[top - base] == row.last());
    if let Some(l) = tree.left {
        lemma_subrange_twice(all, base, base + tree.size(), 0, left_size);
        lemma_layout_shape(all, *l, base);
    }
    if let Some(r) = tree.right {
        lemma_subrange_twice(all, base, base + tree.size(), left_size, left_size + right_size);
        lemma_layout_shape(all, *r, base + left_size);
    }
}

/// Every node of a row is the last node of the row of the tree below it.
#[verifier::rlimit(50)]
pub proof fn lemma_layout_rows(all: Seq<Node>, tree: TreeNode, base: int, k: int)
    requires
        0 <= base,
        base + tree.size() <= all.len(),
        all.len() <= usize::MAX,
        all.subrange(base, base + tree.size()) == layout(tree, base),
        0 <= k < tree.size(),
    ensures
        base <= base + k + 1 - shape(all, base + k).size(),
        all.subrange(base + k + 1 - shape(all, base + k).size(), base + k + 1) == layout(
            shape(all, base + k),
            base + k + 1 - shape(all, base + k).size(),
        ),
    decreases tree,
{
    lemma_layout_last(tree, base);
    let row = layout(tree, base);
    let left_size = size_of(tree.left) as int;
    let right_size = size_of(tree.right) as int;
    if k < left_size {
        let left = *tree.left.unwrap();
        lemma_subrange_twice(all, base, base + tree.size(), 0, left_size);
        assert(all.subrange(base, base + left_size) == layout(left, base));
        lemma_layout_rows(all, left, base, k);
    } else if k < left_size + right_size {
        let right = *tree.right.unwrap();
        lemma_subrange_twice(all, base, base + tree.size(), left_size, left_size + right_size);
        assert(all.subrange(base + left_size, base + left_size + right_size) == layout(
            right,
            base + left_size,
        ));
        lemma_layout_rows(all, right, base + left_size, k - left_size);
    } else {
        lemma_layout_shape(all, tree, base);
    }
}

/// A part of a part of a row is a part of the row.
proof fn lemma_subrange_twice(all: Seq<Node>, from: int, to: int, inner_from: int, inner_to: int)
    requires
        0 <= from <= to <= all.len(),
        0 <= inner_from <= inner_to <= to - from,
    ensures
        all.subrange(from, to).subrange(inner_from, inner_to) == all.subrange(
            from + inner_from,
            from + inner_to,
        ),
{
}

/// In the row of a tree, a node holds the token of the root of the tree
/// below it, its right child stands directly before it, and its left child
/// directly before the tree below the right child.
#[verifier::rlimit(50)]
pub proof fn lemma_row_node(all: Seq<Node>, at: int)
    requires
        0 <= at < all.len() <= usize::MAX,
        all == layout(shape(all, all.len() - 1), 0),
    ensures
        all[at].value == shape(all, at).value,
        shape(all, at).size() <= at + 1,
        match all[at].right {
            Some(r) => r == at - 1 && shape(all, at).right == Some(Box::new(shape(all, r as int))),
            None => shape(all, at).right is None,
        },
        match all[at].left {
            Some(l) => l == at - 1 - size_of(shape(all, at).right) && shape(all, at).left == Some(
                Box::new(shape(all, l as int)),
            ),
            None => shape(all, at).left is None,
        },
{
    let whole = shape(all, all.len() - 1);
    lemma_layout_len(whole, 0);
    assert(all.subrange(0, whole.size() as int) == all);
    lemma_layout_children(whole, 0, at);
    lemma_layout_rows(all, whole, 0, at);
    let below = shape(all, at);
    let base = at + 1 - below.size();
    lemma_layout_last(below, base);
    assert(all[at] == all.subrange(base, at + 1)[below.size() - 1]);
    assert(all[at] == layout(below, base).last());
}

/// An expression tree whose nodes are kept in one row and are known by
/// their places in it.
///
/// The row is the one that `layout` gives, so two trees are equal exactly
/// when they are the same expression, and the place of a node is its
/// identifier: no two nodes share one, and the root has the last.
#[derive(Debug)]
pub struct Tree {
    pub(crate) nodes: Vec<Node>,
}

impl View for Tree {
    type V = TreeNode;

    /// The tree as a value: the root with everything below it.
    closed spec fn view(&self) -> TreeNode {
        shape(self.nodes@, self.nodes@.len() - 1)
    }
}

/// Whether the two places are the same: both none, or both the same one.
fn same_place(a: Option<usize>, b: Option<usize>) -> (same: bool)
    ensures
        same == (a == b),
{
    match (a, b) {
        (Some(x), Some(y)) => x == y,
        (None, None) => true,
        _ => false,
    }
}

/// Whether the two nodes hold the same token and name the same children.
fn same_node(a: &Node, b: &Node) -> (same: bool)
    ensures
        same == (*a == *b),
{
    a.value == b.value && same_place(a.left, b.left) && same_place(a.right, b.right)
}

/// Appends to `nodes` the row of the tree below `node`.
fn lay_out(node: &TreeNode, nodes: &mut Vec<Node>)
    ensures
        final(nodes)@ == old(nodes)@ + layout(*node, old(nodes)@.len() as int),
    decreases *node,
{
    let ghost before = nodes@;
    let ghost base = nodes@.len() as int;
    proof {
        lemma_layout_len(*node, base);
    }
    let left = match &node.left {
        Some(l) => {
            proof {
                lemma_layout_len(**l, base);
            }
            lay_out(l, nodes);
            Some(nodes.len() - 1)
        },
        None => None,
    };
    let ghost left_end = nodes@.len() as int;
    let right = match &node.right {
        Some(r) => {
            proof {
                lemma_layout_len(**r, left_end);
            }
            lay_out(r, nodes);
            Some(nodes.len() - 1)
        },
        None => None,
    };
    nodes.push(Node { value: node.value, left, right });
    assert(nodes@ =~= before + layout(*node, base));
}

impl Tree {
    #[verifier::type_invariant]
    closed spec fn is_row(&self) -> bool {
        &&& self.nodes@.len() > 0
        &&& self.nodes@ == layout(shape(self.nodes@, self.nodes@.len() - 1), 0)
    }

    /// The number of nodes. The identifiers are the numbers below it.
    pub closed spec fn len(&self) -> nat {
        self.nodes@.len()
    }

    /// The tree below the node with the identifier `id`.
    pub closed spec fn subtree(&self, id: int) -> TreeNode {
        shape(self.nodes@, id)
    }

    /// The tree whose root is `root`.
    pub fn new(root: TreeNode) -> (tree: Tree)
        ensures
            tree@ == root,
    {
        Tree::copy_of(&root)
    }

    /// The tree whose root is a copy of `root`.
    pub fn copy_of(root: &TreeNode) -> (tree: Tree)
        ensures
            tree@ == *root,
    {
        let mut nodes: Vec<Node> = Vec::new();
        lay_out(root, &mut nodes);
        proof {
            assert(nodes@.len() == nodes.len());
            lemma_layout_len(*root, 0);
            assert(nodes@ =~= layout(*root, 0));
            assert(nodes@.subrange(0, root.size() as int) =~= nodes@);
            lemma_layout_shape(nodes@, *root, 0);
        }
        Tree { nodes }
    }

    /// Whether the two trees are the same expression.
    pub fn same_as(&self, other: &Tree) -> (same: bool)
        ensures
            same == (self@ == other@),
    {
        proof {
            use_type_invariant(self);
            use_type_invariant(other);
        }
        if self.nodes.len() != other.nodes.len() {
            return false;
        }
        let mut at: usize = 0;
        while at < self.nodes.len()
            invariant
                at <= self.nodes.len(),
                self.nodes.len() == other.nodes.len(),
                self@ == other@ ==> self.nodes@ == other.nodes@,
                forall|i: int| 0 <= i < at ==> self.nodes@[i] == other.nodes@[i],
            decreases self.nodes.len() - at,
        {
            if !same_node(&self.nodes[at], &other.nodes[at]) {
                return false;
            }
            at += 1;
        }
        assert(self.nodes@ =~= other.nodes@);
        true
    }

    /// The identifier of the root: the last one. The whole tree is the tree
    /// below it, and has as many nodes as there are identifiers.
    pub fn root_id(&self) -> (id: usize)
        ensures
            id == self.len() - 1,
            self@ == self.subtree(id as int),
            self@.size() == self.len(),
    {
        proof {
            use_type_invariant(self);
            lemma_layout_len(self@, 0);
        }
        self.nodes.len() - 1
    }

    /// The node with the identifier `id`, if there is one. The tree below
    /// its right child ends directly before the node, the tree below its
    /// left child directly before that one.
    #[verifier::rlimit(50)]
    pub fn node(&self, id: usize) -> (found: Option<Node>)
        ensures
            id >= self.len() ==> found is None,
            id < self.len() ==> (found matches Some(node) && {
                let below = self.subtree(id as int);
                &&& node.value == below.value
                &&& below.size() <= id + 1
                &&& match node.right {
                    Some(r) => r == id - 1 && below.right == Some(
                        Box::new(self.subtree(r as int)),
                    ),
                    None => below.right is None,
                }
                &&& match node.left {
                    Some(l) => l == id - 1 - size_of(below.right) && below.left == Some(
                        Box::new(self.subtree(l as int)),
                    ),
                    None => below.left is None,
                }
            }),
    {
        if id >= self.nodes.len() {
            return None;
        }
        proof {
            use_type_invariant(self);
            lemma_row_node(self.nodes@, id as int);
        }
        Some(self.nodes[id])
    }

    /// A copy of the tree below the node with the identifier `id`.
    fn copy_below(&self, id: usize) -> (copy: TreeNode)
        requires
            id < self.len(),
        ensures
            copy == self.subtree(id as int),
        decreases id,
    {
        let node = self.node(id).unwrap();
        let left = match node.left {
            Some(l) => Some(self.copy_below(l)),
            None => None,
        };
        let right = match node.right {
            Some(r) => Some(self.copy_below(r)),
            None => None,
        };
        TreeNode::new(node.value, left, right)
    }

    /// A copy of the tree below the node with the identifier `id`, if there
    /// is such a node.
    pub fn get_by_id(&self, id: usize) -> (found: Option<TreeNode>)
        ensures
            found == if id < self.len() {
                Some(self.subtree(id as int))
            } else {
                None
            },
    {
        if id <= self.root_id() {
            Some(self.copy_below(id))
        } else {
            None
        }
    }

    /// A copy of the root with everything below it.
    pub fn get_root_clone(&self) -> (root: TreeNode)
        ensures
            root == self@,
    {
        self.copy_below(self.root_id())
    }

    /// Appends to `stack` the token list of the tree below the node with the
    /// identifier `id`.
    #[verifier::rlimit(50)]
    fn push_below(&self, id: usize, stack: &mut Vec<Token>, order: Traversal)
        requires
            id < self.len(),
        ensures
            final(stack)@ == old(stack)@ + self.subtree(id as int).linearize(order),
        decreases id, 1int,
    {
        let node = self.node(id).unwrap();
        if node.left.is_none() && node.right.is_none() {
            stack.push(node.value);
            return ;
        }
        let ghost below = self.subtree(id as int);
        let ghost before = stack@;
        let ghost head = emit_if(order is Pre, node.value);
        let ghost left = subtree_tokens(node.value, below.left, order);
        let ghost middle = emit_if(order is In, node.value);
        let ghost right = subtree_tokens(node.value, below.right, order);
        let ghost tail = emit_if(order is Post, node.value);
        if order == Traversal::Pre {
            stack.push(node.value);
        }
        assert(stack@ == before + head);
        self.push_child(id, node.left, stack, order);
        if order == Traversal::In {
            stack.push(node.value);
        }
        assert(stack@ == before + head + left + middle);
        self.push_child(id, node.right, stack, order);
        if order == Traversal::Post {
            stack.push(node.value);
        }
        assert(stack@ == before + head + left + middle + right + tail);
        assert(before + head + left + middle + right + tail == before + (head + left + middle
            + right + tail));
    }

    /// Appends to `stack` what the child at `child` contributes to the token
    /// list of the node with the identifier `id`.
    #[verifier::rlimit(50)]
    fn push_child(&self, id: usize, child: Option<usize>, stack: &mut Vec<Token>, order: Traversal)
        requires
            id < self.len(),
            child matches Some(c) ==> c < id,
        ensures
            final(stack)@ == old(stack)@ + subtree_tokens(
                self.subtree(id as int).value,
                match child {
                    Some(c) => Some(Box::new(self.subtree(c as int))),
                    None => None,
                },
                order,
            ),
        decreases id, 0int,
    {
        let ghost before = stack@;
        if let Some(c) = child {
            let parent = self.node(id).unwrap().value;
            let below = self.node(c).unwrap();
            if order == Traversal::In && !(below.left.is_none() && below.right.is_none())
                && parent.priority() > below.value.priority() {
                stack.push(Token::LParen);
                self.push_below(c, stack, order);
                stack.push(Token::RParen);
            } else {
                self.push_below(c, stack, order);
            }
            assert(stack@ =~= before + subtree_tokens(
                parent,
                Some(Box::new(self.subtree(c as int))),
                order,
            ));
        } else {
            assert(stack@ =~= before + Seq::<Token>::empty());
        }
    }

    /// The token list of the tree in the order `order`.
    pub fn create_vec(&self, order: Traversal) -> (list: Vec<Token>)
        ensures
            list@ == self@.linearize(order),
    {
        let mut stack: Vec<Token> = Vec::new();
        self.push_below(self.root_id(), &mut stack, order);
        assert(stack@ =~= self@.linearize(order));
        stack
    }

    /// The expression tree of an in-order token list, or why the list is no
    /// expression: what `parse` says.
    pub fn new_pre_from_in(in_order: Vec<Token>) -> (res: Result<Tree, TreeError>)
        ensures
            match parse(in_order@) {
                Ok(root) => res matches Ok(tree) && tree@ == root,
                Err(e) => res matches Err(refusal) && refusal == e,
            },
            match refusal(in_order@) {
                Some(e) => res matches Err(refused) && refused == e,
                None => res matches Ok(tree) && tree@.is_expression(),
            },
    {
        match build(&in_order) {
            Ok(root) => Ok(Tree::new(root)),
            Err(e) => Err(e),
        }
    }
}

} // verus!
