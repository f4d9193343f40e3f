use vstd::prelude::*;

verus! {

/// What a parse-tree node carries: the index of one token, or the indices of
/// several tokens gathered by flattening.
#[derive(Debug, Clone, PartialEq, Eq)]
pub enum NodeValue {
    Token(usize),
    Tokens(Vec<usize>),
}

/// A node of a parse tree: an optional value and the nodes below it, in order.
/// Token values are not copied into the tree: a node refers to a token by its
/// index in the token stream that was parsed.
#[derive(Debug)]
pub struct Node {
    pub value: Option<NodeValue>,
    pub children: Vec<Node>,
}

/// A node value as a mathematical value.
pub enum ValueView {
    One(usize),
    Many(Seq<usize>),
}

/// A parse tree as a mathematical value.
pub enum Tree {
    Branch(Option<ValueView>, Seq<Tree>),
}

/// A node value seen as a mathematical value.
pub open spec fn value_view(v: Option<NodeValue>) -> Option<ValueView> {
    match v {
        Some(NodeValue::Token(i)) => Some(ValueView::One(i)),
        Some(NodeValue::Tokens(is)) => Some(ValueView::Many(is@)),
        None => None,
    }
}

/// The tree with no value and no children.
pub open spec fn empty_tree() -> Tree {
    Tree::Branch(None, Seq::empty())
}

/// A node seen as a tree.
pub open spec fn tree_of(n: Node) -> Tree
    decreases n,
{
    Tree::Branch(
        value_view(n.value),
        Seq::new(
            n.children@.len(),
            |i: int|
                if 0 <= i < n.children@.len() {
                    tree_of(n.children@[i])
                } else {
                    empty_tree()
                },
        ),
    )
}

/// The trees of a list of nodes.
pub open spec fn trees_of(ns: Seq<Node>) -> Seq<Tree> {
    ns.map_values(|n: Node| tree_of(n))
}

/// A node with `children`, seen as a tree.
pub proof fn lemma_tree_of_children(n: Node)
    ensures
        tree_of(n) == Tree::Branch(value_view(n.value), trees_of(n.children@)),
{
    assert(tree_of(n)->Branch_1 =~= trees_of(n.children@));
}

impl Node {
    /// The node with no value and no children.
    pub fn empty() -> (r: Node)
        ensures
            tree_of(r) == empty_tree(),
    {
        let r = Node { value: None, children: Vec::new() };
        assert(tree_of(r)->Branch_1 =~= Seq::<Tree>::empty());
        r
    }

    /// A node without a value over `children`.
    pub fn branch(children: Vec<Node>) -> (r: Node)
        ensures
            tree_of(r) == Tree::Branch(None, trees_of(children@)),
    {
        let r = Node { value: None, children };
        proof {
            lemma_tree_of_children(r);
        }
        r
    }

    /// A leaf that refers to the token at `index`.
    pub fn leaf(value: NodeValue) -> (r: Node)
        ensures
            tree_of(r) == Tree::Branch(value_view(Some(value)), Seq::empty()),
    {
        let r = Node { value: Some(value), children: Vec::new() };
        assert(tree_of(r)->Branch_1 =~= Seq::<Tree>::empty());
        r
    }

    /// Takes the node out, leaving the empty node in its place.
    pub fn take(&mut self) -> (r: Node)
        ensures
            r == *old(self),
            tree_of(*final(self)) == empty_tree(),
    {
        let mut r = Node::empty();
        std::mem::swap(self, &mut r);
        r
    }

    /// The nodes below this one, in order.
    pub fn children(&self) -> (r: &Vec<Node>)
        ensures
            r == self.children,
    {
        &self.children
    }
}

} // verus!
