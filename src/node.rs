use vstd::prelude::*;
use vstd::string::StringExecFns;

verus! {

/// A snippet node as the matcher sees it: literal text, or a placeholder or
/// variable whose default content is a sequence of nodes.
#[derive(Debug, PartialEq, Eq)]
pub enum Node {
    Variable(NodeVariable),
    Placeholder(NodePlaceholder),
    Text(NodeText),
}

#[derive(Debug, PartialEq, Eq)]
pub struct NodeText {
    pub value: String,
}

#[derive(Debug, PartialEq, Eq)]
pub struct NodePlaceholder {
    pub children: Vec<Node>,
}

#[derive(Debug, PartialEq, Eq)]
pub struct NodeVariable {
    pub children: Vec<Node>,
}

/// The mathematical value of a `Node`.
pub enum NodeModel {
    Variable(Seq<NodeModel>),
    Placeholder(Seq<NodeModel>),
    Text(Seq<char>),
}

pub open spec fn node_model(n: Node) -> NodeModel
    decreases n,
{
    match n {
        Node::Variable(v) => NodeModel::Variable(node_models(v.children@)),
        Node::Placeholder(p) => NodeModel::Placeholder(node_models(p.children@)),
        Node::Text(t) => NodeModel::Text(t.value@),
    }
}

pub open spec fn node_models(s: Seq<Node>) -> Seq<NodeModel>
    decreases s,
{
    if s.len() == 0 {
        Seq::empty()
    } else {
        node_models(s.drop_last()).push(node_model(s.last()))
    }
}

impl View for Node {
    type V = NodeModel;

    open spec fn view(&self) -> NodeModel {
        node_model(*self)
    }
}

/// The literal text of a node: a text's value, or the literal text of the
/// children of a placeholder or variable.
pub open spec fn literal(n: NodeModel) -> Seq<char>
    decreases n,
{
    match n {
        NodeModel::Variable(c) => literal_all(c),
        NodeModel::Placeholder(c) => literal_all(c),
        NodeModel::Text(v) => v,
    }
}

/// The literal texts of `s`, one after the other.
pub open spec fn literal_all(s: Seq<NodeModel>) -> Seq<char>
    decreases s,
{
    if s.len() == 0 {
        Seq::empty()
    } else {
        literal_all(s.drop_last()) + literal(s.last())
    }
}

pub proof fn lemma_node_models(s: Seq<Node>)
    ensures
        node_models(s).len() == s.len(),
        forall|i: int| 0 <= i < s.len() ==> #[trigger] node_models(s)[i] == s[i]@,
    decreases s.len(),
{
    if s.len() > 0 {
        lemma_node_models(s.drop_last());
    }
}

/// The models of a part of `s` are that part of the models of `s`.
pub proof fn lemma_node_models_subrange(s: Seq<Node>, lo: int, hi: int)
    requires
        0 <= lo <= hi <= s.len(),
    ensures
        node_models(s.subrange(lo, hi)) == node_models(s).subrange(lo, hi),
{
    lemma_node_models(s);
    lemma_node_models(s.subrange(lo, hi));
    assert(node_models(s.subrange(lo, hi)) =~= node_models(s).subrange(lo, hi));
}

pub proof fn lemma_node_models_push(s: Seq<Node>, n: Node)
    ensures
        node_models(s.push(n)) == node_models(s).push(n@),
{
    assert(s.push(n).drop_last() == s);
}

pub proof fn lemma_literal_all_push(s: Seq<NodeModel>, n: NodeModel)
    ensures
        literal_all(s.push(n)) == literal_all(s) + literal(n),
{
    assert(s.push(n).drop_last() == s);
}

impl Node {
    /// Whether the node is a text.
    pub fn is_text(&self) -> (r: bool)
        ensures
            r == (self@ is Text),
    {
        match self {
            Node::Text(_) => true,
            _ => false,
        }
    }

    /// A copy of the node, children included.
    pub fn duplicate(&self) -> (r: Node)
        ensures
            r@ == self@,
        decreases self,
    {
        match self {
            Node::Text(t) => Node::Text(NodeText { value: t.value.clone() }),
            Node::Placeholder(p) => Node::Placeholder(
                NodePlaceholder { children: duplicate_all(&p.children) },
            ),
            Node::Variable(v) => Node::Variable(NodeVariable { children: duplicate_all(&v.children) }),
        }
    }
}

/// A copy of each node of `nodes`.
pub fn duplicate_all(nodes: &Vec<Node>) -> (r: Vec<Node>)
    ensures
        node_models(r@) == node_models(nodes@),
    decreases nodes,
{
    let mut r: Vec<Node> = Vec::new();
    let mut i: usize = 0;
    while i < nodes.len()
        invariant
            i <= nodes@.len(),
            node_models(r@) == node_models(nodes@.subrange(0, i as int)),
        decreases nodes@.len() - i,
    {
        let n = nodes[i].duplicate();
        proof {
            lemma_node_models_push(r@, n);
            lemma_node_models_push(nodes@.subrange(0, i as int), nodes@[i as int]);
            assert(nodes@.subrange(0, i + 1) == nodes@.subrange(0, i as int).push(nodes@[i as int]));
        }
        r.push(n);
        i += 1;
    }
    assert(nodes@.subrange(0, i as int) == nodes@);
    r
}

/// The literal text of `node`.
pub fn text(node: &Node) -> (r: String)
    ensures
        r@ == literal(node@),
    decreases node,
{
    match node {
        Node::Text(t) => t.value.clone(),
        Node::Variable(v) => text_all(&v.children),
        Node::Placeholder(p) => text_all(&p.children),
    }
}

/// The literal texts of `nodes`, one after the other.
pub fn text_all(nodes: &Vec<Node>) -> (r: String)
    ensures
        r@ == literal_all(node_models(nodes@)),
    decreases nodes,
{
    let mut r = String::new();
    let mut i: usize = 0;
    while i < nodes.len()
        invariant
            i <= nodes@.len(),
            r@ == literal_all(node_models(nodes@.subrange(0, i as int))),
        decreases nodes@.len() - i,
    {
        let piece = text(&nodes[i]);
        proof {
            lemma_node_models_push(nodes@.subrange(0, i as int), nodes@[i as int]);
            lemma_literal_all_push(node_models(nodes@.subrange(0, i as int)), nodes@[i as int]@);
            assert(nodes@.subrange(0, i + 1) == nodes@.subrange(0, i as int).push(nodes@[i as int]));
        }
        r.append(piece.as_str());
        i += 1;
    }
    assert(nodes@.subrange(0, i as int) == nodes@);
    r
}

} // verus!
