use vstd::prelude::*;

use crate::grammar::{
    any_node, at, choice, digit_end, digits, is_escapable, is_stop, items, parse_template,
    placeholder, run, tab_stop_or_var, text_run, variable, AnyModel, BindingModel,
    TextMode,
};
use crate::node::{
    lemma_node_models_push, literal, literal_all, node_models, Node,
    NodeModel, NodePlaceholder, NodeText, NodeVariable,
};
use crate::vs_snippet::{any_models, lemma_any_models_push, Any, V};

verus! {

/// The node that the matcher sees for a template node: tab stops and choices
/// become empty placeholders, a variable keeps only nodes it is bound to.
pub open spec fn reduce_one(a: AnyModel) -> NodeModel
    decreases a,
{
    match a {
        AnyModel::TabStop(_) => NodeModel::Placeholder(Seq::empty()),
        AnyModel::Placeholder(_, ch) => NodeModel::Placeholder(reduce_all(ch)),
        AnyModel::Choice(_, _) => NodeModel::Placeholder(Seq::empty()),
        AnyModel::Variable(_, b) => match b {
            BindingModel::Nodes(ch) => NodeModel::Variable(reduce_all(ch)),
            _ => NodeModel::Variable(Seq::empty()),
        },
        AnyModel::Text(t) => NodeModel::Text(t),
    }
}

/// `reduce_one` of each node of `s`.
pub open spec fn reduce_all(s: Seq<AnyModel>) -> Seq<NodeModel>
    decreases s,
{
    if s.len() == 0 {
        Seq::empty()
    } else {
        reduce_all(s.drop_last()).push(reduce_one(s.last()))
    }
}

/// The matcher's node for the template node `a`.
pub fn reduce_node(a: &Any) -> (r: Node)
    ensures
        r@ == reduce_one(a@),
    decreases a,
{
    match a {
        Any::TabStop(_) => Node::Placeholder(NodePlaceholder { children: Vec::new() }),
        Any::Placeholder(_, ch) => Node::Placeholder(NodePlaceholder { children: reduce(ch) }),
        Any::Choice(_, _) => Node::Placeholder(NodePlaceholder { children: Vec::new() }),
        Any::Variable(_, b) => match b {
            V::Any(ch) => Node::Variable(NodeVariable { children: reduce(ch) }),
            _ => Node::Variable(NodeVariable { children: Vec::new() }),
        },
        Any::Text(t) => Node::Text(NodeText { value: t.clone() }),
    }
}

/// The matcher's nodes for the template nodes `ast`.
pub fn reduce(ast: &Vec<Any>) -> (r: Vec<Node>)
    ensures
        node_models(r@) == reduce_all(any_models(ast@)),
    decreases ast,
{
    let mut r: Vec<Node> = Vec::new();
    let mut i: usize = 0;
    while i < ast.len()
        invariant
            i <= ast@.len(),
            node_models(r@) == reduce_all(any_models(ast@.subrange(0, i as int))),
        decreases ast@.len() - i,
    {
        let n = reduce_node(&ast[i]);
        proof {
            let pre = ast@.subrange(0, i as int);
            assert(ast@.subrange(0, i + 1) == pre.push(ast@[i as int]));
            lemma_any_models_push(pre, ast@[i as int]);
            assert(any_models(pre).push(ast@[i as int]@).drop_last() == any_models(pre));
            lemma_node_models_push(r@, n);
        }
        r.push(n);
        i += 1;
    }
    assert(ast@.subrange(0, i as int) == ast@);
    r
}

/// A node made of text alone: a text, or a placeholder around such nodes.
pub open spec fn plain(a: AnyModel) -> bool
    decreases a,
{
    match a {
        AnyModel::Text(_) => true,
        AnyModel::Placeholder(_, ch) => plain_all(ch),
        _ => false,
    }
}

pub open spec fn plain_all(s: Seq<AnyModel>) -> bool
    decreases s,
{
    s.len() == 0 || (plain_all(s.drop_last()) && plain(s.last()))
}

/// The mode of a text run at placeholder depth `depth`.
pub open spec fn depth_mode(depth: nat) -> TextMode {
    if depth == 0 {
        TextMode::Top
    } else {
        TextMode::Braced
    }
}

/// The characters of a template from `i` on, at placeholder depth `depth`,
/// without placeholder delimiters (`${n:` and its closing `}`) and with each
/// escape replaced by the character it escapes.
pub open spec fn strip(s: Seq<char>, i: int, depth: nat) -> Seq<char>
    decreases s.len() - i,
{
    if i < 0 || i >= s.len() {
        Seq::empty()
    } else if s[i] == '\\' && i + 1 < s.len() && is_escapable(depth_mode(depth), s[i + 1]) {
        seq![s[i + 1]] + strip(s, i + 2, depth)
    } else if at(s, i, '$') && at(s, i + 1, '{') && i + 2 < digit_end(s, i + 2) && at(
        s,
        digit_end(s, i + 2),
        ':',
    ) {
        strip(s, digit_end(s, i + 2) + 1, depth + 1)
    } else if s[i] == '}' && depth > 0 {
        strip(s, i + 1, (depth - 1) as nat)
    } else {
        seq![s[i]] + strip(s, i + 1, depth)
    }
}

pub proof fn lemma_reduce_all_concat(x: Seq<AnyModel>, y: Seq<AnyModel>)
    ensures
        reduce_all(x + y) == reduce_all(x) + reduce_all(y),
    decreases y.len(),
{
    if y.len() == 0 {
        assert(x + y == x);
        assert(reduce_all(x) + reduce_all(y) == reduce_all(x));
    } else {
        lemma_reduce_all_concat(x, y.drop_last());
        assert((x + y).drop_last() == x + y.drop_last());
        assert((x + y).last() == y.last());
        assert(reduce_all(x) + reduce_all(y) == (reduce_all(x) + reduce_all(y.drop_last())).push(
            reduce_one(y.last()),
        ));
    }
}

pub proof fn lemma_literal_all_concat(x: Seq<NodeModel>, y: Seq<NodeModel>)
    ensures
        literal_all(x + y) == literal_all(x) + literal_all(y),
    decreases y.len(),
{
    if y.len() == 0 {
        assert(x + y == x);
        assert(literal_all(x) + literal_all(y) == literal_all(x));
    } else {
        lemma_literal_all_concat(x, y.drop_last());
        assert((x + y).drop_last() == x + y.drop_last());
        assert((x + y).last() == y.last());
        assert(literal_all(x) + literal_all(y) == literal_all(x) + literal_all(y.drop_last())
            + literal(y.last()));
    }
}

proof fn lemma_plain_all_cons(a: AnyModel, l: Seq<AnyModel>)
    requires
        plain_all(seq![a] + l),
    ensures
        plain(a),
        plain_all(l),
    decreases l.len(),
{
    if l.len() == 0 {
        assert(seq![a] + l == seq![a]);
        assert(seq![a].drop_last() == Seq::<AnyModel>::empty());
    } else {
        assert((seq![a] + l).drop_last() == seq![a] + l.drop_last());
        assert((seq![a] + l).last() == l.last());
        lemma_plain_all_cons(a, l.drop_last());
    }
}

/// A text run in the mode of its depth is stripped to its own text.
proof fn lemma_strip_text(s: Seq<char>, j: int, depth: nat)
    requires
        0 <= j <= s.len(),
        text_run(s, j, depth_mode(depth)) is Some,
    ensures
        text_run(s, j, depth_mode(depth)) matches Some((e, t)) && strip(s, j, depth) == t + strip(
            s,
            e,
            depth,
        ),
    decreases s.len() - j,
{
    let m = depth_mode(depth);
    if j < s.len() {
        if s[j] == '\\' {
            lemma_strip_text(s, j + 2, depth);
            let (e, t) = text_run(s, j + 2, m)->0;
            assert(seq![s[j + 1]] + (t + strip(s, e, depth)) == (seq![s[j + 1]] + t) + strip(
                s,
                e,
                depth,
            ));
        } else if !is_stop(m, s[j]) {
            lemma_strip_text(s, j + 1, depth);
            let (e, t) = text_run(s, j + 1, m)->0;
            assert(seq![s[j]] + (t + strip(s, e, depth)) == (seq![s[j]] + t) + strip(s, e, depth));
        }
    }
}

/// A plain node parsed at `i` is stripped to its literal text.
proof fn lemma_strip_any(s: Seq<char>, i: int, braced: bool, depth: nat)
    requires
        0 <= i <= s.len(),
        braced == (depth > 0),
        any_node(s, i, braced) matches Some((e, a)) && plain(a),
    ensures
        any_node(s, i, braced) matches Some((e, a)) && strip(s, i, depth) == literal(reduce_one(a))
            + strip(s, e, depth),
    decreases s.len() - i, 2int,
{
    let (e, a) = any_node(s, i, braced)->0;
    if tab_stop_or_var(s, i) is Some {
    } else if choice(s, i) is Some {
    } else if placeholder(s, i) is Some {
        let (d, n) = digits(s, i + 2)->0;
        let (e1, ch) = items(s, d + 1, true);
        assert(d == digit_end(s, i + 2));
        lemma_strip_items(s, d + 1, true, depth + 1);
        assert(strip(s, e1, depth + 1) == strip(s, e1 + 1, depth));
    } else if variable(s, i) is Some {
    } else {
        let m = depth_mode(depth);
        assert(m == if braced {
            TextMode::Braced
        } else {
            TextMode::Top
        });
        lemma_strip_text(s, i, depth);
    }
}

/// The plain nodes parsed from `i` on are stripped to their literal text.
proof fn lemma_strip_items(s: Seq<char>, i: int, braced: bool, depth: nat)
    requires
        0 <= i <= s.len(),
        braced == (depth > 0),
        plain_all(items(s, i, braced).1),
    ensures
        strip(s, i, depth) == literal_all(reduce_all(items(s, i, braced).1)) + strip(
            s,
            items(s, i, braced).0,
            depth,
        ),
    decreases s.len() - i, 3int,
{
    let (e2, l) = items(s, i, braced);
    match any_node(s, i, braced) {
        Some((e, a)) => if i < e <= s.len() {
            let (e3, rest) = items(s, e, braced);
            assert(l == seq![a] + rest);
            lemma_plain_all_cons(a, rest);
            lemma_strip_any(s, i, braced, depth);
            lemma_strip_items(s, e, braced, depth);
            lemma_reduce_all_concat(seq![a], rest);
            assert(reduce_all(seq![a]) == seq![reduce_one(a)]) by {
                assert(seq![a].drop_last() == Seq::<AnyModel>::empty());
                assert(seq![a].last() == a);
                assert(reduce_all(Seq::<AnyModel>::empty()) == Seq::<NodeModel>::empty());
                assert(Seq::<NodeModel>::empty().push(reduce_one(a)) =~= seq![reduce_one(a)]);
            }
            lemma_literal_all_concat(seq![reduce_one(a)], reduce_all(rest));
            assert(literal_all(seq![reduce_one(a)]) == literal(reduce_one(a))) by {
                let x = reduce_one(a);
                assert(seq![x].drop_last() == Seq::<NodeModel>::empty());
                assert(seq![x].last() == x);
                assert(literal_all(Seq::<NodeModel>::empty()) == Seq::<char>::empty());
                assert(Seq::<char>::empty() + literal(x) =~= literal(x));
            }
        } else {
            assert(literal_all(reduce_all(l)) == Seq::<char>::empty());
        },
        None => {
            assert(literal_all(reduce_all(l)) == Seq::<char>::empty());
        },
    }
}

/// A template whose nodes are texts and placeholders around texts renders,
/// once parsed and reduced, to the template's own characters without the
/// placeholder delimiters `${n:` and `}` and without escaping backslashes.
pub proof fn lemma_plain_round_trip(s: Seq<char>)
    requires
        parse_template(s) matches Some(l) && plain_all(l),
    ensures
        parse_template(s) matches Some(l) && literal_all(reduce_all(l)) == strip(s, 0, 0),
{
    lemma_strip_items(s, 0, false, 0);
    let l = items(s, 0, false).1;
    assert(literal_all(reduce_all(l)) + Seq::<char>::empty() == literal_all(reduce_all(l)));
}

} // verus!
