use vstd::prelude::*;
use crate::grammar::parse_template;
use crate::matcher::{matched, span};
use crate::node::{duplicate_all, literal_all, node_models, Node, NodeModel};
use crate::reduce::{reduce, reduce_all};
use crate::vs_snippet::parse_chars;

verus! {

/// How the completion text is shown.
pub struct Highlight {
    pub base: String,
}

/// A snippet as written: the lines of its template.
pub struct Snippet {
    pub body: Vec<String>,
}

/// What to complete: `lines` holds the typed lines from `start_line` up to
/// `cursor_line`, and the candidate snippets come already as nodes
/// (`snippets`) or as templates (`sources`, in groups).
pub struct Request {
    pub highlight: Highlight,
    pub sign: String,
    pub lines: Vec<String>,
    pub start_line: usize,
    pub cursor_line: usize,
    pub snippets: Vec<Vec<Node>>,
    pub sources: Vec<Vec<Snippet>>,
}

/// The completion text of one line, in chunks of (text, highlight).
#[derive(Debug, PartialEq, Eq)]
pub struct Text {
    pub line: usize,
    pub chunks: Vec<(String, String)>,
}

/// The completion texts of the lines that have one, in line order.
#[derive(Debug, Default, PartialEq, Eq)]
pub struct Response {
    pub texts: Vec<Text>,
}

/// The mathematical value of a `Request`.
pub struct RequestModel {
    pub highlight: Seq<char>,
    pub sign: Seq<char>,
    pub lines: Seq<Seq<char>>,
    pub start_line: nat,
    pub cursor_line: nat,
    pub snippets: Seq<Seq<NodeModel>>,
    pub sources: Seq<Seq<Seq<Seq<char>>>>,
}

/// The mathematical value of a `Text`.
pub struct TextModel {
    pub line: nat,
    pub chunks: Seq<(Seq<char>, Seq<char>)>,
}

impl View for Request {
    type V = RequestModel;

    open spec fn view(&self) -> RequestModel {
        RequestModel {
            highlight: self.highlight.base@,
            sign: self.sign@,
            lines: self.lines@.map_values(|l: String| l@),
            start_line: self.start_line as nat,
            cursor_line: self.cursor_line as nat,
            snippets: self.snippets@.map_values(|s: Vec<Node>| node_models(s@)),
            sources: self.sources@.map_values(
                |g: Vec<Snippet>| g@.map_values(|s: Snippet| s.body@.map_values(|l: String| l@)),
            ),
        }
    }
}

impl View for Text {
    type V = TextModel;

    open spec fn view(&self) -> TextModel {
        TextModel {
            line: self.line as nat,
            chunks: self.chunks@.map_values(|c: (String, String)| (c.0@, c.1@)),
        }
    }
}

impl View for Response {
    type V = Seq<TextModel>;

    open spec fn view(&self) -> Seq<TextModel> {
        self.texts@.map_values(|t: Text| t@)
    }
}

/// Lines joined into one template, with a newline between each two.
pub open spec fn join_lines(ls: Seq<Seq<char>>) -> Seq<char>
    decreases ls.len(),
{
    if ls.len() == 0 {
        Seq::empty()
    } else if ls.len() == 1 {
        ls[0]
    } else {
        join_lines(ls.drop_last()) + seq!['\n'] + ls.last()
    }
}

/// The matcher's nodes of the snippets of a group that parse, in order.
pub open spec fn group_nodes(g: Seq<Seq<Seq<char>>>) -> Seq<Seq<NodeModel>>
    decreases g.len(),
{
    if g.len() == 0 {
        Seq::empty()
    } else {
        group_nodes(g.drop_last()) + match parse_template(join_lines(g.last())) {
            Some(a) => seq![reduce_all(a)],
            None => Seq::empty(),
        }
    }
}

/// The matcher's nodes of the snippets of all groups that parse, in order.
pub open spec fn sources_nodes(gs: Seq<Seq<Seq<Seq<char>>>>) -> Seq<Seq<NodeModel>>
    decreases gs.len(),
{
    if gs.len() == 0 {
        Seq::empty()
    } else {
        sources_nodes(gs.drop_last()) + group_nodes(gs.last())
    }
}

/// The candidate snippets of a request: those given as nodes, then those
/// given as templates that parse.
pub open spec fn catalog(m: RequestModel) -> Seq<Seq<NodeModel>> {
    m.snippets + sources_nodes(m.sources)
}

/// The matchable spans of the candidates of a request.
pub open spec fn catalog_spans(m: RequestModel) -> Seq<Seq<NodeModel>> {
    Seq::new(catalog(m).len(), |k: int| span(catalog(m)[k]))
}

/// How many lines are matched: those from the start line through the cursor
/// line that the request holds.
pub open spec fn line_count(m: RequestModel) -> int {
    if m.cursor_line < m.start_line {
        0
    } else if m.cursor_line - m.start_line + 1 <= m.lines.len() {
        m.cursor_line - m.start_line + 1
    } else {
        m.lines.len() as int
    }
}

/// The completion texts of the first `k` matched lines: for each line with
/// something left to complete, the sign and the literal text of what is left,
/// shown with the request's highlight.
pub open spec fn line_records(m: RequestModel, k: int) -> Seq<TextModel>
    decreases k,
{
    if k <= 0 {
        Seq::empty()
    } else {
        let prev = line_records(m, k - 1);
        let left = matched(m.lines[k - 1], catalog_spans(m), false);
        if left.len() == 0 {
            prev
        } else {
            prev.push(
                TextModel {
                    line: (m.start_line + k - 1) as nat,
                    chunks: seq![(m.sign + literal_all(left), m.highlight)],
                },
            )
        }
    }
}

/// The response to a request.
pub open spec fn response_of(m: RequestModel) -> Seq<TextModel> {
    line_records(m, line_count(m))
}

/// Running the pipeline on requests of equal value gives responses of equal
/// value: the response depends on nothing but the request.
pub proof fn lemma_response_deterministic(a: RequestModel, b: RequestModel)
    requires
        a == b,
    ensures
        response_of(a) == response_of(b),
{
}

proof fn lemma_group_nodes_push(g: Seq<Seq<Seq<char>>>, s: Seq<Seq<char>>)
    ensures
        group_nodes(g.push(s)) == group_nodes(g) + match parse_template(join_lines(s)) {
            Some(a) => seq![reduce_all(a)],
            None => Seq::empty(),
        },
{
    assert(g.push(s).drop_last() == g);
}

proof fn lemma_sources_nodes_push(gs: Seq<Seq<Seq<Seq<char>>>>, g: Seq<Seq<Seq<char>>>)
    ensures
        sources_nodes(gs.push(g)) == sources_nodes(gs) + group_nodes(g),
{
    assert(gs.push(g).drop_last() == gs);
}

/// The characters of `body` joined into one template.
pub fn template_chars(body: &Vec<String>) -> (r: Vec<char>)
    ensures
        r@ == join_lines(body@.map_values(|l: String| l@)),
{
    let ghost ls = body@.map_values(|l: String| l@);
    let mut r: Vec<char> = Vec::new();
    let mut i: usize = 0;
    while i < body.len()
        invariant
            i <= body@.len(),
            ls == body@.map_values(|l: String| l@),
            r@ == join_lines(ls.take(i as int)),
        decreases body@.len() - i,
    {
        let ghost before = r@;
        if i > 0 {
            r.push('\n');
        }
        let cs = crate::words::chars_of(body[i].as_str());
        let mut k: usize = 0;
        while k < cs.len()
            invariant
                k <= cs@.len(),
                r@ == (if i > 0 {
                    before + seq!['\n']
                } else {
                    before
                }) + cs@.take(k as int),
            decreases cs@.len() - k,
        {
            r.push(cs[k]);
            assert(cs@.take(k + 1) == cs@.take(k as int).push(cs@[k as int]));
            k += 1;
        }
        proof {
            assert(cs@.take(k as int) == cs@);
            assert(ls.take(i + 1).drop_last() == ls.take(i as int));
            assert(ls.take(i + 1).last() == ls[i as int]);
            if i == 0 {
                assert(ls.take(1) == seq![ls[0]]);
                assert(before == Seq::<char>::empty());
                assert(r@ == ls[0]);
            }
        }
        i += 1;
    }
    assert(ls.take(i as int) == ls);
    r
}

/// The candidate snippets of `req`, as nodes: copies of those given as nodes,
/// then the reduced nodes of each template that parses.
pub fn candidates(req: &Request) -> (r: Vec<Vec<Node>>)
    ensures
        r@.map_values(|c: Vec<Node>| node_models(c@)) == catalog(req@),
{
    let ghost m = req@;
    let mut cat: Vec<Vec<Node>> = Vec::new();
    let mut k: usize = 0;
    while k < req.snippets.len()
        invariant
            k <= req.snippets@.len(),
            m == req@,
            cat@.len() == k,
            forall|j: int| 0 <= j < k ==> node_models((#[trigger] cat@[j])@) == m.snippets[j],
        decreases req.snippets@.len() - k,
    {
        let c = duplicate_all(&req.snippets[k]);
        cat.push(c);
        k += 1;
    }
    let mut g: usize = 0;
    while g < req.sources.len()
        invariant
            g <= req.sources@.len(),
            m == req@,
            cat@.len() == m.snippets.len() + sources_nodes(m.sources.take(g as int)).len(),
            forall|j: int|
                0 <= j < cat@.len() ==> node_models((#[trigger] cat@[j])@) == (m.snippets
                    + sources_nodes(m.sources.take(g as int)))[j],
        decreases req.sources@.len() - g,
    {
        let group = &req.sources[g];
        let ghost gm = m.sources[g as int];
        let ghost before = sources_nodes(m.sources.take(g as int));
        let mut q: usize = 0;
        while q < group.len()
            invariant
                q <= group@.len(),
                g < req.sources@.len(),
                m == req@,
                group == req.sources@[g as int],
                gm == m.sources[g as int],
                gm.len() == group@.len(),
                forall|z: int| 0 <= z < gm.len() ==> #[trigger] gm[z] == group@[z].body@.map_values(|l: String| l@),
                cat@.len() == m.snippets.len() + before.len() + group_nodes(gm.take(q as int)).len(),
                forall|j: int|
                    0 <= j < cat@.len() ==> node_models((#[trigger] cat@[j])@) == (m.snippets + before
                        + group_nodes(gm.take(q as int)))[j],
            decreases group@.len() - q,
        {
            let cs = template_chars(&group[q].body);
            let ghost prev = group_nodes(gm.take(q as int));
            proof {
                assert(gm.take(q + 1) == gm.take(q as int).push(gm[q as int]));
                lemma_group_nodes_push(gm.take(q as int), gm[q as int]);
            }
            match parse_chars(cs.as_slice()) {
                Some(ast) => {
                    let nodes = reduce(&ast.0);
                    assert(m.snippets + before + prev.push(reduce_all(ast@)) == (m.snippets + before
                        + prev).push(reduce_all(ast@)));
                    cat.push(nodes);
                },
                None => {
                    assert(prev + Seq::<Seq<NodeModel>>::empty() == prev);
                },
            }
            q += 1;
        }
        proof {
            assert(gm.take(q as int) == gm);
            assert(m.sources.take(g + 1) == m.sources.take(g as int).push(gm));
            lemma_sources_nodes_push(m.sources.take(g as int), gm);
            assert(m.snippets + before + group_nodes(gm) == m.snippets + (before + group_nodes(gm)));
        }
        g += 1;
    }
    assert(m.sources.take(g as int) == m.sources);
    assert(cat@.map_values(|c: Vec<Node>| node_models(c@)) =~= catalog(m));
    assert(m.sources.take(g as int) == m.sources);
    assert(cat@.map_values(|c: Vec<Node>| node_models(c@)) =~= catalog(m));
    cat
}

} // verus!
