//! Completion of partly typed snippets: snippet templates are parsed into
//! nodes, each typed line is matched against the snippets' literal text, and
//! what is left of the best match becomes the line's completion text.
use vstd::prelude::*;
use vstd::string::StringExecFns;

pub mod grammar;
pub mod matcher;
pub mod node;
pub mod reduce;
pub mod request;
pub mod vs_snippet;
pub mod words;

pub use matcher::{contains, find, first_text, match_lines, select_best, tail, Found};
pub use node::{text, Node, NodePlaceholder, NodeText, NodeVariable};
pub use request::{Highlight, Request, Response, Snippet, Text};

use crate::matcher::matched;
use crate::node::{literal_all, node_models, text_all};
use crate::request::{candidates, catalog_spans, line_count, line_records, response_of};

verus! {

/// The completion texts for `req`: each typed line from the start line
/// through the cursor line is matched against the candidate snippets, and a
/// line with something left to complete gets the sign and the literal text of
/// what is left, shown with the request's highlight.
pub fn calc(req: &Request) -> (r: Response)
    ensures
        r@ == response_of(req@),
{
    let ghost m = req@;
    let cat = candidates(req);
    let n: usize = if req.cursor_line < req.start_line {
        0
    } else if req.cursor_line - req.start_line < req.lines.len() {
        req.cursor_line - req.start_line + 1
    } else {
        req.lines.len()
    };
    let buf = &req.lines.as_slice()[0..n];
    let found = match_lines(req.start_line, buf, cat.as_slice());
    assert(crate::matcher::spans(cat@) =~= catalog_spans(m));
    let mut texts: Vec<Text> = Vec::new();
    let mut i: usize = 0;
    while i < n
        invariant
            i <= n,
            n == line_count(m),
            n <= req.lines@.len(),
            m == req@,
            buf@ == req.lines@.subrange(0, n as int),
            found@.len() == n,
            forall|q: int|
                0 <= q < n ==> node_models((#[trigger] found@[q]).0@) == matched(
                    buf@[q]@,
                    catalog_spans(m),
                    false,
                ) && found@[q].1 == req.start_line + q,
            texts@.map_values(|t: Text| t@) == line_records(m, i as int),
        decreases n - i,
    {
        let nodes = &found[i].0;
        assert(buf@[i as int]@ == m.lines[i as int]);
        if nodes.len() > 0 {
            let mut shown = req.sign.clone();
            let left = text_all(nodes);
            shown.append(left.as_str());
            let mut chunks: Vec<(String, String)> = Vec::new();
            chunks.push((shown, req.highlight.base.clone()));
            let t = Text { line: found[i].1, chunks };
            assert(t@.chunks =~= seq![(m.sign + literal_all(node_models(nodes@)), m.highlight)]);
            let ghost prev = texts@.map_values(|t: Text| t@);
            texts.push(t);
            assert(texts@.map_values(|t: Text| t@) =~= prev.push(t@));
        } else {
            proof {
                crate::node::lemma_node_models(nodes@);
            }
        }
        i += 1;
    }
    Response { texts }
}

} // verus!
