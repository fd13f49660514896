use vstd::prelude::*;

use crate::node::{lemma_node_models, lemma_node_models_push, lemma_node_models_subrange, node_models, Node, NodeModel};
use crate::words::{
    chars_of, chars_range, index_in, index_of, lemma_index_of, split_white, split_white_space,
    trim, trim_bounds,
};

verus! {

/// How well one snippet matches one line: `num` literal units in the
/// snippet, `hit` of them found in order in the line, and `num_first` of the
/// units making up the snippet's first text.
#[derive(Debug, Clone, Copy, PartialEq, Eq, Structural)]
pub struct Found {
    pub num: usize,
    pub hit: usize,
    pub num_first: usize,
}

/// The mathematical value of a `Found`.
pub struct Score {
    pub num: nat,
    pub hit: nat,
    pub num_first: nat,
}

impl View for Found {
    type V = Score;

    open spec fn view(&self) -> Score {
        Score { num: self.num as nat, hit: self.hit as nat, num_first: self.num_first as nat }
    }
}

/// The number of nodes before the first text of `ms` (all of them if there is
/// no text).
pub open spec fn lead_len(ms: Seq<NodeModel>) -> nat
    decreases ms.len(),
{
    if ms.len() == 0 || ms[0] is Text {
        0
    } else {
        1 + lead_len(ms.drop_first())
    }
}

/// The matchable span of a snippet: its nodes from the first text on, empty
/// where it has no text.
pub open spec fn span(ms: Seq<NodeModel>) -> Seq<NodeModel> {
    ms.subrange(lead_len(ms) as int, ms.len() as int)
}

/// The words of the first text of a span.
pub open spec fn first_words(span: Seq<NodeModel>) -> Seq<Seq<char>> {
    match span[0] {
        NodeModel::Text(v) => split_white(trim(v)),
        _ => Seq::empty(),
    }
}

/// The trimmed value of each text of `ms`, in order.
pub open spec fn text_units(ms: Seq<NodeModel>) -> Seq<Seq<char>>
    decreases ms.len(),
{
    if ms.len() == 0 {
        Seq::empty()
    } else {
        let init = text_units(ms.drop_last());
        match ms.last() {
            NodeModel::Text(v) => init.push(trim(v)),
            _ => init,
        }
    }
}

/// The literal units of a span that are looked for in a line: the words of its
/// first text, then each later text, trimmed.
pub open spec fn units(span: Seq<NodeModel>) -> Seq<Seq<char>> {
    first_words(span) + text_units(span.drop_first())
}

/// Whether finding unit `k` counts as a hit: a word of the first text counts
/// only if it has more than one character.
pub open spec fn counts(units: Seq<Seq<char>>, num_first: int, k: int) -> bool {
    k >= num_first || units[k].len() > 1
}

/// The hits when the units from `k` on are looked for in `line` from index
/// `cur` on, each after the previous one, up to the first that is not found.
pub open spec fn scan_hits(
    line: Seq<char>,
    units: Seq<Seq<char>>,
    num_first: int,
    k: int,
    cur: int,
) -> nat
    decreases units.len() - k,
{
    if k < 0 || k >= units.len() || cur < 0 || cur > line.len() {
        0
    } else {
        match index_of(line.subrange(cur, line.len() as int), units[k]) {
            None => 0,
            Some(p) => (if counts(units, num_first, k) {
                1nat
            } else {
                0nat
            }) + scan_hits(line, units, num_first, k + 1, cur + p + units[k].len()),
        }
    }
}

/// The score of a span against a line; nothing is found in an empty line or
/// for an empty span.
pub open spec fn score(line: Seq<char>, span: Seq<NodeModel>) -> Score {
    if span.len() == 0 || line.len() == 0 {
        Score { num: 0, hit: 0, num_first: 0 }
    } else {
        let u = units(span);
        let nf = first_words(span).len();
        Score { num: u.len(), hit: scan_hits(line, u, nf as int, 0, 0), num_first: nf }
    }
}

/// A score that may be selected: something was found, and, where complete
/// matches are skipped, not everything.
pub open spec fn qualifies(s: Score, skip_complete: bool) -> bool {
    s.num > 0 && s.hit > 0 && !(skip_complete && s.hit == s.num)
}

/// `a` has a higher ratio of hits than `b`.
pub open spec fn beats(a: Score, b: Score) -> bool {
    a.hit * b.num > b.hit * a.num
}

/// The index of the first qualifying score with the highest ratio of hits.
pub open spec fn best(scores: Seq<Score>, skip_complete: bool) -> Option<int>
    decreases scores.len(),
{
    if scores.len() == 0 {
        None
    } else {
        let prev = best(scores.drop_last(), skip_complete);
        let k = scores.len() - 1;
        if qualifies(scores[k], skip_complete) && (prev is None || beats(
            scores[k],
            scores[prev->0],
        )) {
            Some(k)
        } else {
            prev
        }
    }
}

/// The index just past the `need`-th text of `span` counted from `j` on, or
/// `j` itself when none is needed, or the length of `span` if it has too few.
pub open spec fn cut_from(span: Seq<NodeModel>, j: int, need: int) -> int
    decreases span.len() - j,
{
    if need <= 0 || j >= span.len() {
        j
    } else if span[j] is Text {
        cut_from(span, j + 1, need - 1)
    } else {
        cut_from(span, j + 1, need)
    }
}

pub open spec fn has_text(ms: Seq<NodeModel>) -> bool {
    exists|k: int| 0 <= k < ms.len() && ms[k] is Text
}

/// What is left of a span to complete once a line scored `f` against it: the
/// whole span while its first text is not fully typed; otherwise the nodes
/// after the first text and after the later texts that were hit, or nothing
/// where no text is left among them.
pub open spec fn tail_of(span: Seq<NodeModel>, f: Score) -> Seq<NodeModel> {
    if span.len() == 0 {
        Seq::empty()
    } else if f.hit < f.num_first {
        span
    } else {
        let t = span.subrange(cut_from(span, 1, f.hit - f.num_first), span.len() as int);
        if has_text(t) {
            t
        } else {
            Seq::empty()
        }
    }
}

/// The scores of a line against each span.
pub open spec fn scores(line: Seq<char>, spans: Seq<Seq<NodeModel>>) -> Seq<Score> {
    Seq::new(spans.len(), |k: int| score(line, spans[k]))
}

/// What is left to complete on `line` of the best matching span.
pub open spec fn matched(line: Seq<char>, spans: Seq<Seq<NodeModel>>, skip_complete: bool) -> Seq<
    NodeModel,
> {
    match best(scores(line, spans), skip_complete) {
        Some(k) => tail_of(spans[k], scores(line, spans)[k]),
        None => Seq::empty(),
    }
}

/// The matchable spans of snippets.
pub open spec fn spans(snippets: Seq<Vec<Node>>) -> Seq<Seq<NodeModel>> {
    Seq::new(snippets.len(), |k: int| span(node_models(snippets[k]@)))
}

pub proof fn lemma_lead_len(ms: Seq<NodeModel>)
    ensures
        lead_len(ms) <= ms.len(),
        lead_len(ms) < ms.len() ==> ms[lead_len(ms) as int] is Text,
        forall|j: int| 0 <= j < lead_len(ms) ==> !(#[trigger] ms[j] is Text),
    decreases ms.len(),
{
    if ms.len() > 0 && !(ms[0] is Text) {
        lemma_lead_len(ms.drop_first());
        assert forall|j: int| 0 <= j < lead_len(ms) implies !(#[trigger] ms[j] is Text) by {
            if j > 0 {
                assert(ms[j] == ms.drop_first()[j - 1]);
            }
        }
    }
}

pub proof fn lemma_best_in_range(scores: Seq<Score>, skip_complete: bool)
    ensures
        best(scores, skip_complete) matches Some(k) ==> 0 <= k < scores.len(),
    decreases scores.len(),
{
    if scores.len() > 0 {
        lemma_best_in_range(scores.drop_last(), skip_complete);
    }
}

proof fn lemma_lead_len_at(ms: Seq<NodeModel>, i: int)
    requires
        0 <= i <= ms.len(),
        forall|j: int| 0 <= j < i ==> !(#[trigger] ms[j] is Text),
        i == ms.len() || ms[i] is Text,
    ensures
        lead_len(ms) == i,
    decreases i,
{
    if i > 0 {
        assert(!(ms[0] is Text));
        assert forall|j: int| 0 <= j < i - 1 implies !(#[trigger] ms.drop_first()[j] is Text) by {
            assert(ms.drop_first()[j] == ms[j + 1]);
        }
        lemma_lead_len_at(ms.drop_first(), i - 1);
    }
}

proof fn lemma_scan_step(line: Seq<char>, units: Seq<Seq<char>>, num_first: int, k: int, cur: int)
    requires
        0 <= k < units.len(),
        0 <= cur <= line.len(),
    ensures
        match index_of(line.subrange(cur, line.len() as int), units[k]) {
            None => scan_hits(line, units, num_first, k, cur) == 0,
            Some(p) => 0 <= p && cur + p + units[k].len() <= line.len() && scan_hits(
                line,
                units,
                num_first,
                k,
                cur,
            ) == (if counts(units, num_first, k) {
                1nat
            } else {
                0nat
            }) + scan_hits(line, units, num_first, k + 1, cur + p + units[k].len()),
        },
{
    lemma_index_of(line.subrange(cur, line.len() as int), units[k]);
}

/// The first index where the characters of `words` stand in `sentence`.
pub fn contains(sentence: &[char], words: &str) -> (r: Option<usize>)
    ensures
        match r {
            Some(i) => index_of(sentence@, words@) == Some(i as int),
            None => index_of(sentence@, words@) is None,
        },
{
    let wc = chars_of(words);
    index_in(sentence, wc.as_slice())
}

/// The nodes of `nodes` from its first text on.
pub fn first_text(nodes: &[Node]) -> (r: &[Node])
    ensures
        node_models(r@) == span(node_models(nodes@)),
{
    let ghost ms = node_models(nodes@);
    proof {
        lemma_node_models(nodes@);
    }
    let mut i: usize = 0;
    while i < nodes.len() && !nodes[i].is_text()
        invariant
            i <= nodes@.len(),
            ms == node_models(nodes@),
            ms.len() == nodes@.len(),
            forall|q: int| 0 <= q < ms.len() ==> #[trigger] ms[q] == nodes@[q]@,
            forall|j: int| 0 <= j < i ==> !(#[trigger] ms[j] is Text),
        decreases nodes@.len() - i,
    {
        assert(ms[i as int] == nodes@[i as int]@);
        i += 1;
    }
    assert(i < nodes@.len() ==> ms[i as int] == nodes@[i as int]@);
    proof {
        lemma_lead_len_at(ms, i as int);
        lemma_node_models_subrange(nodes@, i as int, nodes@.len() as int);
    }
    &nodes[i..nodes.len()]
}

/// How well `line` matches the span `nodes` (which starts with a text, if it
/// is not empty): the words of the first text and each later text are looked
/// for in the line, left to right, up to the first that is not there.
pub fn find(line: &str, nodes: &[Node]) -> (f: Found)
    requires
        nodes@.len() > 0 ==> node_models(nodes@)[0] is Text,
    ensures
        f@ == score(line@, node_models(nodes@)),
{
    let ghost ms = node_models(nodes@);
    proof {
        lemma_node_models(nodes@);
    }
    let chars = chars_of(line);
    if nodes.len() == 0 || chars.len() == 0 {
        return Found { num: 0, hit: 0, num_first: 0 };
    }
    let first = match &nodes[0] {
        Node::Text(t) => chars_of(t.value.as_str()),
        _ => {
            assert(false);
            Vec::new()
        },
    };
    let (lo, hi) = trim_bounds(first.as_slice());
    let mut us_exec = split_white_space(first.as_slice(), lo, hi);
    let num_first = us_exec.len();
    let ghost fw = first_words(ms);
    assert(fw == split_white(first@.subrange(lo as int, hi as int)));
    let mut i: usize = 1;
    while i < nodes.len()
        invariant
            1 <= i <= nodes@.len(),
            ms == node_models(nodes@),
            ms.len() == nodes@.len(),
            forall|q: int| 0 <= q < ms.len() ==> #[trigger] ms[q] == nodes@[q]@,
            num_first == fw.len(),
            us_exec@.len() == fw.len() + text_units(ms.subrange(1, i as int)).len(),
            forall|k: int|
                0 <= k < us_exec@.len() ==> #[trigger] us_exec@[k]@ == (fw + text_units(
                    ms.subrange(1, i as int),
                ))[k],
        decreases nodes@.len() - i,
    {
        let ghost prev = text_units(ms.subrange(1, i as int));
        assert(ms.subrange(1, i + 1).drop_last() == ms.subrange(1, i as int));
        assert(ms.subrange(1, i + 1).last() == ms[i as int]);
        assert(ms[i as int] == nodes@[i as int]@);
        match &nodes[i] {
            Node::Text(t) => {
                let c = chars_of(t.value.as_str());
                let (a, b) = trim_bounds(c.as_slice());
                let u = chars_range(c.as_slice(), a, b);
                assert(text_units(ms.subrange(1, i + 1)) == prev.push(trim(t.value@)));
                assert(fw + prev.push(trim(t.value@)) == (fw + prev).push(trim(t.value@)));
                us_exec.push(u);
            },
            _ => {
                assert(text_units(ms.subrange(1, i + 1)) == prev);
            },
        }
        i += 1;
    }
    let ghost us = units(ms);
    assert(ms.subrange(1, nodes@.len() as int) == ms.drop_first());
    let n = chars.len();
    let mut hit: usize = 0;
    let mut cur: usize = 0;
    let mut k: usize = 0;
    let mut stopped = false;
    while k < us_exec.len() && !stopped
        invariant
            us == units(ms),
            us_exec@.len() == us.len(),
            forall|j: int| 0 <= j < us_exec@.len() ==> #[trigger] us_exec@[j]@ == us[j],
            num_first == fw.len(),
            n == chars@.len(),
            chars@ == line@,
            k <= us_exec@.len(),
            cur <= n,
            hit <= k,
            scan_hits(line@, us, num_first as int, 0, 0) == hit + (if stopped {
                0
            } else {
                scan_hits(line@, us, num_first as int, k as int, cur as int)
            }),
        decreases us_exec@.len() - k, (if stopped { 0int } else { 1int }),
    {
        let w = &us_exec[k];
        proof {
            lemma_scan_step(line@, us, num_first as int, k as int, cur as int);
        }
        match index_in(&chars.as_slice()[cur..n], w.as_slice()) {
            Some(p) => {
                if k >= num_first || w.len() > 1 {
                    hit += 1;
                }
                cur = cur + p + w.len();
                k += 1;
            },
            None => {
                stopped = true;
            },
        }
    }
    Found { num: us_exec.len(), hit, num_first }
}

/// The index of the first qualifying entry of `founds` with the highest ratio
/// of hits; with `skip_complete`, an entry whose every unit was hit does not
/// qualify.
pub fn select_best(founds: &[Found], skip_complete: bool) -> (r: Option<usize>)
    ensures
        match r {
            Some(k) => best(founds@.map_values(|f: Found| f@), skip_complete) == Some(k as int),
            None => best(founds@.map_values(|f: Found| f@), skip_complete) is None,
        },
{
    let ghost sc = founds@.map_values(|f: Found| f@);
    let mut r: Option<usize> = None;
    let mut i: usize = 0;
    while i < founds.len()
        invariant
            i <= founds@.len(),
            sc == founds@.map_values(|f: Found| f@),
            match r {
                Some(k) => k < i && best(sc.take(i as int), skip_complete) == Some(k as int),
                None => best(sc.take(i as int), skip_complete) is None,
            },
        decreases founds@.len() - i,
    {
        let f = founds[i];
        assert(sc.take(i + 1).drop_last() == sc.take(i as int));
        let better = match r {
            None => true,
            Some(b) => {
                let g = founds[b];
                assert((f.hit as int) <= 0xffff_ffff_ffff_ffff && (g.num as int) <= 0xffff_ffff_ffff_ffff
                    && (g.hit as int) <= 0xffff_ffff_ffff_ffff && (f.num as int) <= 0xffff_ffff_ffff_ffff);
                assert((f.hit as u128) * (g.num as u128) <= u128::MAX) by (nonlinear_arith)
                    requires
                        (f.hit as int) <= 0xffff_ffff_ffff_ffff,
                        (g.num as int) <= 0xffff_ffff_ffff_ffff,
                ;
                assert((g.hit as u128) * (f.num as u128) <= u128::MAX) by (nonlinear_arith)
                    requires
                        (g.hit as int) <= 0xffff_ffff_ffff_ffff,
                        (f.num as int) <= 0xffff_ffff_ffff_ffff,
                ;
                (f.hit as u128) * (g.num as u128) > (g.hit as u128) * (f.num as u128)
            },
        };
        if f.num > 0 && f.hit > 0 && !(skip_complete && f.hit == f.num) && better {
            r = Some(i);
        }
        i += 1;
    }
    assert(sc.take(i as int) == sc);
    r
}

/// What is left of `span` to complete once a line scored `f` against it.
pub fn tail(span: &[Node], f: &Found) -> (r: Vec<Node>)
    ensures
        node_models(r@) == tail_of(node_models(span@), f@),
{
    let ghost ms = node_models(span@);
    proof {
        lemma_node_models(span@);
    }
    let n = span.len();
    if n == 0 {
        return Vec::new();
    }
    let start = if f.hit < f.num_first {
        0
    } else {
        let mut need = f.hit - f.num_first;
        let mut j: usize = 1;
        while need > 0 && j < n
            invariant
                1 <= j <= n,
                n == ms.len(),
                n == span@.len(),
                ms == node_models(span@),
                forall|q: int| 0 <= q < ms.len() ==> #[trigger] ms[q] == span@[q]@,
                cut_from(ms, 1, f.hit - f.num_first) == cut_from(ms, j as int, need as int),
            decreases n - j,
        {
            assert(ms[j as int] == span@[j as int]@);
            if span[j].is_text() {
                need -= 1;
            }
            j += 1;
        }
        let mut k = j;
        while k < n && !span[k].is_text()
            invariant
                j <= k <= n,
                n == ms.len(),
                n == span@.len(),
                ms == node_models(span@),
                forall|q: int| 0 <= q < ms.len() ==> #[trigger] ms[q] == span@[q]@,
                forall|q: int| j <= q < k ==> !(#[trigger] ms[q] is Text),
            decreases n - k,
        {
            assert(ms[k as int] == span@[k as int]@);
            k += 1;
        }
        assert(k < n ==> ms[k as int] == span@[k as int]@);
        if k == n {
            assert(!has_text(ms.subrange(j as int, n as int))) by {
                assert forall|q: int| 0 <= q < n - j implies !(#[trigger] ms.subrange(
                    j as int,
                    n as int,
                )[q] is Text) by {
                    assert(ms.subrange(j as int, n as int)[q] == ms[j + q]);
                }
            }
            return Vec::new();
        }
        assert(ms.subrange(j as int, n as int)[k - j] == ms[k as int]);
        j
    };
    let mut r: Vec<Node> = Vec::new();
    let mut i = start;
    while i < n
        invariant
            start <= i <= n,
            n == span@.len(),
            node_models(r@) == node_models(span@.subrange(start as int, i as int)),
        decreases n - i,
    {
        let d = span[i].duplicate();
        proof {
            lemma_node_models_push(r@, d);
            lemma_node_models_push(span@.subrange(start as int, i as int), span@[i as int]);
            assert(span@.subrange(start as int, i + 1) == span@.subrange(start as int, i as int).push(
                span@[i as int],
            ));
        }
        r.push(d);
        i += 1;
    }
    proof {
        lemma_node_models_subrange(span@, start as int, n as int);
        assert(span@.subrange(0, n as int) == span@);
    }
    r
}

/// For each line of `buf`, numbered from `start_line` on, what is left to
/// complete of the snippet that matches it best, or nothing where none
/// matches.
pub fn match_lines(start_line: usize, buf: &[String], snippets: &[Vec<Node>]) -> (r: Vec<
    (Vec<Node>, usize),
>)
    requires
        buf@.len() == 0 || start_line + buf@.len() - 1 <= usize::MAX,
    ensures
        r@.len() == buf@.len(),
        forall|i: int|
            0 <= i < buf@.len() ==> node_models((#[trigger] r@[i]).0@) == matched(
                buf@[i]@,
                spans(snippets@),
                false,
            ) && r@[i].1 == start_line + i,
{
    let ghost sps = spans(snippets@);
    let mut sp: Vec<&[Node]> = Vec::new();
    let mut k: usize = 0;
    while k < snippets.len()
        invariant
            k <= snippets@.len(),
            sps == spans(snippets@),
            sp@.len() == k,
            forall|j: int| 0 <= j < k ==> node_models((#[trigger] sp@[j])@) == sps[j],
            forall|j: int| 0 <= j < k ==> sps[j].len() > 0 ==> (#[trigger] sps[j])[0] is Text,
        decreases snippets@.len() - k,
    {
        let s = first_text(snippets[k].as_slice());
        proof {
            lemma_lead_len(node_models(snippets@[k as int]@));
        }
        sp.push(s);
        k += 1;
    }
    let mut r: Vec<(Vec<Node>, usize)> = Vec::new();
    let mut i: usize = 0;
    while i < buf.len()
        invariant
            i <= buf@.len(),
            buf@.len() == 0 || start_line + buf@.len() - 1 <= usize::MAX,
            sps == spans(snippets@),
            sp@.len() == sps.len(),
            forall|j: int| 0 <= j < sps.len() ==> node_models((#[trigger] sp@[j])@) == sps[j],
            forall|j: int| 0 <= j < sps.len() ==> sps[j].len() > 0 ==> (#[trigger] sps[j])[0] is Text,
            r@.len() == i,
            forall|q: int|
                0 <= q < i ==> node_models((#[trigger] r@[q]).0@) == matched(buf@[q]@, sps, false)
                    && r@[q].1 == start_line + q,
        decreases buf@.len() - i,
    {
        let line = buf[i].as_str();
        let ghost sc = scores(buf@[i as int]@, sps);
        let mut founds: Vec<Found> = Vec::new();
        let mut k: usize = 0;
        while k < sp.len()
            invariant
                k <= sp@.len(),
                i < buf@.len(),
                sp@.len() == sps.len(),
                line@ == buf@[i as int]@,
                sc == scores(buf@[i as int]@, sps),
                forall|j: int| 0 <= j < sps.len() ==> node_models((#[trigger] sp@[j])@) == sps[j],
                forall|j: int|
                    0 <= j < sps.len() ==> sps[j].len() > 0 ==> (#[trigger] sps[j])[0] is Text,
                founds@.len() == k,
                forall|j: int| 0 <= j < k ==> (#[trigger] founds@[j])@ == sc[j],
            decreases sp@.len() - k,
        {
            assert(node_models(sp@[k as int]@) == sps[k as int]);
            let f = find(line, sp[k]);
            founds.push(f);
            k += 1;
        }
        assert(founds@.map_values(|f: Found| f@) =~= sc);
        proof {
            lemma_best_in_range(sc, false);
        }
        let nodes = match select_best(founds.as_slice(), false) {
            Some(b) => tail(sp[b], &founds[b]),
            None => Vec::new(),
        };
        r.push((nodes, start_line + i));
        i += 1;
    }
    r
}

} // verus!
