//! Parser for the snippet template language:
//!
//! ```text
//! any         ::= tabstop | placeholder | choice | variable | text
//! tabstop     ::= '$' int | '${' int '}'
//! placeholder ::= '${' int ':' any+ '}'
//! choice      ::= '${' int '|' text (',' text)* '|}'
//! variable    ::= '$' var | '${' var '}'
//!               | '${' var ':' any+ '}'
//!               | '${' var '/' regex '/' format* '/' options '}'
//! format      ::= '$' int | '${' int '}'
//!               | '${' int ':' ('/upcase' | '/downcase' | '/capitalize') '}'
//!               | '${' int ':+' if '}'
//!               | '${' int ':?' if ':' else '}'
//!               | '${' int ':-' else '}' | '${' int ':' else '}'
//!               | text up to '/'
//! var         ::= [_a-zA-Z] [_a-zA-Z0-9]*
//! int         ::= [0-9]+
//! ```
//!
//! Alternatives are tried in order and the first that matches wins. A `$`
//! that starts none of the constructs is not text: the template then fails to
//! parse.
use vstd::prelude::*;

use crate::grammar::{
    any_node, at, choice_rest, decimal, digit_end, digits, format_body, format_fragment, format_transform,
    formats as formats_spec, has_word, is_digit, is_escapable, is_name_char, is_stop, items,
    name_end, parse_template, run, run_end, tab_stop, tab_stop_or_var, text_run, transform,
    var as var_spec, var_name as var_name_spec, AnyModel, BindingModel, FormatModel, TextMode,
};
use crate::words::{chars_of, push_char, string_from};

verus! {

/// The nodes of a parsed template.
#[derive(Debug, PartialEq)]
pub struct Ast(pub Vec<Any>);

/// A template node.
#[derive(Debug, PartialEq)]
pub enum Any {
    TabStop(usize),
    Placeholder(usize, Vec<Any>),
    Choice(usize, Vec<String>),
    Variable(String, V),
    Text(String),
}

/// What a variable is bound to.
#[derive(Debug, PartialEq)]
pub enum V {
    /// Nothing is bound.
    Absent,
    Any(Vec<Any>),
    Transform(Regex, Vec<Format>, Options),
}

/// The pattern of a transform, with its escapes (`\/`, `\\`) as written.
#[derive(Debug, PartialEq)]
pub struct Regex(pub String);

/// The option flags of a transform.
#[derive(Debug, PartialEq)]
pub struct Options(pub String);

/// A fragment of the format of a transform.
#[derive(Debug, PartialEq)]
pub enum Format {
    Matched(usize),
    Upcase(usize),
    Downcase(usize),
    Capitalize(usize),
    If(usize, String),
    IfElse(usize, String, String),
    Else(usize, String),
    Text(String),
}

impl View for Format {
    type V = FormatModel;

    open spec fn view(&self) -> FormatModel {
        match self {
            Format::Matched(n) => FormatModel::Matched(*n as nat),
            Format::Upcase(n) => FormatModel::Upcase(*n as nat),
            Format::Downcase(n) => FormatModel::Downcase(*n as nat),
            Format::Capitalize(n) => FormatModel::Capitalize(*n as nat),
            Format::If(n, t) => FormatModel::If(*n as nat, t@),
            Format::IfElse(n, t, e) => FormatModel::IfElse(*n as nat, t@, e@),
            Format::Else(n, e) => FormatModel::Else(*n as nat, e@),
            Format::Text(t) => FormatModel::Text(t@),
        }
    }
}

pub open spec fn any_model(a: Any) -> AnyModel
    decreases a,
{
    match a {
        Any::TabStop(n) => AnyModel::TabStop(n as nat),
        Any::Placeholder(n, ch) => AnyModel::Placeholder(n as nat, any_models(ch@)),
        Any::Choice(n, xs) => AnyModel::Choice(n as nat, xs@.map_values(|x: String| x@)),
        Any::Variable(name, b) => AnyModel::Variable(name@, binding_model(b)),
        Any::Text(t) => AnyModel::Text(t@),
    }
}

pub open spec fn binding_model(b: V) -> BindingModel
    decreases b,
{
    match b {
        V::Absent => BindingModel::Absent,
        V::Any(ch) => BindingModel::Nodes(any_models(ch@)),
        V::Transform(r, fs, o) => BindingModel::Transform(
            r.0@,
            fs@.map_values(|f: Format| f@),
            o.0@,
        ),
    }
}

pub open spec fn any_models(s: Seq<Any>) -> Seq<AnyModel>
    decreases s,
{
    if s.len() == 0 {
        Seq::empty()
    } else {
        any_models(s.drop_last()).push(any_model(s.last()))
    }
}

impl View for Any {
    type V = AnyModel;

    open spec fn view(&self) -> AnyModel {
        any_model(*self)
    }
}

impl View for V {
    type V = BindingModel;

    open spec fn view(&self) -> BindingModel {
        binding_model(*self)
    }
}

impl View for Ast {
    type V = Seq<AnyModel>;

    open spec fn view(&self) -> Seq<AnyModel> {
        any_models(self.0@)
    }
}

/// `r` is what the spec result `m` describes: `None` for `None`, and for
/// `Some` the same end and the same value.
pub open spec fn agrees<T: View>(r: Option<(usize, T)>, m: Option<(int, T::V)>) -> bool {
    match r {
        Some((e, a)) => m == Some((e as int, a@)),
        None => m is None,
    }
}

pub proof fn lemma_any_models_push(s: Seq<Any>, a: Any)
    ensures
        any_models(s.push(a)) == any_models(s).push(a@),
{
    assert(s.push(a).drop_last() == s);
}

fn is_digit_char(c: char) -> (r: bool)
    ensures
        r == is_digit(c),
{
    '0' <= c && c <= '9'
}

fn is_name_char_exec(c: char) -> (r: bool)
    ensures
        r == is_name_char(c),
{
    c == '_' || ('a' <= c && c <= 'z') || ('A' <= c && c <= 'Z') || ('0' <= c && c <= '9')
}

proof fn lemma_digit_end(s: Seq<char>, i: int, j: int)
    requires
        0 <= i <= j <= s.len(),
        forall|k: int| i <= k < j ==> is_digit(#[trigger] s[k]),
    ensures
        digit_end(s, i) == digit_end(s, j),
    decreases j - i,
{
    if i < j {
        lemma_digit_end(s, i + 1, j);
    }
}

proof fn lemma_decimal_grows(d: Seq<char>, c: char)
    requires
        is_digit(c),
    ensures
        decimal(d.push(c)) == decimal(d) * 10 + ((c as u32) - ('0' as u32)) as nat,
        decimal(d.push(c)) >= decimal(d),
{
    assert(d.push(c).drop_last() == d);
}

/// `digits := [0-9]+` at `i`: its end and its value, if it fits in a `usize`.
fn digits_at(s: &[char], i: usize) -> (r: Option<(usize, usize)>)
    requires
        i <= s@.len(),
    ensures
        match r {
            Some((e, n)) => digits(s@, i as int) == Some((e as int, n as nat)),
            None => digits(s@, i as int) is None,
        },
{
    let n = s.len();
    let mut j = i;
    let mut v: usize = 0;
    let mut over = false;
    while j < n && is_digit_char(s[j])
        invariant
            n == s@.len(),
            i <= j <= n,
            forall|k: int| i <= k < j ==> is_digit(#[trigger] s@[k]),
            !over ==> v as nat == decimal(s@.subrange(i as int, j as int)),
            over ==> decimal(s@.subrange(i as int, j as int)) > usize::MAX,
        decreases n - j,
    {
        let c = s[j];
        let d = ((c as u32) - ('0' as u32)) as usize;
        proof {
            lemma_decimal_grows(s@.subrange(i as int, j as int), c);
            assert(s@.subrange(i as int, j + 1) == s@.subrange(i as int, j as int).push(c));
        }
        if !over {
            match v.checked_mul(10) {
                Some(t) => match t.checked_add(d) {
                    Some(w) => {
                        v = w;
                    },
                    None => {
                        over = true;
                    },
                },
                None => {
                    over = true;
                },
            }
        }
        j += 1;
    }
    proof {
        if i <= n {
            lemma_digit_end(s@, i as int, j as int);
        }
    }
    if j > i && !over {
        Some((j, v))
    } else {
        None
    }
}

/// `tabstop := '$' int | '${' int '}'` at `i`: its end and its number.
pub fn number(s: &[char], i: usize) -> (r: Option<(usize, usize)>)
    ensures
        match r {
            Some((e, n)) => tab_stop(s@, i as int) == Some((e as int, n as nat)),
            None => tab_stop(s@, i as int) is None,
        },
{
    let n = s.len();
    if i < n && s[i] == '$' {
        if let Some(r) = digits_at(s, i + 1) {
            return Some(r);
        }
        if i + 1 < n && s[i + 1] == '{' {
            if let Some((e, v)) = digits_at(s, i + 2) {
                if e < n && s[e] == '}' {
                    return Some((e + 1, v));
                }
            }
        }
    }
    None
}

proof fn lemma_name_end(s: Seq<char>, i: int, j: int)
    requires
        0 <= i <= j <= s.len(),
        forall|k: int| i <= k < j ==> is_name_char(#[trigger] s[k]),
    ensures
        name_end(s, i) == name_end(s, j),
    decreases j - i,
{
    if i < j {
        lemma_name_end(s, i + 1, j);
    }
}

proof fn lemma_run_end(s: Seq<char>, i: int, j: int, c: char)
    requires
        0 <= i <= j <= s.len(),
        forall|k: int| i <= k < j ==> #[trigger] s[k] != c,
    ensures
        run_end(s, i, c) == run_end(s, j, c),
    decreases j - i,
{
    if i < j {
        lemma_run_end(s, i + 1, j, c);
    }
}

pub proof fn lemma_text_run_bounds(s: Seq<char>, j: int, m: TextMode)
    requires
        0 <= j <= s.len(),
    ensures
        text_run(s, j, m) matches Some((e, t)) ==> j <= e <= s.len(),
    decreases s.len() - j,
{
    if j < s.len() {
        if s[j] == '\\' {
            if j + 1 < s.len() && is_escapable(m, s[j + 1]) {
                lemma_text_run_bounds(s, j + 2, m);
            }
        } else if !is_stop(m, s[j]) {
            lemma_text_run_bounds(s, j + 1, m);
        }
    }
}

/// The end of the run of characters other than `c` from `i` on.
fn run_end_at(s: &[char], i: usize, c: char) -> (r: usize)
    requires
        i <= s@.len(),
    ensures
        r as int == run_end(s@, i as int, c),
        i <= r <= s@.len(),
{
    let mut j = i;
    while j < s.len() && s[j] != c
        invariant
            i <= j <= s@.len(),
            forall|k: int| i <= k < j ==> #[trigger] s@[k] != c,
        decreases s@.len() - j,
    {
        j += 1;
    }
    proof {
        lemma_run_end(s@, i as int, j as int, c);
    }
    j
}

/// `name := [A-Za-z_][A-Za-z0-9_]*` at `i`: its end.
fn var_name_end(s: &[char], i: usize) -> (r: Option<usize>)
    requires
        i <= s@.len(),
    ensures
        match r {
            Some(e) => i < e <= s@.len() && var_name_spec(s@, i as int) == Some(
                (e as int, s@.subrange(i as int, e as int)),
            ),
            None => var_name_spec(s@, i as int) is None,
        },
{
    let mut j = i;
    while j < s.len() && is_name_char_exec(s[j])
        invariant
            i <= j <= s@.len(),
            forall|k: int| i <= k < j ==> is_name_char(#[trigger] s@[k]),
        decreases s@.len() - j,
    {
        j += 1;
    }
    proof {
        lemma_name_end(s@, i as int, j as int);
    }
    if j > i && !is_digit_char(s[i]) {
        Some(j)
    } else {
        None
    }
}

/// `var := '$' name | '${' name '}'` at `i`: its end and its name.
pub fn var(s: &[char], i: usize) -> (r: Option<(usize, String)>)
    ensures
        agrees(r, var_spec(s@, i as int)),
{
    let n = s.len();
    if i < n && s[i] == '$' {
        if let Some(e) = var_name_end(s, i + 1) {
            return Some((e, string_from(s, i + 1, e)));
        }
        if i + 1 < n && s[i + 1] == '{' {
            if let Some(e) = var_name_end(s, i + 2) {
                if e < n && s[e] == '}' {
                    return Some((e + 1, string_from(s, i + 2, e)));
                }
            }
        }
    }
    None
}

/// A tab stop, or a variable with nothing bound, at `i`.
fn tab_stop_or_var_name(s: &[char], i: usize) -> (r: Option<(usize, Any)>)
    ensures
        agrees(r, tab_stop_or_var(s@, i as int)),
{
    if let Some((e, n)) = number(s, i) {
        return Some((e, Any::TabStop(n)));
    }
    if let Some((e, name)) = var(s, i) {
        return Some((e, Any::Variable(name, V::Absent)));
    }
    None
}

fn stops(m: TextMode, c: char) -> (r: bool)
    ensures
        r == is_stop(m, c),
{
    match m {
        TextMode::Top => c == '$',
        TextMode::Braced => c == '$' || c == '}',
        TextMode::Choice => c == '|' || c == ',',
        TextMode::Pattern => c == '/',
    }
}

/// The text run in mode `m` from `i` on.
fn text_run_at(s: &[char], i: usize, m: TextMode) -> (r: Option<(usize, String)>)
    requires
        i <= s@.len(),
    ensures
        agrees(r, text_run(s@, i as int, m)),
{
    let n = s.len();
    let mut out = String::new();
    let mut j = i;
    let mut done = false;
    while j < n && !done
        invariant
            i <= j <= n,
            n == s@.len(),
            text_run(s@, i as int, m) == match text_run(s@, j as int, m) {
                Some((e, t)) => Some((e, out@ + t)),
                None => None,
            },
            done ==> text_run(s@, j as int, m) == Some((j as int, Seq::<char>::empty())),
        decreases n - j, (if done {
            0int
        } else {
            1int
        }),
    {
        let c = s[j];
        if c == '\\' {
            if j + 1 < n && (s[j + 1] == '\\' || stops(m, s[j + 1])) {
                let ghost pre = if m == TextMode::Pattern {
                    seq![c, s@[j + 1]]
                } else {
                    seq![s@[j + 1]]
                };
                let ghost old_out = out@;
                if m == TextMode::Pattern {
                    push_char(&mut out, c);
                }
                push_char(&mut out, s[j + 1]);
                assert(out@ == old_out + pre);
                proof {
                    match text_run(s@, j + 2, m) {
                        Some((e, t)) => {
                            assert(old_out + (pre + t) == out@ + t);
                        },
                        None => {},
                    }
                }
                j += 2;
            } else {
                return None;
            }
        } else if stops(m, c) {
            done = true;
        } else {
            let ghost old_out = out@;
            push_char(&mut out, c);
            proof {
                match text_run(s@, j + 1, m) {
                    Some((e, t)) => {
                        assert(old_out + (seq![c] + t) == out@ + t);
                    },
                    None => {},
                }
            }
            j += 1;
        }
    }
    assert(out@ + Seq::<char>::empty() == out@);
    Some((j, out))
}

/// A text run in mode `m` that, short of the end of the input, holds at
/// least one character.
fn run_at(s: &[char], i: usize, m: TextMode) -> (r: Option<(usize, String)>)
    requires
        i <= s@.len(),
    ensures
        agrees(r, run(s@, i as int, m)),
        r matches Some((e, t)) ==> i <= e <= s@.len(),
{
    proof {
        lemma_text_run_bounds(s@, i as int, m);
    }
    match text_run_at(s, i, m) {
        Some((e, t)) => if e > i || i >= s.len() {
            Some((e, t))
        } else {
            None
        },
        None => None,
    }
}

/// Text at the top level of a template at `i`: `\$` and `\\` are escapes,
/// and an unescaped `$` ends it.
pub fn text(s: &[char], i: usize) -> (r: Option<(usize, Any)>)
    ensures
        agrees(r, if 0 <= i <= s@.len() {
            match run(s@, i as int, TextMode::Top) {
                Some((e, t)) => Some((e, AnyModel::Text(t))),
                None => None,
            }
        } else {
            None
        }),
{
    if i > s.len() {
        return None;
    }
    match run_at(s, i, TextMode::Top) {
        Some((e, t)) => Some((e, Any::Text(t))),
        None => None,
    }
}

/// Text in the body of a placeholder or variable at `i`: `\}` is an escape
/// too, and an unescaped `}` ends it as well.
fn text_inner_braces(s: &[char], i: usize) -> (r: Option<(usize, Any)>)
    requires
        i <= s@.len(),
    ensures
        agrees(r, match run(s@, i as int, TextMode::Braced) {
            Some((e, t)) => Some((e, AnyModel::Text(t))),
            None => None,
        }),
{
    match run_at(s, i, TextMode::Braced) {
        Some((e, t)) => Some((e, Any::Text(t))),
        None => None,
    }
}

/// The options of a choice after the first, each after a `,`.
fn choice_elements(s: &[char], j: usize) -> (r: (usize, Vec<String>))
    requires
        j <= s@.len(),
    ensures
        j <= r.0 <= s@.len(),
        r.0 as int == choice_rest(s@, j as int).0,
        r.1@.map_values(|x: String| x@) == choice_rest(s@, j as int).1,
{
    let n = s.len();
    let mut k = j;
    let mut out: Vec<String> = Vec::new();
    let mut done = false;
    while k < n && s[k] == ',' && !done
        invariant
            j <= k <= n,
            n == s@.len(),
            choice_rest(s@, j as int) == (
                choice_rest(s@, k as int).0,
                out@.map_values(|x: String| x@) + choice_rest(s@, k as int).1,
            ),
            done ==> choice_rest(s@, k as int) == (k as int, Seq::<Seq<char>>::empty()),
        decreases n - k, (if done {
            0int
        } else {
            1int
        }),
    {
        match run_at(s, k + 1, TextMode::Choice) {
            Some((e, t)) => {
                let ghost prev = out@.map_values(|x: String| x@);
                proof {
                    let rest = choice_rest(s@, e as int);
                    assert(prev + (seq![t@] + rest.1) == prev.push(t@) + rest.1);
                }
                out.push(t);
                assert(out@.map_values(|x: String| x@) == prev.push(t@));
                k = e;
            },
            None => {
                done = true;
            },
        }
    }
    assert(out@.map_values(|x: String| x@) + Seq::<Seq<char>>::empty() == out@.map_values(
        |x: String| x@,
    ));
    (k, out)
}

/// `choice := '${' int '|' text (',' text)* '|}'` at `i`; in an option `\|`,
/// `\,` and `\\` are escapes, and no option is empty.
pub fn choice(s: &[char], i: usize) -> (r: Option<(usize, Any)>)
    ensures
        agrees(r, crate::grammar::choice(s@, i as int)),
{
    let n = s.len();
    if !(i < n && i + 1 < n && s[i] == '$' && s[i + 1] == '{') {
        return None;
    }
    let (d, num) = match digits_at(s, i + 2) {
        Some(p) => p,
        None => return None,
    };
    if !(d < n && s[d] == '|') {
        return None;
    }
    let (e1, t1) = match run_at(s, d + 1, TextMode::Choice) {
        Some(p) => p,
        None => return None,
    };
    let (e2, ts) = choice_elements(s, e1);
    if e2 < n && e2 + 1 < n && s[e2] == '|' && s[e2 + 1] == '}' {
        let mut xs: Vec<String> = Vec::new();
        xs.push(t1);
        let mut ys = ts;
        xs.append(&mut ys);
        assert(xs@.map_values(|x: String| x@) =~= seq![t1@] + ts@.map_values(|x: String| x@));
        Some((e2 + 2, Any::Choice(num, xs)))
    } else {
        None
    }
}

impl View for Regex {
    type V = Seq<char>;

    open spec fn view(&self) -> Seq<char> {
        self.0@
    }
}

impl View for Options {
    type V = Seq<char>;

    open spec fn view(&self) -> Seq<char> {
        self.0@
    }
}

/// Whether `s` holds `w` from `p` on.
fn word_at(s: &[char], p: usize, w: &[char]) -> (r: bool)
    ensures
        r == has_word(s@, p as int, w@),
{
    let n = s.len();
    if p > n || w.len() > n - p {
        return false;
    }
    let mut k: usize = 0;
    while k < w.len()
        invariant
            n == s@.len(),
            p + w@.len() <= s@.len(),
            k <= w@.len(),
            forall|q: int| 0 <= q < k ==> s@[p + q] == w@[q],
        decreases w@.len() - k,
    {
        assert(p + k < s@.len());
        if s[p + k] != w[k] {
            assert(s@.subrange(p as int, p + w@.len())[k as int] != w@[k as int]);
            return false;
        }
        k += 1;
    }
    assert(s@.subrange(p as int, p + w@.len()) =~= w@);
    true
}

/// The body of a `${n:...}` format fragment at `p`.
fn format_body_at(s: &[char], p: usize, n: usize) -> (r: Option<(usize, Format)>)
    requires
        p <= s@.len(),
    ensures
        agrees(r, format_body(s@, p as int, n as nat)),
{
    let len = s.len();
    let upcase: [char; 7] = ['/', 'u', 'p', 'c', 'a', 's', 'e'];
    let downcase: [char; 9] = ['/', 'd', 'o', 'w', 'n', 'c', 'a', 's', 'e'];
    let capitalize: [char; 11] = ['/', 'c', 'a', 'p', 'i', 't', 'a', 'l', 'i', 'z', 'e'];
    assert(upcase@ == seq!['/', 'u', 'p', 'c', 'a', 's', 'e']);
    assert(downcase@ == seq!['/', 'd', 'o', 'w', 'n', 'c', 'a', 's', 'e']);
    assert(capitalize@ == seq!['/', 'c', 'a', 'p', 'i', 't', 'a', 'l', 'i', 'z', 'e']);
    if word_at(s, p, upcase.as_slice()) {
        return Some((p + 7, Format::Upcase(n)));
    }
    if word_at(s, p, downcase.as_slice()) {
        return Some((p + 9, Format::Downcase(n)));
    }
    if word_at(s, p, capitalize.as_slice()) {
        return Some((p + 11, Format::Capitalize(n)));
    }
    if p < len && s[p] == '+' {
        let e = run_end_at(s, p + 1, '}');
        if p + 1 < e {
            return Some((e, Format::If(n, string_from(s, p + 1, e))));
        }
    }
    if p < len && s[p] == '-' {
        let e = run_end_at(s, p + 1, '}');
        if p + 1 < e {
            return Some((e, Format::Else(n, string_from(s, p + 1, e))));
        }
    }
    if p < len && s[p] == '?' {
        let c = run_end_at(s, p + 1, ':');
        if p + 1 < c && c < len && s[c] == ':' {
            let e = run_end_at(s, c + 1, '}');
            if c + 1 < e {
                return Some(
                    (e, Format::IfElse(n, string_from(s, p + 1, c), string_from(s, c + 1, e))),
                );
            }
        }
    }
    let e = run_end_at(s, p, '}');
    if p < e {
        Some((e, Format::Else(n, string_from(s, p, e))))
    } else {
        None
    }
}

/// `'${' int ':' body '}'` as a format fragment at `i`.
fn format_transform_at(s: &[char], i: usize) -> (r: Option<(usize, Format)>)
    requires
        i <= s@.len(),
    ensures
        agrees(r, format_transform(s@, i as int)),
{
    let n = s.len();
    if !(i < n && i + 1 < n && s[i] == '$' && s[i + 1] == '{') {
        return None;
    }
    let (d, num) = match digits_at(s, i + 2) {
        Some(p) => p,
        None => return None,
    };
    if !(d < n && s[d] == ':') {
        return None;
    }
    match format_body_at(s, d + 1, num) {
        Some((e, f)) => if e < n && s[e] == '}' {
            Some((e + 1, f))
        } else {
            None
        },
        None => None,
    }
}

/// One format fragment at `i`.
fn format_fragment_at(s: &[char], i: usize) -> (r: Option<(usize, Format)>)
    requires
        i <= s@.len(),
    ensures
        agrees(r, format_fragment(s@, i as int)),
{
    if let Some((e, n)) = number(s, i) {
        return Some((e, Format::Matched(n)));
    }
    if let Some(r) = format_transform_at(s, i) {
        return Some(r);
    }
    let e = run_end_at(s, i, '/');
    if i < e {
        Some((e, Format::Text(string_from(s, i, e))))
    } else {
        None
    }
}

/// `format*` at `i`: as many fragments as follow one another.
pub fn formats(s: &[char], i: usize) -> (r: (usize, Vec<Format>))
    requires
        i <= s@.len(),
    ensures
        i <= r.0 <= s@.len(),
        r.0 as int == formats_spec(s@, i as int).0,
        r.1@.map_values(|f: Format| f@) == formats_spec(s@, i as int).1,
{
    let n = s.len();
    let mut k = i;
    let mut out: Vec<Format> = Vec::new();
    let mut done = false;
    while k < n && !done
        invariant
            i <= k <= n,
            n == s@.len(),
            formats_spec(s@, i as int) == (
                formats_spec(s@, k as int).0,
                out@.map_values(|f: Format| f@) + formats_spec(s@, k as int).1,
            ),
            done ==> formats_spec(s@, k as int) == (k as int, Seq::<FormatModel>::empty()),
        decreases n - k, (if done {
            0int
        } else {
            1int
        }),
    {
        match format_fragment_at(s, k) {
            Some((e, f)) => if k < e && e <= n {
                let ghost prev = out@.map_values(|f: Format| f@);
                proof {
                    let rest = formats_spec(s@, e as int);
                    assert(prev + (seq![f@] + rest.1) == prev.push(f@) + rest.1);
                }
                out.push(f);
                assert(out@.map_values(|f: Format| f@) == prev.push(f@));
                k = e;
            } else {
                done = true;
            },
            None => {
                done = true;
            },
        }
    }
    proof {
        if !done {
            assert(formats_spec(s@, k as int) == (k as int, Seq::<FormatModel>::empty()));
        }
    }
    assert(out@.map_values(|f: Format| f@) + Seq::<FormatModel>::empty() == out@.map_values(
        |f: Format| f@,
    ));
    (k, out)
}

/// The pattern of a transform at `i`: up to an unescaped `/`, with `\/` and
/// `\\` kept as written; it may not be empty.
pub fn regex(s: &[char], i: usize) -> (r: Option<(usize, Regex)>)
    requires
        i <= s@.len(),
    ensures
        agrees(r, run(s@, i as int, TextMode::Pattern)),
{
    match run_at(s, i, TextMode::Pattern) {
        Some((e, t)) => Some((e, Regex(t))),
        None => None,
    }
}

/// The option flags of a transform at `i`: everything up to a `}`.
pub fn options(s: &[char], i: usize) -> (r: (usize, Options))
    requires
        i <= s@.len(),
    ensures
        r.0 as int == run_end(s@, i as int, '}'),
        r.1@ == s@.subrange(i as int, r.0 as int),
{
    let e = run_end_at(s, i, '}');
    (e, Options(string_from(s, i, e)))
}

/// `'/' regex '/' format* '/' options '}'` at `j`.
fn transform_at(s: &[char], j: usize) -> (r: Option<(usize, V)>)
    requires
        j <= s@.len(),
    ensures
        agrees(r, transform(s@, j as int)),
{
    let n = s.len();
    if !(j < n && s[j] == '/') {
        return None;
    }
    let (re, r) = match regex(s, j + 1) {
        Some(p) => p,
        None => return None,
    };
    proof {
        lemma_text_run_bounds(s@, j + 1, TextMode::Pattern);
    }
    if !(re < n && s[re] == '/') {
        return None;
    }
    let (fe, fs) = formats(s, re + 1);
    if !(fe < n && s[fe] == '/') {
        return None;
    }
    let (oe, o) = options(s, fe + 1);
    proof {
        lemma_run_end_bounds(s@, fe + 1, '}');
    }
    if oe < n && s[oe] == '}' {
        Some((oe + 1, V::Transform(r, fs, o)))
    } else {
        None
    }
}

proof fn lemma_run_end_bounds(s: Seq<char>, i: int, c: char)
    requires
        0 <= i <= s.len(),
    ensures
        i <= run_end(s, i, c) <= s.len(),
    decreases s.len() - i,
{
    if i < s.len() && s[i] != c {
        lemma_run_end_bounds(s, i + 1, c);
    }
}

/// `any` at `i`: the first of a tab stop or bare variable, a choice, a
/// placeholder, a variable and a text that matches; in a body (`braced`) a
/// text also ends at `}`.
fn any(s: &[char], i: usize, braced: bool) -> (r: Option<(usize, Any)>)
    requires
        i <= s@.len(),
    ensures
        agrees(r, any_node(s@, i as int, braced)),
    decreases s@.len() - i, 2int,
{
    if i >= s.len() {
        return None;
    }
    if let Some(r) = tab_stop_or_var_name(s, i) {
        return Some(r);
    }
    if let Some(r) = choice(s, i) {
        return Some(r);
    }
    if let Some(r) = placeholder(s, i) {
        return Some(r);
    }
    if let Some(r) = variable(s, i) {
        return Some(r);
    }
    if braced {
        text_inner_braces(s, i)
    } else {
        text(s, i)
    }
}

/// `any*` at `i`: as many nodes as follow one another.
fn items_at(s: &[char], i: usize, braced: bool) -> (r: (usize, Vec<Any>))
    requires
        i <= s@.len(),
    ensures
        i <= r.0 <= s@.len(),
        r.0 as int == items(s@, i as int, braced).0,
        any_models(r.1@) == items(s@, i as int, braced).1,
    decreases s@.len() - i, 3int,
{
    let n = s.len();
    let mut k = i;
    let mut out: Vec<Any> = Vec::new();
    let mut done = false;
    while k < n && !done
        invariant
            i <= k <= n,
            n == s@.len(),
            items(s@, i as int, braced) == (
                items(s@, k as int, braced).0,
                any_models(out@) + items(s@, k as int, braced).1,
            ),
            done ==> items(s@, k as int, braced) == (k as int, Seq::<AnyModel>::empty()),
        decreases n - k, (if done {
            0int
        } else {
            1int
        }),
    {
        match any(s, k, braced) {
            Some((e, a)) => if k < e && e <= n {
                let ghost prev = any_models(out@);
                proof {
                    let rest = items(s@, e as int, braced);
                    assert(prev + (seq![a@] + rest.1) == prev.push(a@) + rest.1);
                    lemma_any_models_push(out@, a);
                }
                out.push(a);
                k = e;
            } else {
                done = true;
            },
            None => {
                done = true;
            },
        }
    }
    proof {
        if !done {
            assert(items(s@, k as int, braced) == (k as int, Seq::<AnyModel>::empty()));
        }
    }
    assert(any_models(out@) + Seq::<AnyModel>::empty() == any_models(out@));
    (k, out)
}

/// `placeholder := '${' int ':' any+ '}'` at `i`.
pub fn placeholder(s: &[char], i: usize) -> (r: Option<(usize, Any)>)
    ensures
        agrees(r, crate::grammar::placeholder(s@, i as int)),
    decreases s@.len() - i, 1int,
{
    let n = s.len();
    if !(i < n && i + 1 < n && s[i] == '$' && s[i + 1] == '{') {
        return None;
    }
    let (d, num) = match digits_at(s, i + 2) {
        Some(p) => p,
        None => return None,
    };
    if !(d < n && s[d] == ':') {
        return None;
    }
    let (e, ch) = items_at(s, d + 1, true);
    if ch.len() > 0 && e < n && s[e] == '}' {
        proof {
            crate::vs_snippet::lemma_any_models_len(ch@);
        }
        Some((e + 1, Any::Placeholder(num, ch)))
    } else {
        proof {
            crate::vs_snippet::lemma_any_models_len(ch@);
        }
        None
    }
}

/// `variable := '${' var ':' any+ '}' | '${' var '/' regex '/' format* '/'
/// options '}'` at `i`.
pub fn variable(s: &[char], i: usize) -> (r: Option<(usize, Any)>)
    ensures
        agrees(r, crate::grammar::variable(s@, i as int)),
    decreases s@.len() - i, 1int,
{
    let n = s.len();
    if !(i < n && i + 1 < n && s[i] == '$' && s[i + 1] == '{') {
        return None;
    }
    let ne = match var_name_end(s, i + 2) {
        Some(e) => e,
        None => return None,
    };
    let name = string_from(s, i + 2, ne);
    if ne < n && s[ne] == ':' {
        let (e, ch) = items_at(s, ne + 1, true);
        proof {
            crate::vs_snippet::lemma_any_models_len(ch@);
        }
        if ch.len() > 0 && e < n && s[e] == '}' {
            Some((e + 1, Any::Variable(name, V::Any(ch))))
        } else {
            None
        }
    } else {
        match transform_at(s, ne) {
            Some((e, b)) => Some((e, Any::Variable(name, b))),
            None => None,
        }
    }
}

pub proof fn lemma_any_models_len(s: Seq<Any>)
    ensures
        any_models(s).len() == s.len(),
    decreases s.len(),
{
    if s.len() > 0 {
        lemma_any_models_len(s.drop_last());
    }
}

/// The nodes of the template `s`, or `None` where it does not parse to its
/// end.
pub fn parse_chars(s: &[char]) -> (r: Option<Ast>)
    ensures
        match r {
            Some(a) => parse_template(s@) == Some(a@),
            None => parse_template(s@) is None,
        },
{
    let (e, l) = items_at(s, 0, false);
    if e == s.len() {
        Some(Ast(l))
    } else {
        None
    }
}

/// The nodes of the template `s`, or `None` where it does not parse to its
/// end.
pub fn parse(s: &str) -> (r: Option<Ast>)
    ensures
        match r {
            Some(a) => parse_template(s@) == Some(a@),
            None => parse_template(s@) is None,
        },
{
    let cs = chars_of(s);
    parse_chars(cs.as_slice())
}

} // verus!
