use vstd::prelude::*;

verus! {

/// Where a text run stands, which decides the characters that end it and the
/// characters that a backslash escapes.
#[derive(Clone, Copy, PartialEq, Eq, Structural)]
pub enum TextMode {
    /// Text at the top level of a template, ended by `$`.
    Top,
    /// Text in the body of a placeholder or variable, ended by `$` or `}`.
    Braced,
    /// An option of a choice, ended by `|` or `,`.
    Choice,
    /// The pattern of a transform, ended by `/`; escapes are kept as written.
    Pattern,
}

/// The mathematical value of a format fragment of a transform.
pub enum FormatModel {
    Matched(nat),
    Upcase(nat),
    Downcase(nat),
    Capitalize(nat),
    If(nat, Seq<char>),
    IfElse(nat, Seq<char>, Seq<char>),
    Else(nat, Seq<char>),
    Text(Seq<char>),
}

/// The mathematical value of what a variable is bound to.
pub enum BindingModel {
    Absent,
    Nodes(Seq<AnyModel>),
    Transform(Seq<char>, Seq<FormatModel>, Seq<char>),
}

/// The mathematical value of a template node.
pub enum AnyModel {
    TabStop(nat),
    Placeholder(nat, Seq<AnyModel>),
    Choice(nat, Seq<Seq<char>>),
    Variable(Seq<char>, BindingModel),
    Text(Seq<char>),
}

/// `s` holds `c` at index `i`.
pub open spec fn at(s: Seq<char>, i: int, c: char) -> bool {
    0 <= i < s.len() && s[i] == c
}

/// `s` holds `w` from index `i` on.
pub open spec fn has_word(s: Seq<char>, i: int, w: Seq<char>) -> bool {
    0 <= i && i + w.len() <= s.len() && s.subrange(i, i + w.len()) == w
}

pub open spec fn is_digit(c: char) -> bool {
    '0' <= c <= '9'
}

pub open spec fn is_name_char(c: char) -> bool {
    c == '_' || ('a' <= c <= 'z') || ('A' <= c <= 'Z') || is_digit(c)
}

pub open spec fn is_stop(m: TextMode, c: char) -> bool {
    match m {
        TextMode::Top => c == '$',
        TextMode::Braced => c == '$' || c == '}',
        TextMode::Choice => c == '|' || c == ',',
        TextMode::Pattern => c == '/',
    }
}

/// The characters that a backslash escapes: itself and those that end a run.
pub open spec fn is_escapable(m: TextMode, c: char) -> bool {
    c == '\\' || is_stop(m, c)
}

/// The end of the run of digits from `i` on.
pub open spec fn digit_end(s: Seq<char>, i: int) -> int
    decreases s.len() - i,
{
    if 0 <= i < s.len() && is_digit(s[i]) {
        digit_end(s, i + 1)
    } else {
        i
    }
}

/// The end of the run of name characters from `i` on.
pub open spec fn name_end(s: Seq<char>, i: int) -> int
    decreases s.len() - i,
{
    if 0 <= i < s.len() && is_name_char(s[i]) {
        name_end(s, i + 1)
    } else {
        i
    }
}

/// The end of the run of characters other than `c` from `i` on.
pub open spec fn run_end(s: Seq<char>, i: int, c: char) -> int
    decreases s.len() - i,
{
    if 0 <= i < s.len() && s[i] != c {
        run_end(s, i + 1, c)
    } else {
        i
    }
}

/// The value of a sequence of decimal digits.
pub open spec fn decimal(d: Seq<char>) -> nat
    decreases d.len(),
{
    if d.len() == 0 {
        0
    } else {
        decimal(d.drop_last()) * 10 + ((d.last() as u32) - ('0' as u32)) as nat
    }
}

/// `digits := [0-9]+`, whose value must fit in a `usize`.
pub open spec fn digits(s: Seq<char>, i: int) -> Option<(int, nat)> {
    let e = digit_end(s, i);
    if i < e && decimal(s.subrange(i, e)) <= usize::MAX {
        Some((e, decimal(s.subrange(i, e))))
    } else {
        None
    }
}

/// `tabstop := '$' digits | '${' digits '}'`
pub open spec fn tab_stop(s: Seq<char>, i: int) -> Option<(int, nat)> {
    if at(s, i, '$') && digits(s, i + 1) is Some {
        digits(s, i + 1)
    } else if at(s, i, '$') && at(s, i + 1, '{') {
        match digits(s, i + 2) {
            Some((e, n)) => if at(s, e, '}') {
                Some((e + 1, n))
            } else {
                None
            },
            None => None,
        }
    } else {
        None
    }
}

/// `name := [A-Za-z_][A-Za-z0-9_]*`
pub open spec fn var_name(s: Seq<char>, i: int) -> Option<(int, Seq<char>)> {
    let e = name_end(s, i);
    if 0 <= i < e && !is_digit(s[i]) {
        Some((e, s.subrange(i, e)))
    } else {
        None
    }
}

/// `'$' name | '${' name '}'`
pub open spec fn var(s: Seq<char>, i: int) -> Option<(int, Seq<char>)> {
    if at(s, i, '$') && var_name(s, i + 1) is Some {
        var_name(s, i + 1)
    } else if at(s, i, '$') && at(s, i + 1, '{') {
        match var_name(s, i + 2) {
            Some((e, n)) => if at(s, e, '}') {
                Some((e + 1, n))
            } else {
                None
            },
            None => None,
        }
    } else {
        None
    }
}

/// A tab stop, or a variable with nothing bound.
pub open spec fn tab_stop_or_var(s: Seq<char>, i: int) -> Option<(int, AnyModel)> {
    match tab_stop(s, i) {
        Some((e, n)) => Some((e, AnyModel::TabStop(n))),
        None => match var(s, i) {
            Some((e, n)) => Some((e, AnyModel::Variable(n, BindingModel::Absent))),
            None => None,
        },
    }
}

/// The characters from `j` on up to the first that ends a run in mode `m`
/// (or the end), with each backslash escape replaced by the character it
/// escapes (kept as written in a pattern); `None` at a backslash that escapes
/// nothing.
pub open spec fn text_run(s: Seq<char>, j: int, m: TextMode) -> Option<(int, Seq<char>)>
    decreases s.len() - j,
{
    if j < 0 || j >= s.len() {
        Some((j, Seq::empty()))
    } else if s[j] == '\\' {
        if j + 1 < s.len() && is_escapable(m, s[j + 1]) {
            match text_run(s, j + 2, m) {
                Some((e, t)) => Some(
                    (
                        e,
                        (if m == TextMode::Pattern {
                            seq![s[j], s[j + 1]]
                        } else {
                            seq![s[j + 1]]
                        }) + t,
                    ),
                ),
                None => None,
            }
        } else {
            None
        }
    } else if is_stop(m, s[j]) {
        Some((j, Seq::empty()))
    } else {
        match text_run(s, j + 1, m) {
            Some((e, t)) => Some((e, seq![s[j]] + t)),
            None => None,
        }
    }
}

/// A text run that, short of the end of the input, holds at least one
/// character.
pub open spec fn run(s: Seq<char>, i: int, m: TextMode) -> Option<(int, Seq<char>)> {
    match text_run(s, i, m) {
        Some((e, t)) => if e > i || i >= s.len() {
            Some((e, t))
        } else {
            None
        },
        None => None,
    }
}

/// The options of a choice after the first, each after a `,`.
pub open spec fn choice_rest(s: Seq<char>, j: int) -> (int, Seq<Seq<char>>)
    decreases s.len() - j,
{
    if at(s, j, ',') {
        match run(s, j + 1, TextMode::Choice) {
            Some((e, t)) => if j < e <= s.len() {
                let (e2, ts) = choice_rest(s, e);
                (e2, seq![t] + ts)
            } else {
                (j, Seq::empty())
            },
            None => (j, Seq::empty()),
        }
    } else {
        (j, Seq::empty())
    }
}

/// `choice := '${' digits '|' option (',' option)* '|}'`
pub open spec fn choice(s: Seq<char>, i: int) -> Option<(int, AnyModel)> {
    if at(s, i, '$') && at(s, i + 1, '{') {
        match digits(s, i + 2) {
            Some((d, n)) => if at(s, d, '|') {
                match run(s, d + 1, TextMode::Choice) {
                    Some((e1, t1)) => {
                        let (e2, ts) = choice_rest(s, e1);
                        if at(s, e2, '|') && at(s, e2 + 1, '}') {
                            Some((e2 + 2, AnyModel::Choice(n, seq![t1] + ts)))
                        } else {
                            None
                        }
                    },
                    None => None,
                }
            } else {
                None
            },
            None => None,
        }
    } else {
        None
    }
}

/// The body of a `${n:...}` format fragment.
pub open spec fn format_body(s: Seq<char>, p: int, n: nat) -> Option<(int, FormatModel)> {
    let plus_end = run_end(s, p + 1, '}');
    let cond_end = run_end(s, p + 1, ':');
    let else_end = run_end(s, cond_end + 1, '}');
    let any_end = run_end(s, p, '}');
    if has_word(s, p, seq!['/', 'u', 'p', 'c', 'a', 's', 'e']) {
        Some((p + 7, FormatModel::Upcase(n)))
    } else if has_word(s, p, seq!['/', 'd', 'o', 'w', 'n', 'c', 'a', 's', 'e']) {
        Some((p + 9, FormatModel::Downcase(n)))
    } else if has_word(s, p, seq!['/', 'c', 'a', 'p', 'i', 't', 'a', 'l', 'i', 'z', 'e']) {
        Some((p + 11, FormatModel::Capitalize(n)))
    } else if at(s, p, '+') && p + 1 < plus_end {
        Some((plus_end, FormatModel::If(n, s.subrange(p + 1, plus_end))))
    } else if at(s, p, '-') && p + 1 < plus_end {
        Some((plus_end, FormatModel::Else(n, s.subrange(p + 1, plus_end))))
    } else if at(s, p, '?') && p + 1 < cond_end && at(s, cond_end, ':') && cond_end + 1 < else_end {
        Some(
            (
                else_end,
                FormatModel::IfElse(
                    n,
                    s.subrange(p + 1, cond_end),
                    s.subrange(cond_end + 1, else_end),
                ),
            ),
        )
    } else if 0 <= p < any_end {
        Some((any_end, FormatModel::Else(n, s.subrange(p, any_end))))
    } else {
        None
    }
}

/// `'${' digits ':' body '}'` as a format fragment.
pub open spec fn format_transform(s: Seq<char>, i: int) -> Option<(int, FormatModel)> {
    if at(s, i, '$') && at(s, i + 1, '{') {
        match digits(s, i + 2) {
            Some((d, n)) => if at(s, d, ':') {
                match format_body(s, d + 1, n) {
                    Some((e, f)) => if at(s, e, '}') {
                        Some((e + 1, f))
                    } else {
                        None
                    },
                    None => None,
                }
            } else {
                None
            },
            None => None,
        }
    } else {
        None
    }
}

/// `format`: a tab reference, a `${n:...}` fragment, or else a literal run up
/// to the next `/`.
pub open spec fn format_fragment(s: Seq<char>, i: int) -> Option<(int, FormatModel)> {
    match tab_stop(s, i) {
        Some((e, n)) => Some((e, FormatModel::Matched(n))),
        None => match format_transform(s, i) {
            Some(r) => Some(r),
            None => {
                let e = run_end(s, i, '/');
                if 0 <= i < e {
                    Some((e, FormatModel::Text(s.subrange(i, e))))
                } else {
                    None
                }
            },
        },
    }
}

/// `format*`, as many as follow one another from `i` on.
pub open spec fn formats(s: Seq<char>, i: int) -> (int, Seq<FormatModel>)
    decreases s.len() - i,
{
    match format_fragment(s, i) {
        Some((e, f)) => if i < e <= s.len() {
            let (e2, fs) = formats(s, e);
            (e2, seq![f] + fs)
        } else {
            (i, Seq::empty())
        },
        None => (i, Seq::empty()),
    }
}

/// `'/' regex '/' format* '/' options '}'`
pub open spec fn transform(s: Seq<char>, j: int) -> Option<(int, BindingModel)> {
    if at(s, j, '/') {
        match run(s, j + 1, TextMode::Pattern) {
            Some((re, r)) => if at(s, re, '/') {
                let (fe, fs) = formats(s, re + 1);
                let oe = run_end(s, fe + 1, '}');
                if at(s, fe, '/') && at(s, oe, '}') {
                    Some((oe + 1, BindingModel::Transform(r, fs, s.subrange(fe + 1, oe))))
                } else {
                    None
                }
            } else {
                None
            },
            None => None,
        }
    } else {
        None
    }
}

/// `placeholder := '${' digits ':' any+ '}'`
pub open spec fn placeholder(s: Seq<char>, i: int) -> Option<(int, AnyModel)>
    decreases s.len() - i, 1int,
{
    if at(s, i, '$') && at(s, i + 1, '{') {
        match digits(s, i + 2) {
            Some((d, n)) => if at(s, d, ':') && i < d {
                let (e, ch) = items(s, d + 1, true);
                if ch.len() > 0 && at(s, e, '}') {
                    Some((e + 1, AnyModel::Placeholder(n, ch)))
                } else {
                    None
                }
            } else {
                None
            },
            None => None,
        }
    } else {
        None
    }
}

/// `variable := '${' name ':' any+ '}' | '${' name transform`
pub open spec fn variable(s: Seq<char>, i: int) -> Option<(int, AnyModel)>
    decreases s.len() - i, 1int,
{
    if at(s, i, '$') && at(s, i + 1, '{') {
        match var_name(s, i + 2) {
            Some((ne, name)) => if at(s, ne, ':') && i < ne {
                let (e, ch) = items(s, ne + 1, true);
                if ch.len() > 0 && at(s, e, '}') {
                    Some((e + 1, AnyModel::Variable(name, BindingModel::Nodes(ch))))
                } else {
                    None
                }
            } else {
                match transform(s, ne) {
                    Some((e, b)) => Some((e, AnyModel::Variable(name, b))),
                    None => None,
                }
            },
            None => None,
        }
    } else {
        None
    }
}

/// `any`: the first of a tab stop or bare variable, a choice, a placeholder,
/// a variable and a text that matches at `i`; in a body (`braced`) a text
/// also ends at `}`.
pub open spec fn any_node(s: Seq<char>, i: int, braced: bool) -> Option<(int, AnyModel)>
    decreases s.len() - i, 2int,
{
    if i < 0 || i >= s.len() {
        None
    } else if tab_stop_or_var(s, i) is Some {
        tab_stop_or_var(s, i)
    } else if choice(s, i) is Some {
        choice(s, i)
    } else if placeholder(s, i) is Some {
        placeholder(s, i)
    } else if variable(s, i) is Some {
        variable(s, i)
    } else {
        match run(
            s,
            i,
            if braced {
                TextMode::Braced
            } else {
                TextMode::Top
            },
        ) {
            Some((e, t)) => Some((e, AnyModel::Text(t))),
            None => None,
        }
    }
}

/// `any*`: as many nodes as follow one another from `i` on.
pub open spec fn items(s: Seq<char>, i: int, braced: bool) -> (int, Seq<AnyModel>)
    decreases s.len() - i, 3int,
{
    match any_node(s, i, braced) {
        Some((e, a)) => if i < e <= s.len() {
            let (e2, l) = items(s, e, braced);
            (e2, seq![a] + l)
        } else {
            (i, Seq::empty())
        },
        None => (i, Seq::empty()),
    }
}

/// A whole template: its nodes, if they reach its end.
pub open spec fn parse_template(s: Seq<char>) -> Option<Seq<AnyModel>> {
    let (e, l) = items(s, 0, false);
    if e == s.len() {
        Some(l)
    } else {
        None
    }
}

} // verus!
