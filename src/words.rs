use vstd::prelude::*;

verus! {

/// The Unicode `White_Space` property, by code point.
pub open spec fn white_space(c: char) -> bool {
    let u = c as u32;
    (0x09 <= u <= 0x0d) || u == 0x20 || u == 0x85 || u == 0xa0 || u == 0x1680 || (0x2000 <= u
        <= 0x200a) || u == 0x2028 || u == 0x2029 || u == 0x202f || u == 0x205f || u == 0x3000
}

/// `s` without its leading white space.
pub open spec fn trim_start(s: Seq<char>) -> Seq<char>
    decreases s.len(),
{
    if s.len() > 0 && white_space(s[0]) {
        trim_start(s.drop_first())
    } else {
        s
    }
}

/// `s` without its trailing white space.
pub open spec fn trim_end(s: Seq<char>) -> Seq<char>
    decreases s.len(),
{
    if s.len() > 0 && white_space(s.last()) {
        trim_end(s.drop_last())
    } else {
        s
    }
}

/// `s` without white space at either end.
pub open spec fn trim(s: Seq<char>) -> Seq<char> {
    trim_end(trim_start(s))
}

/// The pieces of `s` between white-space characters: every white-space
/// character separates two pieces, so consecutive ones give empty pieces, and
/// the empty sequence is one empty piece.
pub open spec fn split_white(s: Seq<char>) -> Seq<Seq<char>>
    decreases s.len(),
{
    if s.len() == 0 {
        seq![Seq::empty()]
    } else {
        let init = split_white(s.drop_last());
        if white_space(s.last()) {
            init.push(Seq::empty())
        } else {
            init.update(init.len() - 1, init.last().push(s.last()))
        }
    }
}

/// `w` stands in `s` from index `i` on.
pub open spec fn occurs_at(s: Seq<char>, w: Seq<char>, i: int) -> bool {
    0 <= i && i + w.len() <= s.len() && s.subrange(i, i + w.len()) == w
}

/// The first index from `i` on where `w` stands in `s`.
pub open spec fn search_from(s: Seq<char>, w: Seq<char>, i: int) -> Option<int>
    decreases s.len() + 1 - i,
{
    if i < 0 || i + w.len() > s.len() {
        None
    } else if occurs_at(s, w, i) {
        Some(i)
    } else {
        search_from(s, w, i + 1)
    }
}

/// The first index where `w` stands in `s`.
pub open spec fn index_of(s: Seq<char>, w: Seq<char>) -> Option<int> {
    search_from(s, w, 0)
}

pub proof fn lemma_split_white_nonempty(s: Seq<char>)
    ensures
        split_white(s).len() >= 1,
    decreases s.len(),
{
    if s.len() > 0 {
        lemma_split_white_nonempty(s.drop_last());
    }
}

proof fn lemma_search_from(s: Seq<char>, w: Seq<char>, i: int)
    requires
        0 <= i,
    ensures
        match search_from(s, w, i) {
            Some(k) => i <= k && occurs_at(s, w, k) && forall|j: int|
                i <= j < k ==> !occurs_at(s, w, j),
            None => forall|j: int| i <= j ==> !occurs_at(s, w, j),
        },
    decreases s.len() + 1 - i,
{
    if i + w.len() <= s.len() && !occurs_at(s, w, i) {
        lemma_search_from(s, w, i + 1);
    }
}

/// `index_of` gives the least index where `w` stands in `s`, and `None` where
/// it stands nowhere.
pub proof fn lemma_index_of(s: Seq<char>, w: Seq<char>)
    ensures
        match index_of(s, w) {
            Some(k) => occurs_at(s, w, k) && forall|j: int| 0 <= j < k ==> !occurs_at(s, w, j),
            None => forall|j: int| !occurs_at(s, w, j),
        },
{
    lemma_search_from(s, w, 0);
}

/// Whether `c` is a white-space character.
pub fn is_white_space(c: char) -> (r: bool)
    ensures
        r == white_space(c),
{
    let u = c as u32;
    (0x09 <= u && u <= 0x0d) || u == 0x20 || u == 0x85 || u == 0xa0 || u == 0x1680 || (0x2000 <= u
        && u <= 0x200a) || u == 0x2028 || u == 0x2029 || u == 0x202f || u == 0x205f || u == 0x3000
}

/// The characters of `s`, in order.
pub fn chars_of(s: &str) -> (r: Vec<char>)
    ensures
        r@ == s@,
{
    let mut v: Vec<char> = Vec::new();
    for c in it: s.chars()
        invariant
            v@ == it.seq().take(it.index() as int),
    {
        v.push(c);
    }
    v
}

/// Relies on `String::push`: appends one character.
#[verifier::external_body]
pub(crate) fn push_char(s: &mut String, c: char)
    ensures
        final(s)@ == old(s)@.push(c),
{
    s.push(c);
}

/// A string holding the characters of `s` from `lo` up to `hi`.
pub fn string_from(s: &[char], lo: usize, hi: usize) -> (r: String)
    requires
        lo <= hi <= s@.len(),
    ensures
        r@ == s@.subrange(lo as int, hi as int),
{
    let mut r = String::new();
    let mut i = lo;
    while i < hi
        invariant
            lo <= i <= hi <= s@.len(),
            r@ == s@.subrange(lo as int, i as int),
        decreases hi - i,
    {
        push_char(&mut r, s[i]);
        assert(s@.subrange(lo as int, i + 1) == s@.subrange(lo as int, i as int).push(s@[i as int]));
        i += 1;
    }
    r
}

/// The characters of `s` from `lo` up to `hi`.
pub fn chars_range(s: &[char], lo: usize, hi: usize) -> (r: Vec<char>)
    requires
        lo <= hi <= s@.len(),
    ensures
        r@ == s@.subrange(lo as int, hi as int),
{
    let mut r: Vec<char> = Vec::new();
    let mut i = lo;
    while i < hi
        invariant
            lo <= i <= hi <= s@.len(),
            r@ == s@.subrange(lo as int, i as int),
        decreases hi - i,
    {
        r.push(s[i]);
        assert(s@.subrange(lo as int, i + 1) == s@.subrange(lo as int, i as int).push(s@[i as int]));
        i += 1;
    }
    r
}

/// The bounds `(lo, hi)` of `s` without white space at either end.
pub fn trim_bounds(s: &[char]) -> (r: (usize, usize))
    ensures
        r.0 <= r.1 <= s@.len(),
        s@.subrange(r.0 as int, r.1 as int) == trim(s@),
{
    let n = s.len();
    let mut lo: usize = 0;
    assert(s@.subrange(0, n as int) == s@);
    while lo < n && is_white_space(s[lo])
        invariant
            lo <= n == s@.len(),
            trim_start(s@) == trim_start(s@.subrange(lo as int, n as int)),
        decreases n - lo,
    {
        assert(s@.subrange(lo as int, n as int).drop_first() == s@.subrange(lo + 1, n as int));
        lo += 1;
    }
    assert(trim_start(s@.subrange(lo as int, n as int)) == s@.subrange(lo as int, n as int));
    let mut hi: usize = n;
    while hi > lo && is_white_space(s[hi - 1])
        invariant
            lo <= hi <= n == s@.len(),
            trim(s@) == trim_end(s@.subrange(lo as int, hi as int)),
        decreases hi,
    {
        assert(s@.subrange(lo as int, hi as int).drop_last() == s@.subrange(lo as int, hi - 1));
        hi -= 1;
    }
    (lo, hi)
}

/// The pieces of `s[lo..hi]` between white-space characters.
pub fn split_white_space(s: &[char], lo: usize, hi: usize) -> (r: Vec<Vec<char>>)
    requires
        lo <= hi <= s@.len(),
    ensures
        r@.len() == split_white(s@.subrange(lo as int, hi as int)).len(),
        forall|k: int|
            0 <= k < r@.len() ==> #[trigger] r@[k]@ == split_white(
                s@.subrange(lo as int, hi as int),
            )[k],
{
    let ghost t = s@.subrange(lo as int, hi as int);
    let mut done: Vec<Vec<char>> = Vec::new();
    let mut cur: Vec<char> = Vec::new();
    let mut i = lo;
    while i < hi
        invariant
            lo <= i <= hi <= s@.len(),
            t == s@.subrange(lo as int, hi as int),
            done@.len() + 1 == split_white(t.subrange(0, i - lo)).len(),
            forall|k: int|
                0 <= k < done@.len() ==> #[trigger] done@[k]@ == split_white(
                    t.subrange(0, i - lo),
                )[k],
            cur@ == split_white(t.subrange(0, i - lo)).last(),
        decreases hi - i,
    {
        let c = s[i];
        proof {
            let u = t.subrange(0, i + 1 - lo);
            assert(u.drop_last() == t.subrange(0, i - lo));
            assert(u.last() == c);
            lemma_split_white_nonempty(t.subrange(0, i - lo));
        }
        if is_white_space(c) {
            let piece = cur;
            done.push(piece);
            cur = Vec::new();
        } else {
            cur.push(c);
        }
        i += 1;
    }
    assert(t.subrange(0, hi - lo) == t);
    done.push(cur);
    done
}

/// The first index where the characters of `pat` stand in `sentence`.
pub fn index_in(sentence: &[char], pat: &[char]) -> (r: Option<usize>)
    ensures
        match r {
            Some(i) => index_of(sentence@, pat@) == Some(i as int),
            None => index_of(sentence@, pat@) is None,
        },
{
    let n = sentence.len();
    let m = pat.len();
    if n < m {
        return None;
    }
    let mut i: usize = 0;
    while i <= n - m
        invariant
            m <= n,
            n == sentence@.len(),
            m == pat@.len(),
            i <= n - m + 1,
            search_from(sentence@, pat@, 0) == search_from(sentence@, pat@, i as int),
        decreases n - m + 1 - i,
    {
        let mut j: usize = 0;
        while j < m && sentence[i + j] == pat[j]
            invariant
                i <= n - m,
                j <= m,
                n == sentence@.len(),
                m == pat@.len(),
                forall|k: int| 0 <= k < j ==> sentence@[i + k] == pat@[k],
            decreases m - j,
        {
            j += 1;
        }
        if j == m {
            assert(sentence@.subrange(i as int, i + m) == pat@);
            return Some(i);
        }
        assert(sentence@.subrange(i as int, i + m)[j as int] != pat@[j as int]);
        i += 1;
    }
    None
}

} // verus!
