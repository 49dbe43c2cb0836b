use crate::text::{chars_of, string_from_chars};
use vstd::prelude::*;

verus! {

/// Unicode `White_Space` characters (what `char::is_whitespace` accepts).
pub open spec fn white_space(c: char) -> bool {
    let u = c as u32;
    (0x9 <= u && u <= 0xd) || u == 0x20 || u == 0x85 || u == 0xa0 || u == 0x1680 || (0x2000 <= u && u <= 0x200a)
        || u == 0x2028 || u == 0x2029 || u == 0x202f || u == 0x205f || u == 0x3000
}

fn is_white_space(c: char) -> (r: bool)
    ensures
        r == white_space(c),
{
    let u = c as u32;
    (0x9 <= u && u <= 0xd) || u == 0x20 || u == 0x85 || u == 0xa0 || u == 0x1680 || (0x2000 <= u && u <= 0x200a)
        || u == 0x2028 || u == 0x2029 || u == 0x202f || u == 0x205f || u == 0x3000
}

/// `s` without leading whitespace.
pub open spec fn trim_start(s: Seq<char>) -> Seq<char>
    decreases s.len(),
{
    if s.len() > 0 && white_space(s[0]) {
        trim_start(s.drop_first())
    } else {
        s
    }
}

/// `s` without trailing whitespace.
pub open spec fn trim_end(s: Seq<char>) -> Seq<char>
    decreases s.len(),
{
    if s.len() > 0 && white_space(s.last()) {
        trim_end(s.drop_last())
    } else {
        s
    }
}

/// The text of `s` without leading and trailing whitespace.
pub open spec fn trimmed(s: Seq<char>) -> Seq<char> {
    trim_end(trim_start(s))
}

/// The text without leading and trailing whitespace.
pub fn trim_text(s: &str) -> (r: String)
    ensures
        r@ == trimmed(s@),
{
    let cs = chars_of(s);
    let n = cs.len();
    let mut i: usize = 0;
    assert(cs@.subrange(0, n as int) =~= cs@);
    while i < n && is_white_space(cs[i])
        invariant
            n == cs@.len(),
            i <= n,
            trim_start(cs@) == trim_start(cs@.subrange(i as int, n as int)),
        decreases n - i,
    {
        assert(cs@.subrange(i as int, n as int).drop_first() =~= cs@.subrange(i + 1, n as int));
        i += 1;
    }
    let ghost t = cs@.subrange(i as int, n as int);
    assert(trim_start(t) == t);
    let mut j: usize = n;
    while j > i && is_white_space(cs[j - 1])
        invariant
            n == cs@.len(),
            i <= j <= n,
            t == cs@.subrange(i as int, n as int),
            trim_end(t) == trim_end(cs@.subrange(i as int, j as int)),
        decreases j,
    {
        assert(cs@.subrange(i as int, j as int).drop_last() =~= cs@.subrange(i as int, j - 1));
        j -= 1;
    }
    assert(trim_end(cs@.subrange(i as int, j as int)) == cs@.subrange(i as int, j as int));
    let mut out: Vec<char> = Vec::new();
    let mut k = i;
    while k < j
        invariant
            i <= k <= j <= n,
            n == cs@.len(),
            out@ == cs@.subrange(i as int, k as int),
        decreases j - k,
    {
        out.push(cs[k]);
        k += 1;
        assert(out@ =~= cs@.subrange(i as int, k as int));
    }
    string_from_chars(&out)
}

/// A `[[target]]` link found in a text. Positions count characters (not
/// UTF-8 bytes), so they differ from byte offsets in non-ASCII text.
#[derive(Debug, Clone, PartialEq)]
pub struct CellLink {
    /// The referenced short id, without surrounding whitespace.
    pub target_id: String,
    /// Position of the first `[`.
    pub start: usize,
    /// Position just past the last `]`.
    pub end: usize,
    /// The link text, brackets included.
    pub full_text: String,
}

/// First position at or after `from` holding `]` (the length if none).
pub open spec fn first_close(s: Seq<char>, from: int) -> int
    decreases s.len() - from,
{
    if from >= s.len() || from < 0 {
        s.len() as int
    } else if s[from] == ']' {
        from
    } else {
        first_close(s, from + 1)
    }
}

/// Does a link start at `p`? `[[`, one or more characters other than `]`,
/// then `]]`.
pub open spec fn link_starts_at(s: Seq<char>, p: int) -> bool {
    &&& 0 <= p && p + 1 < s.len()
    &&& s[p] == '[' && s[p + 1] == '['
    &&& first_close(s, p + 2) > p + 2
    &&& first_close(s, p + 2) + 1 < s.len()
    &&& s[first_close(s, p + 2) + 1] == ']'
}

/// The (start, end) spans of the links of `s` found scanning from `p`,
/// leftmost first and never overlapping.
pub open spec fn link_spans_from(s: Seq<char>, p: int) -> Seq<(int, int)>
    decreases s.len() - p,
{
    if p < 0 || p >= s.len() {
        Seq::empty()
    } else if link_starts_at(s, p) {
        let e = first_close(s, p + 2) + 2;
        seq![(p, e)] + link_spans_from(s, e)
    } else {
        link_spans_from(s, p + 1)
    }
}

pub open spec fn link_spans(s: Seq<char>) -> Seq<(int, int)> {
    link_spans_from(s, 0)
}

/// `l` is the link of `text` spanning `span`.
pub open spec fn link_matches(l: CellLink, text: Seq<char>, span: (int, int)) -> bool {
    &&& l.start == span.0
    &&& l.end == span.1
    &&& l.full_text@ == text.subrange(span.0, span.1)
    &&& l.target_id@ == trimmed(text.subrange(span.0 + 2, span.1 - 2))
}

pub proof fn lemma_first_close_bounds(s: Seq<char>, from: int)
    requires
        0 <= from,
    ensures
        from <= first_close(s, from) <= s.len() || (from > s.len() && first_close(s, from)
            == s.len()),
        first_close(s, from) < s.len() ==> s[first_close(s, from)] == ']',
        forall|k: int| from <= k < first_close(s, from) ==> s[k] != ']',
    decreases s.len() - from,
{
    if from < s.len() && s[from] != ']' {
        lemma_first_close_bounds(s, from + 1);
    }
}

fn find_close(s: &Vec<char>, from: usize) -> (r: usize)
    requires
        from <= s@.len(),
    ensures
        r == first_close(s@, from as int),
{
    let mut q = from;
    while q < s.len() && s[q] != ']'
        invariant
            from <= q <= s@.len(),
            first_close(s@, q as int) == first_close(s@, from as int),
        decreases s@.len() - q,
    {
        q += 1;
    }
    q
}

fn subtext(s: &Vec<char>, a: usize, b: usize) -> (r: String)
    requires
        a <= b <= s@.len(),
    ensures
        r@ == s@.subrange(a as int, b as int),
{
    let mut v: Vec<char> = Vec::new();
    let mut i = a;
    while i < b
        invariant
            a <= i <= b <= s@.len(),
            v@ == s@.subrange(a as int, i as int),
        decreases b - i,
    {
        v.push(s[i]);
        i += 1;
        assert(v@ =~= s@.subrange(a as int, i as int));
    }
    string_from_chars(&v)
}

/// All `[[target]]` links of `text`, leftmost first.
pub fn parse_cell_links(text: &str) -> (r: Vec<CellLink>)
    ensures
        r@.len() == link_spans(text@).len(),
        forall|i: int| 0 <= i < r@.len() ==> link_matches(#[trigger] r@[i], text@, link_spans(text@)[i]),
{
    let s = chars_of(text);
    let n = s.len();
    let mut links: Vec<CellLink> = Vec::new();
    let ghost mut done: Seq<(int, int)> = Seq::empty();
    let mut p: usize = 0;
    while p < n
        invariant
            s@ == text@,
            n == s@.len(),
            p <= n,
            done + link_spans_from(s@, p as int) == link_spans(s@),
            links@.len() == done.len(),
            forall|i: int| 0 <= i < links@.len() ==> link_matches(#[trigger] links@[i], s@, done[i]),
        decreases n - p,
    {
        let mut found = false;
        if p + 1 < n && s[p] == '[' && s[p + 1] == '[' {
            let q = find_close(&s, p + 2);
            if q > p + 2 && q < n - 1 && s[q + 1] == ']' {
                proof {
                    lemma_first_close_bounds(s@, p + 2);
                    assert(link_starts_at(s@, p as int));
                }
                let inner = subtext(&s, p + 2, q);
                let link = CellLink {
                    target_id: trim_text(inner.as_str()),
                    start: p,
                    end: q + 2,
                    full_text: subtext(&s, p, q + 2),
                };
                proof {
                    assert(link_spans_from(s@, p as int) == seq![(p as int, q + 2)] + link_spans_from(
                        s@,
                        q + 2,
                    ));
                    done = done.push((p as int, q + 2));
                    assert(done + link_spans_from(s@, (q + 2) as int) =~= link_spans(s@));
                }
                links.push(link);
                p = q + 2;
                found = true;
            }
        }
        if !found {
            proof {
                assert(!link_starts_at(s@, p as int));
            }
            p += 1;
        }
    }
    assert(done =~= link_spans(s@));
    links
}

/// The link whose span covers `position`, if any.
pub fn get_link_at_position(text: &str, position: usize) -> (r: Option<CellLink>)
    ensures
        r matches Some(l) ==> exists|i: int|
            0 <= i < link_spans(text@).len() && link_matches(l, text@, #[trigger] link_spans(text@)[i])
                && link_spans(text@)[i].0 <= position < link_spans(text@)[i].1,
        r is None ==> forall|i: int|
            0 <= i < link_spans(text@).len() ==> !(#[trigger] link_spans(text@)[i].0 <= position
                < link_spans(text@)[i].1),
{
    let mut links = parse_cell_links(text);
    let mut i: usize = 0;
    while i < links.len()
        invariant
            links@.len() == link_spans(text@).len(),
            forall|k: int| 0 <= k < links@.len() ==> link_matches(#[trigger] links@[k], text@, link_spans(text@)[k]),
            forall|k: int| 0 <= k < i ==> !(#[trigger] link_spans(text@)[k].0 <= position < link_spans(text@)[k].1),
            i <= links@.len(),
        decreases links@.len() - i,
    {
        if position >= links[i].start && position < links[i].end {
            let l = links.remove(i);
            return Some(l);
        }
        i += 1;
    }
    None
}

} // verus!
