//! Character-level recognition of markup: tag names, open and close tags,
//! same-name matching with nesting, and attribute lists.
use vstd::prelude::*;

verus! {

/// A character that may appear in a tag or attribute name.
pub open spec fn is_word_char(c: char) -> bool {
    ('a' <= c && c <= 'z') || ('A' <= c && c <= 'Z') || ('0' <= c && c <= '9') || c == '_'
}

pub open spec fn is_space(c: char) -> bool {
    c == ' ' || c == '\t' || c == '\n' || c == '\r'
}

/// End of the run of word characters starting at `i`, not beyond `hi`.
pub open spec fn word_end(s: Seq<char>, i: int, hi: int) -> int
    decreases hi - i,
{
    if 0 <= i < hi && is_word_char(s[i]) {
        word_end(s, i + 1, hi)
    } else {
        i
    }
}

/// End of the run of white space starting at `i`, not beyond `hi`.
pub open spec fn space_end(s: Seq<char>, i: int, hi: int) -> int
    decreases hi - i,
{
    if 0 <= i < hi && is_space(s[i]) {
        space_end(s, i + 1, hi)
    } else {
        i
    }
}

/// First position at or after `i` holding `c`, or `hi` when there is none before `hi`.
pub open spec fn find_char(s: Seq<char>, i: int, hi: int, c: char) -> int
    decreases hi - i,
{
    if 0 <= i < hi {
        if s[i] == c {
            i
        } else {
            find_char(s, i + 1, hi, c)
        }
    } else {
        hi
    }
}

/// An open tag `<name ...>` at `i`: the end of its name and the position of its `>`.
pub open spec fn open_tag(s: Seq<char>, i: int, hi: int) -> Option<(int, int)> {
    if 0 <= i && i + 1 < hi && s[i] == '<' {
        let ne = word_end(s, i + 1, hi);
        let gt = find_char(s, ne, hi, '>');
        if i + 1 < ne && ne <= gt && gt < hi {
            Some((ne, gt))
        } else {
            None
        }
    } else {
        None
    }
}

/// A close tag `</name ...>` at `i`: the end of its name and the position of its `>`.
pub open spec fn close_tag(s: Seq<char>, i: int, hi: int) -> Option<(int, int)> {
    if 0 <= i && i + 2 < hi && s[i] == '<' && s[i + 1] == '/' {
        let ne = word_end(s, i + 2, hi);
        let gt = find_char(s, ne, hi, '>');
        if i + 2 < ne && ne <= gt && gt < hi {
            Some((ne, gt))
        } else {
            None
        }
    } else {
        None
    }
}

/// Scans from `i` for the close tag that ends an element named `name`, with
/// `depth` elements of that name still open. Tags of other names are passed
/// over. Gives the close tag's start and the position just after it.
pub open spec fn match_close(s: Seq<char>, i: int, hi: int, name: Seq<char>, depth: nat) -> Option<(int, int)>
    decreases hi - i,
{
    if 0 <= i < hi {
        match close_tag(s, i, hi) {
            Some((ne, gt)) if s.subrange(i + 2, ne) == name => {
                if depth <= 1 {
                    Some((i, gt + 1))
                } else {
                    match_close(s, gt + 1, hi, name, (depth - 1) as nat)
                }
            },
            _ => match open_tag(s, i, hi) {
                Some((ne, gt)) if s.subrange(i + 1, ne) == name => match_close(s, gt + 1, hi, name, depth + 1),
                _ => match_close(s, i + 1, hi, name, depth),
            },
        }
    } else {
        None
    }
}

/// A whole element starting at `i`: name end, `>` of the open tag, start of
/// the close tag, and the position after the close tag.
pub open spec fn element(s: Seq<char>, i: int, hi: int) -> Option<(int, int, int, int)> {
    match open_tag(s, i, hi) {
        Some((ne, gt)) => match match_close(s, gt + 1, hi, s.subrange(i + 1, ne), 1) {
            Some((cs, after)) => if gt + 1 <= cs && cs < after && after <= hi {
                Some((ne, gt, cs, after))
            } else {
                None
            },
            None => None,
        },
        None => None,
    }
}

pub open spec fn elem_view(r: Option<(usize, usize, usize, usize)>) -> Option<(int, int, int, int)> {
    match r {
        Some((a, b, c, d)) => Some((a as int, b as int, c as int, d as int)),
        None => None,
    }
}

pub open spec fn pair_view(r: Option<(usize, usize)>) -> Option<(int, int)> {
    match r {
        Some((a, b)) => Some((a as int, b as int)),
        None => None,
    }
}

pub fn is_word_char_exec(c: char) -> (r: bool)
    ensures
        r == is_word_char(c),
{
    ('a' <= c && c <= 'z') || ('A' <= c && c <= 'Z') || ('0' <= c && c <= '9') || c == '_'
}

pub fn word_end_exec(s: &Vec<char>, i: usize, hi: usize) -> (r: usize)
    requires
        i <= hi <= s.len(),
    ensures
        r as int == word_end(s@, i as int, hi as int),
        i <= r <= hi,
{
    let mut j = i;
    while j < hi && is_word_char_exec(s[j])
        invariant
            i <= j <= hi <= s.len(),
            word_end(s@, i as int, hi as int) == word_end(s@, j as int, hi as int),
        decreases hi - j,
    {
        j = j + 1;
    }
    j
}

pub fn space_end_exec(s: &Vec<char>, i: usize, hi: usize) -> (r: usize)
    requires
        i <= hi <= s.len(),
    ensures
        r as int == space_end(s@, i as int, hi as int),
        i <= r <= hi,
{
    let mut j = i;
    while j < hi && (s[j] == ' ' || s[j] == '\t' || s[j] == '\n' || s[j] == '\r')
        invariant
            i <= j <= hi <= s.len(),
            space_end(s@, i as int, hi as int) == space_end(s@, j as int, hi as int),
        decreases hi - j,
    {
        j = j + 1;
    }
    j
}

pub fn find_char_exec(s: &Vec<char>, i: usize, hi: usize, c: char) -> (r: usize)
    requires
        i <= hi <= s.len(),
    ensures
        r as int == find_char(s@, i as int, hi as int, c),
        i <= r <= hi,
{
    let mut j = i;
    while j < hi && s[j] != c
        invariant
            i <= j <= hi <= s.len(),
            find_char(s@, i as int, hi as int, c) == find_char(s@, j as int, hi as int, c),
        decreases hi - j,
    {
        j = j + 1;
    }
    j
}

/// Whether two ranges of `s` hold the same characters.
pub fn range_eq(s: &Vec<char>, a: usize, a_end: usize, b: usize, b_end: usize) -> (r: bool)
    requires
        a <= a_end <= s.len(),
        b <= b_end <= s.len(),
    ensures
        r == (s@.subrange(a as int, a_end as int) == s@.subrange(b as int, b_end as int)),
{
    if a_end - a != b_end - b {
        assert(s@.subrange(a as int, a_end as int).len() != s@.subrange(b as int, b_end as int).len());
        return false;
    }
    let n = a_end - a;
    let mut k: usize = 0;
    while k < n
        invariant
            n == a_end - a == b_end - b,
            a <= a_end <= s.len(),
            b <= b_end <= s.len(),
            k <= n,
            forall|m: int| 0 <= m < k ==> #[trigger] s@.subrange(a as int, a_end as int)[m] == s@.subrange(b as int, b_end as int)[m],
        decreases n - k,
    {
        if s[a + k] != s[b + k] {
            assert(s@.subrange(a as int, a_end as int)[k as int] != s@.subrange(b as int, b_end as int)[k as int]);
            return false;
        }
        k = k + 1;
    }
    assert(s@.subrange(a as int, a_end as int) =~= s@.subrange(b as int, b_end as int));
    true
}

pub fn open_tag_exec(s: &Vec<char>, i: usize, hi: usize) -> (r: Option<(usize, usize)>)
    requires
        i <= hi <= s.len(),
    ensures
        pair_view(r) == open_tag(s@, i as int, hi as int),
        r matches Some((ne, gt)) ==> i + 1 < ne <= gt < hi,
{
    if hi - i > 1 && s[i] == '<' {
        let ne = word_end_exec(s, i + 1, hi);
        let gt = find_char_exec(s, ne, hi, '>');
        if i + 1 < ne && ne <= gt && gt < hi {
            Some((ne, gt))
        } else {
            None
        }
    } else {
        None
    }
}

pub fn close_tag_exec(s: &Vec<char>, i: usize, hi: usize) -> (r: Option<(usize, usize)>)
    requires
        i <= hi <= s.len(),
    ensures
        pair_view(r) == close_tag(s@, i as int, hi as int),
        r matches Some((ne, gt)) ==> i + 2 < ne <= gt < hi,
{
    if hi >= 3 && i < hi - 2 && s[i] == '<' && s[i + 1] == '/' {
        let ne = word_end_exec(s, i + 2, hi);
        let gt = find_char_exec(s, ne, hi, '>');
        if i + 2 < ne && ne <= gt && gt < hi {
            Some((ne, gt))
        } else {
            None
        }
    } else {
        None
    }
}

/// Finds the close tag of the element whose name is `s[ns..ne]`, scanning from `i`.
pub fn match_close_exec(s: &Vec<char>, i: usize, hi: usize, ns: usize, ne: usize) -> (r: Option<(usize, usize)>)
    requires
        1 <= i <= hi <= s.len(),
        ns <= ne <= s.len(),
    ensures
        pair_view(r) == match_close(s@, i as int, hi as int, s@.subrange(ns as int, ne as int), 1),
{
    let ghost name = s@.subrange(ns as int, ne as int);
    let mut j = i;
    let mut depth: usize = 1;
    while j < hi
        invariant
            1 <= i <= j <= hi <= s.len(),
            ns <= ne <= s.len(),
            name == s@.subrange(ns as int, ne as int),
            1 <= depth <= j,
            match_close(s@, i as int, hi as int, name, 1) == match_close(s@, j as int, hi as int, name, depth as nat),
        decreases hi - j,
    {
        match close_tag_exec(s, j, hi) {
            Some((cne, cgt)) => {
                if range_eq(s, j + 2, cne, ns, ne) {
                    if depth <= 1 {
                        return Some((j, cgt + 1));
                    }
                    depth = depth - 1;
                    j = cgt + 1;
                    continue;
                }
            },
            None => {},
        }
        match open_tag_exec(s, j, hi) {
            Some((one, ogt)) => {
                if range_eq(s, j + 1, one, ns, ne) {
                    depth = depth + 1;
                    j = ogt + 1;
                    continue;
                }
            },
            None => {},
        }
        j = j + 1;
    }
    None
}

/// Recognises a whole element at `i`.
pub fn element_exec(s: &Vec<char>, i: usize, hi: usize) -> (r: Option<(usize, usize, usize, usize)>)
    requires
        i <= hi <= s.len(),
    ensures
        elem_view(r) == element(s@, i as int, hi as int),
        r matches Some((ne, gt, cs, after)) ==> i + 1 < ne <= gt && gt + 1 <= cs && cs < after <= hi,
{
    match open_tag_exec(s, i, hi) {
        Some((ne, gt)) => match match_close_exec(s, gt + 1, hi, i + 1, ne) {
            Some((cs, after)) => if gt + 1 <= cs && cs < after && after <= hi {
                Some((ne, gt, cs, after))
            } else {
                None
            },
            None => None,
        },
        None => None,
    }
}

} // verus!
