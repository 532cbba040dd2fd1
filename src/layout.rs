//! The table layout compiler: a format pass that writes the column
//! specification line and a generation pass that writes the cell blocks,
//! both tracking rowspans in a ledger from column index to remaining rows.
use vstd::prelude::*;
use std::collections::HashMap;
use crate::markup::{is_cell, is_cell_name, parse, root_tree, Node, Tree};
use crate::text::{append_str, chars_of, eq_str, string_of};

verus! {

broadcast use vstd::std_specs::hash::group_hash_axioms;

/// Why a conversion failed, as a mathematical value.
pub enum Fail {
    Malformed(Seq<char>),
    Missing,
}

/// Why a conversion failed.
#[derive(Debug)]
pub enum HtmlError {
    /// A `colspan` or `rowspan` value that is not a positive integer.
    MalformedSpanAttribute { value: String },
    /// A node without a tag name.
    MissingStructuralName,
}

impl HtmlError {
    pub open spec fn fail(&self) -> Fail {
        match self {
            HtmlError::MalformedSpanAttribute { value } => Fail::Malformed(value@),
            HtmlError::MissingStructuralName => Fail::Missing,
        }
    }

    /// The error for a malformed span attribute value.
    pub fn from_error(value: &str) -> (r: HtmlError)
        ensures
            r.fail() == Fail::Malformed(value@),
    {
        HtmlError::MalformedSpanAttribute { value: string_of(&chars_of(value)) }
    }
}

/// A pass's result: the text written and the ledger afterwards.
pub type Pass = Result<(Seq<char>, Map<usize, usize>), Fail>;

pub open spec fn prefixed(p: Seq<char>, r: Pass) -> Pass {
    match r {
        Ok((s, l)) => Ok((p + s, l)),
        Err(e) => Err(e),
    }
}

pub open spec fn is_digit(c: char) -> bool {
    '0' <= c && c <= '9'
}

/// The decimal value of a string of digits.
pub open spec fn dec(v: Seq<char>) -> int
    decreases v.len(),
{
    if v.len() == 0 {
        0
    } else {
        dec(v.drop_last()) * 10 + (v.last() as int - '0' as int)
    }
}

/// The value of a span attribute: a positive integer in decimal digits that fits a `usize`.
pub open spec fn span_value(v: Seq<char>) -> Option<int> {
    if v.len() > 0 && (forall|k: int| 0 <= k < v.len() ==> #[trigger] is_digit(v[k])) && 1 <= dec(v)
        <= usize::MAX {
        Some(dec(v))
    } else {
        None
    }
}

/// The value bound to `key`; the last binding wins.
pub open spec fn lookup(attrs: Seq<(Seq<char>, Seq<char>)>, key: Seq<char>) -> Option<Seq<char>>
    decreases attrs.len(),
{
    if attrs.len() == 0 {
        None
    } else if attrs.last().0 == key {
        Some(attrs.last().1)
    } else {
        lookup(attrs.drop_last(), key)
    }
}

/// A span attribute of a node: absent, a value, or malformed.
pub open spec fn span_of(t: Tree, key: Seq<char>) -> Result<Option<int>, Fail> {
    match lookup(t.attrs, key) {
        None => Ok(None),
        Some(v) => match span_value(v) {
            Some(n) => Ok(Some(n)),
            None => Err(Fail::Malformed(v)),
        },
    }
}

pub open spec fn sat(x: int) -> int {
    if x > usize::MAX {
        usize::MAX as int
    } else {
        x
    }
}

/// Width of a row's cells from `k` on, each counting its colspan, added to `acc`.
pub open spec fn width_from(cs: Seq<Tree>, k: int, acc: int) -> Result<int, Fail>
    decreases cs.len() - k,
{
    if 0 <= k < cs.len() {
        match span_of(cs[k], "colspan"@) {
            Err(e) => Err(e),
            Ok(None) => width_from(cs, k + 1, sat(acc + 1)),
            Ok(Some(n)) => width_from(cs, k + 1, sat(acc + n)),
        }
    } else {
        Ok(acc)
    }
}

pub open spec fn row_width(row: Tree) -> Result<int, Fail> {
    width_from(row.children, 0, 0)
}

/// Whether the cell at `index` of a row `width` wide absorbs extra width.
pub open spec fn expands(index: int, width: int) -> bool {
    (width == 3 && index == 1) || (width != 3 && width < 5 && index == width - 1)
}

/// The column token of a cell.
pub open spec fn cell_token(name: Seq<char>, index: int, width: int) -> Seq<char> {
    seq![if name == seq!['t', 'h'] { 'c' } else { 'l' }] + (if expands(index, width) {
        seq!['x']
    } else {
        seq![]
    }) + seq![' ']
}

/// `k` filler tokens.
pub open spec fn fillers(k: int) -> Seq<char>
    decreases k,
{
    if k <= 0 {
        seq![]
    } else {
        fillers(k - 1) + seq!['s', ' ']
    }
}

/// A covered column's ledger entry after one more row.
pub open spec fn step_down(led: Map<usize, usize>, i: usize) -> Map<usize, usize> {
    if led[i] <= 1 {
        led.remove(i)
    } else {
        led.insert(i, (led[i] - 1) as usize)
    }
}

/// Registers `rows` remaining rows at `index` when `span` is above one.
pub open spec fn reserve(led: Map<usize, usize>, index: int, span: Option<int>, rows: int) -> Map<usize, usize> {
    match span {
        Some(r) => if r > 1 {
            led.insert(index as usize, rows as usize)
        } else {
            led
        },
        None => led,
    }
}

/// The format pass's output for a cell: its token and a filler for each
/// further column it spans. A cell spanning `r > 1` rows registers `r`
/// remaining rows at its index.
pub open spec fn format_head_of(t: Tree, index: int, width: int, led: Map<usize, usize>) -> Pass {
    if is_cell_name(t.name) {
        match span_of(t, "colspan"@) {
            Err(e) => Err(e),
            Ok(cspan) => match span_of(t, "rowspan"@) {
                Err(e) => Err(e),
                Ok(rspan) => Ok((
                    cell_token(t.name, index, width) + match cspan {
                        Some(c) => fillers(c - 1),
                        None => seq![],
                    },
                    match rspan {
                        Some(r) => reserve(led, index, rspan, r),
                        None => led,
                    },
                )),
            },
        }
    } else {
        Ok((seq![], led))
    }
}

pub open spec fn format_tail(name: Seq<char>) -> Seq<char> {
    if name == "table"@ {
        ".\n"@
    } else if name == "tr"@ {
        "\n"@
    } else {
        seq![]
    }
}

/// The width handed to a node's children: the first row's width when the
/// first child is a row.
pub open spec fn width_for(cs: Seq<Tree>, width: int) -> Result<int, Fail> {
    if cs.len() > 0 && cs[0].name == "tr"@ {
        row_width(cs[0])
    } else {
        Ok(width)
    }
}

/// The format pass on one node.
pub open spec fn format_of(t: Tree, index: int, width: int, led: Map<usize, usize>) -> Pass
    decreases t, 0int,
{
    if t.name.len() == 0 {
        Err(Fail::Missing)
    } else {
        match format_head_of(t, index, width, led) {
            Err(e) => Err(e),
            Ok((h, led1)) => {
                let body = if t.name == "tr"@ && led1.len() > 0 {
                    format_row(t.children, 0, width, 0, led1)
                } else {
                    match width_for(t.children, width) {
                        Err(e) => Err(e),
                        Ok(w) => format_list(t.children, 0, w, led1),
                    }
                };
                finish(h, body, format_tail(t.name))
            },
        }
    }
}

/// The format pass on a row with covered columns, from column `i`, with
/// `ci` cells consumed; a missing cell is an empty data cell.
pub open spec fn format_row(cs: Seq<Tree>, i: int, width: int, ci: int, led: Map<usize, usize>) -> Pass
    decreases cs, width - i,
{
    if i >= width {
        Ok((seq![], led))
    } else if led.contains_key(i as usize) {
        prefixed(seq!['^', ' '], format_row(cs, i + 1, width, ci, step_down(led, i as usize)))
    } else if 0 <= ci < cs.len() {
        match format_of(cs[ci], i, width, led) {
            Err(e) => Err(e),
            Ok((s, led1)) => prefixed(s, format_row(cs, i + 1, width, ci + 1, led1)),
        }
    } else {
        prefixed(cell_token(seq!['t', 'd'], i, width), format_row(cs, i + 1, width, ci + 1, led))
    }
}

/// The format pass on the children from `k` on.
pub open spec fn format_list(cs: Seq<Tree>, k: int, width: int, led: Map<usize, usize>) -> Pass
    decreases cs, cs.len() - k,
{
    if 0 <= k < cs.len() {
        match format_of(cs[k], k, width, led) {
            Err(e) => Err(e),
            Ok((s, led1)) => prefixed(s, format_list(cs, k + 1, width, led1)),
        }
    } else {
        Ok((seq![], led))
    }
}

proof fn lemma_dec_prefix(v: Seq<char>, k: int)
    requires
        0 <= k <= v.len(),
        forall|m: int| 0 <= m < v.len() ==> #[trigger] is_digit(v[m]),
    ensures
        0 <= dec(v.take(k)) <= dec(v),
    decreases v.len(),
{
    if v.len() > 0 {
        let dl = v.drop_last();
        assert forall|m: int| 0 <= m < dl.len() implies #[trigger] is_digit(dl[m]) by {
            assert(dl[m] == v[m]);
        }
        assert(is_digit(v[v.len() - 1]));
        let d = v.last() as int - '0' as int;
        assert(0 <= d <= 9);
        assert(dec(v) == dec(dl) * 10 + d);
        lemma_dec_prefix(dl, dl.len() as int);
        assert(dl.take(dl.len() as int) =~= dl);
        if k == v.len() {
            assert(v.take(k) =~= v);
        } else {
            lemma_dec_prefix(dl, k);
            assert(dl.take(k) =~= v.take(k));
        }
    } else {
        assert(v.take(k) =~= v);
    }
}

/// Reads a span attribute value.
fn parse_span(v: &Vec<char>) -> (r: Option<usize>)
    ensures
        match r {
            Some(n) => span_value(v@) == Some(n as int),
            None => span_value(v@) is None,
        },
{
    if v.len() == 0 {
        return None;
    }
    let mut acc: usize = 0;
    let mut k: usize = 0;
    while k < v.len()
        invariant
            k <= v.len(),
            forall|m: int| 0 <= m < k ==> #[trigger] is_digit(v@[m]),
            acc as int == dec(v@.take(k as int)),
        decreases v.len() - k,
    {
        let c = v[k];
        if !('0' <= c && c <= '9') {
            assert(!is_digit(v@[k as int]));
            return None;
        }
        let d = (c as u32 - '0' as u32) as usize;
        assert(v@.take(k + 1).drop_last() =~= v@.take(k as int));
        if acc > (usize::MAX - d) / 10 {
            proof {
                assert(acc * 10 + d > usize::MAX) by (nonlinear_arith)
                    requires
                        acc > (usize::MAX - d) / 10,
                        d <= 9,
                ;
                assert(dec(v@.take(k + 1)) == acc * 10 + d);
                if forall|m: int| 0 <= m < v@.len() ==> #[trigger] is_digit(v@[m]) {
                    lemma_dec_prefix(v@, k + 1);
                }
            }
            return None;
        }
        acc = acc * 10 + d;
        k = k + 1;
    }
    assert(v@.take(k as int) =~= v@);
    if acc == 0 {
        return None;
    }
    Some(acc)
}

pub open spec fn span_view(r: Result<Option<usize>, HtmlError>) -> Result<Option<int>, Fail> {
    match r {
        Ok(Some(n)) => Ok(Some(n as int)),
        Ok(None) => Ok(None),
        Err(e) => Err(e.fail()),
    }
}

/// Reads the span attribute `key` of a node.
fn span_attr(n: &Node, key: &str) -> (r: Result<Option<usize>, HtmlError>)
    ensures
        span_view(r) == span_of(n.model(), key@),
{
    let ghost attrs = n.model().attrs;
    let mut k = n.attrs.len();
    assert(attrs.take(k as int) =~= attrs);
    while k > 0
        invariant
            k <= n.attrs.len(),
            attrs == n.model().attrs,
            attrs.len() == n.attrs.len(),
            lookup(attrs, key@) == lookup(attrs.take(k as int), key@),
        decreases k,
    {
        let a = &n.attrs[k - 1];
        assert(attrs.take(k as int).last() == (a.key@, a.value@));
        if eq_str(&a.key, key) {
            return match parse_span(&a.value) {
                Some(v) => Ok(Some(v)),
                None => Err(HtmlError::MalformedSpanAttribute { value: string_of(&a.value) }),
            };
        }
        assert(attrs.take(k as int).drop_last() =~= attrs.take(k - 1));
        k = k - 1;
    }
    Ok(None)
}

pub open spec fn width_view(r: Result<usize, HtmlError>) -> Result<int, Fail> {
    match r {
        Ok(n) => Ok(n as int),
        Err(e) => Err(e.fail()),
    }
}

/// The width of a row: the sum of its cells' colspans.
fn row_width_exec(row: &Node) -> (r: Result<usize, HtmlError>)
    ensures
        width_view(r) == row_width(row.model()),
{
    let ghost cs = row.model().children;
    let mut w: usize = 0;
    let mut k: usize = 0;
    while k < row.children.len()
        invariant
            k <= row.children.len(),
            cs == row.model().children,
            cs.len() == row.children.len(),
            width_from(cs, k as int, w as int) == row_width(row.model()),
        decreases row.children.len() - k,
    {
        assert(cs[k as int] == row.children[k as int].model());
        let n = match span_attr(&row.children[k], "colspan") {
            Err(e) => return Err(e),
            Ok(None) => 1,
            Ok(Some(n)) => n,
        };
        w = if w > usize::MAX - n { usize::MAX } else { w + n };
        k = k + 1;
    }
    Ok(w)
}

/// Whether the cell at `index` absorbs extra width.
fn expands_exec(index: usize, width: usize) -> (r: bool)
    ensures
        r == expands(index as int, width as int),
{
    (width == 3 && index == 1) || (width != 3 && width < 5 && width >= 1 && index == width - 1)
}

fn push_token(out: &mut Vec<char>, header: bool, index: usize, width: usize)
    ensures
        final(out)@ == old(out)@ + cell_token(if header { seq!['t', 'h'] } else { seq!['t', 'd'] }, index as int, width as int),
{
    let ghost o = out@;
    out.push(if header { 'c' } else { 'l' });
    if expands_exec(index, width) {
        out.push('x');
    }
    out.push(' ');
    assert(out@ =~= o + cell_token(if header { seq!['t', 'h'] } else { seq!['t', 'd'] }, index as int, width as int));
}

fn push_fillers(out: &mut Vec<char>, k: usize)
    ensures
        final(out)@ == old(out)@ + fillers(k as int),
{
    let ghost o = out@;
    let mut j: usize = 0;
    while j < k
        invariant
            j <= k,
            out@ == o + fillers(j as int),
        decreases k - j,
    {
        out.push('s');
        out.push(' ');
        assert(out@ =~= o + fillers(j + 1));
        j = j + 1;
    }
}

/// The outcome of a pass run in place: text appended to `out` and the
/// ledger left in `led`.
pub open spec fn ran(p: Pass, r: Result<(), HtmlError>, o0: Seq<char>, o1: Seq<char>, l1: Map<usize, usize>) -> bool {
    match p {
        Ok((s, l)) => r is Ok && o1 == o0 + s && l1 == l,
        Err(e) => r matches Err(x) && x.fail() == e,
    }
}

fn step_down_exec(led: &mut HashMap<usize, usize>, i: usize)
    requires
        old(led)@.contains_key(i),
    ensures
        final(led)@ == step_down(old(led)@, i),
{
    let v = *led.get(&i).unwrap();
    if v <= 1 {
        led.remove(&i);
    } else {
        led.insert(i, v - 1);
    }
}

/// The format pass's own output for a node, before its children.
fn format_head(n: &Node, index: usize, width: usize, led: &mut HashMap<usize, usize>, out: &mut Vec<char>) -> (r: Result<(), HtmlError>)
    ensures
        ran(format_head_of(n.model(), index as int, width as int, old(led)@), r, old(out)@, final(out)@, final(led)@),
{
    let ghost t = n.model();
    let ghost o0 = out@;
    if is_cell(&n.name) {
        let cspan = match span_attr(n, "colspan") {
            Err(e) => return Err(e),
            Ok(c) => c,
        };
        let rspan = match span_attr(n, "rowspan") {
            Err(e) => return Err(e),
            Ok(r) => r,
        };
        let header = n.name[1] == 'h';
        assert(header ==> n.name@ =~= seq!['t', 'h']);
        assert(!header ==> n.name@ =~= seq!['t', 'd']);
        push_token(out, header, index, width);
        match cspan {
            Some(c) => push_fillers(out, c - 1),
            None => {},
        }
        let ghost f = match cspan {
            Some(c) => fillers(c - 1),
            None => seq![],
        };
        assert(out@ =~= o0 + (cell_token(t.name, index as int, width as int) + f));
        match rspan {
            Some(r) => if r > 1 {
                led.insert(index, r);
            },
            None => {},
        }
    } else {
        assert(out@ =~= o0 + seq![]);
    }
    Ok(())
}

/// The format pass on `n`, appending to `out`.
fn format_pass(n: &Node, index: usize, width: usize, led: &mut HashMap<usize, usize>, out: &mut Vec<char>) -> (r: Result<(), HtmlError>)
    ensures
        ran(format_of(n.model(), index as int, width as int, old(led)@), r, old(out)@, final(out)@, final(led)@),
    decreases n,
{
    let ghost t = n.model();
    let ghost o0 = out@;
    let ghost l0 = led@;
    if n.name.len() == 0 {
        return Err(HtmlError::MissingStructuralName);
    }
    match format_head(n, index, width, led, out) {
        Err(e) => return Err(e),
        Ok(()) => {},
    }
    let ghost h = match format_head_of(t, index as int, width as int, l0) {
        Ok((s, _)) => s,
        Err(_) => seq![],
    };
    assert(out@ == o0 + h);
    let ghost l1 = led@;
    assert(format_head_of(t, index as int, width as int, l0) == Ok::<(Seq<char>, Map<usize, usize>), Fail>((h, l1)));
    let ghost cs = t.children;
    let ghost o1 = out@;
    let ghost mut acc: Seq<char> = seq![];
    assert(cs.len() == n.children.len());
    if eq_str(&n.name, "tr") && led.len() > 0 {
        let mut i: usize = 0;
        let mut ci: usize = 0;
        proof {
            lemma_prefixed_empty(format_row(cs, 0, width as int, 0, l1));
        }
        while i < width
            invariant
                cs == n.model().children,
                cs.len() == n.children.len(),
                format_of(t, index as int, width as int, l0) == finish(h, format_row(cs, 0, width as int, 0, l1), format_tail(t.name)),
                t == n.model(),
                l0 == old(led)@,
                i <= width,
                ci <= i,
                out@ == o1 + acc,
                prefixed(acc, format_row(cs, i as int, width as int, ci as int, led@)) == format_row(cs, 0, width as int, 0, l1),
            decreases width - i,
        {
            let ghost ob = out@;
            let ghost lb = led@;
            let ghost ci0 = ci;
            let ghost mut x: Seq<char> = seq![];
            if led.contains_key(&i) {
                step_down_exec(led, i);
                out.push('^');
                out.push(' ');
                proof {
                    x = seq!['^', ' '];
                }
            } else if ci < n.children.len() {
                assert(cs[ci as int] == n.children[ci as int].model());
                match format_pass(&n.children[ci], i, width, led, out) {
                    Err(e) => {
                        assert(format_row(cs, i as int, width as int, ci0 as int, lb) == Err::<(Seq<char>, Map<usize, usize>), Fail>(e.fail()));
                        return Err(e);
                    },
                    Ok(()) => {},
                }
                proof {
                    x = match format_of(cs[ci0 as int], i as int, width as int, lb) {
                        Ok((s1, _)) => s1,
                        Err(_) => seq![],
                    };
                }
                ci = ci + 1;
            } else {
                push_token(out, false, i, width);
                proof {
                    x = cell_token(seq!['t', 'd'], i as int, width as int);
                }
                ci = ci + 1;
            }
            assert(out@ == ob + x);
            assert(format_row(cs, i as int, width as int, ci0 as int, lb) == prefixed(x, format_row(cs, i + 1, width as int, ci as int, led@)));
            proof {
                lemma_prefixed_twice(acc, x, format_row(cs, i + 1, width as int, ci as int, led@));
                acc = acc + x;
            }
            i = i + 1;
        }
    } else {
        if n.children.len() > 0 {
            assert(cs[0] == n.children[0].model());
        }
        let w = if n.children.len() > 0 && eq_str(&n.children[0].name, "tr") {
            match row_width_exec(&n.children[0]) {
                Err(e) => return Err(e),
                Ok(w) => w,
            }
        } else {
            width
        };
        let mut k: usize = 0;
        assert(width_for(cs, width as int) == Ok::<int, Fail>(w as int));
        proof {
            lemma_prefixed_empty(format_list(cs, 0, w as int, l1));
        }
        while k < n.children.len()
            invariant
                cs == n.model().children,
                cs.len() == n.children.len(),
                format_of(t, index as int, width as int, l0) == finish(h, format_list(cs, 0, w as int, l1), format_tail(t.name)),
                t == n.model(),
                l0 == old(led)@,
                k <= n.children.len(),
                out@ == o1 + acc,
                prefixed(acc, format_list(cs, k as int, w as int, led@)) == format_list(cs, 0, w as int, l1),
            decreases n.children.len() - k,
        {
            let ghost ob = out@;
            let ghost lb = led@;
            assert(cs[k as int] == n.children[k as int].model());
            match format_pass(&n.children[k], k, w, led, out) {
                Err(e) => {
                    assert(format_list(cs, k as int, w as int, lb) == Err::<(Seq<char>, Map<usize, usize>), Fail>(e.fail()));
                    return Err(e);
                },
                Ok(()) => {},
            }
            let ghost s1 = match format_of(cs[k as int], k as int, w as int, lb) {
                Ok((s1, _)) => s1,
                Err(_) => seq![],
            };
            assert(out@ == ob + s1);
            let ghost x = s1;
            proof {
                lemma_prefixed_twice(acc, x, format_list(cs, k + 1, w as int, led@));
                acc = acc + x;
            }
            k = k + 1;
        }
    }
    if eq_str(&n.name, "table") {
        append_str(out, ".\n");
    } else if eq_str(&n.name, "tr") {
        append_str(out, "\n");
    }
    assert(out@ =~= o0 + (h + acc + format_tail(t.name)));
    Ok(())
}

/// A node's pass result from its head output, its body's result and its tail.
pub open spec fn finish(h: Seq<char>, body: Pass, tail: Seq<char>) -> Pass {
    match body {
        Err(e) => Err(e),
        Ok((b, l)) => Ok((h + b + tail, l)),
    }
}

proof fn lemma_prefixed_empty(r: Pass)
    ensures
        prefixed(seq![], r) == r,
{
    match r {
        Ok((s, l)) => {
            assert(seq![] + s =~= s);
        },
        Err(e) => {},
    }
}

proof fn lemma_prefixed_twice(a: Seq<char>, b: Seq<char>, r: Pass)
    ensures
        prefixed(a, prefixed(b, r)) == prefixed(a + b, r),
{
    match r {
        Ok((s, l)) => {
            assert(a + (b + s) =~= (a + b) + s);
        },
        Err(e) => {},
    }
}

/// The generation pass's output for a node before its children: the block
/// header and format section for a table, the open marker and text for a
/// cell. A cell spanning `r > 1` rows registers `r - 1` remaining rows.
pub open spec fn generate_head(t: Tree, index: int, led: Map<usize, usize>) -> Pass {
    if t.name == "table"@ {
        match format_of(t, 0, 0, Map::empty()) {
            Err(e) => Err(e),
            Ok((f, _)) => Ok((".TS\n"@ + "allbox tab(|);\n"@ + f, led)),
        }
    } else if is_cell_name(t.name) {
        match span_of(t, "rowspan"@) {
            Err(e) => Err(e),
            Ok(rspan) => Ok((
                "T{\n"@ + t.text,
                match rspan {
                    Some(r) => reserve(led, index, rspan, r - 1),
                    None => led,
                },
            )),
        }
    } else {
        Ok((t.text, led))
    }
}

/// The column separator after a block unless it is the row's last.
pub open spec fn sep(last: bool) -> Seq<char> {
    if last {
        seq![]
    } else {
        seq!['|']
    }
}

pub open spec fn generate_tail(name: Seq<char>, last: bool) -> Seq<char> {
    if name == "table"@ {
        ".TE\n"@ + ".sp\n.sp\n"@
    } else if name == "tr"@ {
        "\n"@
    } else if is_cell_name(name) {
        "\nT}"@ + sep(last)
    } else {
        seq![]
    }
}

/// The block of an empty cell that stands in for one the row omits.
pub open spec fn pad_block(last: bool) -> Seq<char> {
    "T{\n"@ + "\nT}"@ + sep(last)
}

/// The generation pass on one node.
pub open spec fn generate(t: Tree, index: int, last: bool, led: Map<usize, usize>) -> Pass
    decreases t, 0int,
{
    if t.name.len() == 0 {
        Err(Fail::Missing)
    } else {
        match generate_head(t, index, led) {
            Err(e) => Err(e),
            Ok((h, led1)) => {
                let body = if t.name == "tr"@ && led1.len() > 0 {
                    generate_row(t.children, 0, sat((led1.len() + t.children.len()) as int), 0, led1)
                } else {
                    generate_list(t.children, 0, led1)
                };
                finish(h, body, generate_tail(t.name, last))
            },
        }
    }
}

/// The generation pass on a row with covered columns, from column `i` of
/// `total`, with `ci` cells consumed.
pub open spec fn generate_row(cs: Seq<Tree>, i: int, total: int, ci: int, led: Map<usize, usize>) -> Pass
    decreases cs, total - i,
{
    if i >= total {
        Ok((seq![], led))
    } else if led.contains_key(i as usize) {
        prefixed(seq!['\\', '^'] + sep(i == total - 1), generate_row(cs, i + 1, total, ci, step_down(led, i as usize)))
    } else if 0 <= ci < cs.len() {
        match generate(cs[ci], i, i == total - 1, led) {
            Err(e) => Err(e),
            Ok((s, led1)) => prefixed(s, generate_row(cs, i + 1, total, ci + 1, led1)),
        }
    } else {
        prefixed(pad_block(i == total - 1), generate_row(cs, i + 1, total, ci + 1, led))
    }
}

/// The generation pass on the children from `k` on.
pub open spec fn generate_list(cs: Seq<Tree>, k: int, led: Map<usize, usize>) -> Pass
    decreases cs, cs.len() - k,
{
    if 0 <= k < cs.len() {
        match generate(cs[k], k, k == cs.len() - 1, led) {
            Err(e) => Err(e),
            Ok((s, led1)) => prefixed(s, generate_list(cs, k + 1, led1)),
        }
    } else {
        Ok((seq![], led))
    }
}

fn append_chars(out: &mut Vec<char>, v: &Vec<char>)
    ensures
        final(out)@ == old(out)@ + v@,
{
    let ghost o = out@;
    let mut k: usize = 0;
    while k < v.len()
        invariant
            k <= v.len(),
            out@ == o + v@.take(k as int),
        decreases v.len() - k,
    {
        out.push(v[k]);
        assert(out@ =~= o + v@.take(k + 1));
        k = k + 1;
    }
    assert(v@.take(k as int) =~= v@);
}

fn push_sep(out: &mut Vec<char>, last: bool)
    ensures
        final(out)@ == old(out)@ + sep(last),
{
    if !last {
        out.push('|');
    }
    assert(out@ =~= old(out)@ + sep(last));
}

/// The generation pass's own output for a node, before its children.
fn generation_head(n: &Node, index: usize, led: &mut HashMap<usize, usize>, out: &mut Vec<char>) -> (r: Result<(), HtmlError>)
    ensures
        ran(generate_head(n.model(), index as int, old(led)@), r, old(out)@, final(out)@, final(led)@),
{
    let ghost t = n.model();
    let ghost o0 = out@;
    if eq_str(&n.name, "table") {
        append_str(out, ".TS\n");
        append_str(out, "allbox tab(|);\n");
        let mut spans: HashMap<usize, usize> = HashMap::new();
        let ghost o1 = out@;
        match format_pass(n, 0, 0, &mut spans, out) {
            Err(e) => return Err(e),
            Ok(()) => {},
        }
        let ghost f = match format_of(t, 0, 0, Map::empty()) {
            Ok((f, _)) => f,
            Err(_) => seq![],
        };
        assert(out@ =~= o0 + (".TS\n"@ + "allbox tab(|);\n"@ + f));
    } else if is_cell(&n.name) {
        let rspan = match span_attr(n, "rowspan") {
            Err(e) => return Err(e),
            Ok(r) => r,
        };
        append_str(out, "T{\n");
        append_chars(out, &n.text);
        assert(out@ =~= o0 + ("T{\n"@ + t.text));
        match rspan {
            Some(r) => if r > 1 {
                led.insert(index, r - 1);
            },
            None => {},
        }
    } else {
        append_chars(out, &n.text);
    }
    Ok(())
}

/// The generation pass on `n`, appending to `out`.
fn generation_pass(n: &Node, index: usize, last: bool, led: &mut HashMap<usize, usize>, out: &mut Vec<char>) -> (r: Result<(), HtmlError>)
    ensures
        ran(generate(n.model(), index as int, last, old(led)@), r, old(out)@, final(out)@, final(led)@),
    decreases n,
{
    let ghost t = n.model();
    let ghost o0 = out@;
    let ghost l0 = led@;
    if n.name.len() == 0 {
        return Err(HtmlError::MissingStructuralName);
    }
    match generation_head(n, index, led, out) {
        Err(e) => return Err(e),
        Ok(()) => {},
    }
    let ghost h = match generate_head(t, index as int, l0) {
        Ok((s, _)) => s,
        Err(_) => seq![],
    };
    assert(out@ == o0 + h);
    let ghost l1 = led@;
    let ghost cs = t.children;
    let ghost o1 = out@;
    let ghost mut acc: Seq<char> = seq![];
    let ghost tail = generate_tail(t.name, last);
    assert(cs.len() == n.children.len());
    if eq_str(&n.name, "tr") && led.len() > 0 {
        let total = if led.len() > usize::MAX - n.children.len() {
            usize::MAX
        } else {
            led.len() + n.children.len()
        };
        let mut i: usize = 0;
        let mut ci: usize = 0;
        proof {
            lemma_prefixed_empty(generate_row(cs, 0, total as int, 0, l1));
        }
        while i < total
            invariant
                cs == n.model().children,
                cs.len() == n.children.len(),
                generate(t, index as int, last, l0) == finish(h, generate_row(cs, 0, total as int, 0, l1), tail),
                t == n.model(),
                l0 == old(led)@,
                i <= total,
                ci <= i,
                out@ == o1 + acc,
                prefixed(acc, generate_row(cs, i as int, total as int, ci as int, led@)) == generate_row(cs, 0, total as int, 0, l1),
            decreases total - i,
        {
            let ghost ob = out@;
            let ghost lb = led@;
            let ghost ci0 = ci;
            let ghost mut x: Seq<char> = seq![];
            let is_last = i == total - 1;
            if led.contains_key(&i) {
                step_down_exec(led, i);
                out.push('\\');
                out.push('^');
                push_sep(out, is_last);
                proof {
                    x = seq!['\\', '^'] + sep(is_last);
                }
                assert(out@ =~= ob + x);
            } else if ci < n.children.len() {
                assert(cs[ci as int] == n.children[ci as int].model());
                match generation_pass(&n.children[ci], i, is_last, led, out) {
                    Err(e) => {
                        assert(generate_row(cs, i as int, total as int, ci0 as int, lb) == Err::<(Seq<char>, Map<usize, usize>), Fail>(e.fail()));
                        return Err(e);
                    },
                    Ok(()) => {},
                }
                proof {
                    x = match generate(cs[ci0 as int], i as int, is_last, lb) {
                        Ok((s1, _)) => s1,
                        Err(_) => seq![],
                    };
                }
                ci = ci + 1;
            } else {
                append_str(out, "T{\n");
                append_str(out, "\nT}");
                push_sep(out, is_last);
                proof {
                    x = pad_block(is_last);
                }
                assert(out@ =~= ob + x);
                ci = ci + 1;
            }
            assert(out@ == ob + x);
            assert(generate_row(cs, i as int, total as int, ci0 as int, lb) == prefixed(x, generate_row(cs, i + 1, total as int, ci as int, led@)));
            proof {
                lemma_prefixed_twice(acc, x, generate_row(cs, i + 1, total as int, ci as int, led@));
                acc = acc + x;
            }
            i = i + 1;
        }
    } else {
        let mut k: usize = 0;
        proof {
            lemma_prefixed_empty(generate_list(cs, 0, l1));
        }
        while k < n.children.len()
            invariant
                cs == n.model().children,
                cs.len() == n.children.len(),
                generate(t, index as int, last, l0) == finish(h, generate_list(cs, 0, l1), tail),
                t == n.model(),
                l0 == old(led)@,
                k <= n.children.len(),
                out@ == o1 + acc,
                prefixed(acc, generate_list(cs, k as int, led@)) == generate_list(cs, 0, l1),
            decreases n.children.len() - k,
        {
            let ghost ob = out@;
            let ghost lb = led@;
            assert(cs[k as int] == n.children[k as int].model());
            let is_last = k == n.children.len() - 1;
            match generation_pass(&n.children[k], k, is_last, led, out) {
                Err(e) => {
                    assert(generate_list(cs, k as int, lb) == Err::<(Seq<char>, Map<usize, usize>), Fail>(e.fail()));
                    return Err(e);
                },
                Ok(()) => {},
            }
            let ghost x = match generate(cs[k as int], k as int, is_last, lb) {
                Ok((s1, _)) => s1,
                Err(_) => seq![],
            };
            assert(out@ == ob + x);
            proof {
                lemma_prefixed_twice(acc, x, generate_list(cs, k + 1, led@));
                acc = acc + x;
            }
            k = k + 1;
        }
    }
    let ghost ob = out@;
    if eq_str(&n.name, "table") {
        append_str(out, ".TE\n");
        append_str(out, ".sp\n.sp\n");
    } else if eq_str(&n.name, "tr") {
        append_str(out, "\n");
    } else if is_cell(&n.name) {
        append_str(out, "\nT}");
        push_sep(out, last);
    }
    assert(out@ =~= ob + tail);
    assert(out@ =~= o0 + (h + acc + tail));
    Ok(())
}

/// The layout block of a tree.
pub open spec fn tree_block(t: Tree) -> Result<Seq<char>, Fail> {
    match generate(t, 0, false, Map::empty()) {
        Ok((out, _)) => Ok(out),
        Err(e) => Err(e),
    }
}

/// Runs both passes over a tree and returns the layout block.
pub fn compile(root: &Node) -> (r: Result<String, HtmlError>)
    ensures
        match tree_block(root.model()) {
            Ok(s) => r matches Ok(o) && o@ == s,
            Err(e) => r matches Err(x) && x.fail() == e,
        },
{
    let mut out: Vec<char> = Vec::new();
    let mut spans: HashMap<usize, usize> = HashMap::new();
    match generation_pass(root, 0, false, &mut spans, &mut out) {
        Ok(()) => Ok(string_of(&out)),
        Err(e) => Err(e),
    }
}

/// Converts an HTML table fragment into a `tbl` layout block.
pub fn parse_table(html: &str) -> (r: Result<String, HtmlError>)
    ensures
        match tree_block(root_tree(html@)) {
            Ok(s) => r matches Ok(o) && o@ == s,
            Err(e) => r matches Err(x) && x.fail() == e,
        },
{
    let root = parse(html);
    compile(&root)
}

/// A cell with no children and no span attributes.
pub open spec fn plain_cell(c: Tree) -> bool {
    &&& is_cell_name(c.name)
    &&& c.children.len() == 0
    &&& lookup(c.attrs, "colspan"@) is None
    &&& lookup(c.attrs, "rowspan"@) is None
}

/// A row of exactly `w` plain cells.
pub open spec fn plain_row(r: Tree, w: int) -> bool {
    &&& r.name == "tr"@
    &&& r.text.len() == 0
    &&& r.children.len() == w
    &&& forall|k: int| 0 <= k < w ==> plain_cell(#[trigger] r.children[k])
}

/// A table whose rows are all plain rows of `w` cells.
pub open spec fn plain_table(t: Tree, w: int) -> bool {
    &&& t.name == "table"@
    &&& 0 <= w <= usize::MAX
    &&& forall|j: int| 0 <= j < t.children.len() ==> plain_row(#[trigger] t.children[j], w)
}

/// The column tokens of cells `k..` of a row `w` wide: one per cell.
pub open spec fn row_tokens(cs: Seq<Tree>, k: int, w: int) -> Seq<char>
    decreases cs.len() - k,
{
    if 0 <= k < cs.len() {
        cell_token(cs[k].name, k, w) + row_tokens(cs, k + 1, w)
    } else {
        seq![]
    }
}

/// The blocks of cells `k..` of a row: one per cell.
pub open spec fn row_blocks(cs: Seq<Tree>, k: int) -> Seq<char>
    decreases cs.len() - k,
{
    if 0 <= k < cs.len() {
        "T{\n"@ + cs[k].text + "\nT}"@ + sep(k == cs.len() - 1) + row_blocks(cs, k + 1)
    } else {
        seq![]
    }
}

/// The format lines of rows `j..`.
pub open spec fn format_lines(rows: Seq<Tree>, j: int, w: int) -> Seq<char>
    decreases rows.len() - j,
{
    if 0 <= j < rows.len() {
        row_tokens(rows[j].children, 0, w) + "\n"@ + format_lines(rows, j + 1, w)
    } else {
        seq![]
    }
}

/// The content lines of rows `j..`.
pub open spec fn block_lines(rows: Seq<Tree>, j: int) -> Seq<char>
    decreases rows.len() - j,
{
    if 0 <= j < rows.len() {
        row_blocks(rows[j].children, 0) + "\n"@ + block_lines(rows, j + 1)
    } else {
        seq![]
    }
}

proof fn lemma_names_differ()
    ensures
        "tr"@ != seq!['t', 'h'],
        "tr"@ != seq!['t', 'd'],
        "table"@ != seq!['t', 'h'],
        "table"@ != seq!['t', 'd'],
        "table"@ != "tr"@,
        "tr"@.len() == 2,
        "table"@.len() == 5,
        is_cell_name(seq!['t', 'h']) && is_cell_name(seq!['t', 'd']),
{
    reveal_strlit("tr");
    reveal_strlit("table");
    assert("tr"@[1] != seq!['t', 'h'][1]);
    assert("tr"@[1] != seq!['t', 'd'][1]);
    assert("table"@.len() != "tr"@.len());
}

proof fn lemma_format_cell(c: Tree, k: int, w: int, led: Map<usize, usize>)
    requires
        plain_cell(c),
    ensures
        format_of(c, k, w, led) == Ok::<(Seq<char>, Map<usize, usize>), Fail>((cell_token(c.name, k, w), led)),
{
    lemma_names_differ();
    assert(c.children =~= seq![]);
    assert(format_list(c.children, 0, w, led) == Ok::<(Seq<char>, Map<usize, usize>), Fail>((seq![], led)));
    assert(format_head_of(c, k, w, led) == Ok::<(Seq<char>, Map<usize, usize>), Fail>((cell_token(c.name, k, w) + seq![], led)));
    assert(cell_token(c.name, k, w) + seq![] + seq![] + format_tail(c.name) =~= cell_token(c.name, k, w));
}

proof fn lemma_format_cells(cs: Seq<Tree>, k: int, w: int, led: Map<usize, usize>)
    requires
        0 <= k <= cs.len(),
        forall|m: int| 0 <= m < cs.len() ==> plain_cell(#[trigger] cs[m]),
    ensures
        format_list(cs, k, w, led) == Ok::<(Seq<char>, Map<usize, usize>), Fail>((row_tokens(cs, k, w), led)),
    decreases cs.len() - k,
{
    if k < cs.len() {
        lemma_format_cell(cs[k], k, w, led);
        lemma_format_cells(cs, k + 1, w, led);
    }
}

proof fn lemma_width_from(cs: Seq<Tree>, k: int, acc: int)
    requires
        0 <= k <= cs.len(),
        0 <= acc,
        acc + cs.len() - k <= usize::MAX,
        forall|m: int| 0 <= m < cs.len() ==> plain_cell(#[trigger] cs[m]),
    ensures
        width_from(cs, k, acc) == Ok::<int, Fail>(acc + cs.len() - k),
    decreases cs.len() - k,
{
    if k < cs.len() {
        assert(plain_cell(cs[k]));
        lemma_width_from(cs, k + 1, acc + 1);
    }
}

proof fn lemma_format_rows(rows: Seq<Tree>, j: int, w: int)
    requires
        0 <= j <= rows.len(),
        forall|m: int| 0 <= m < rows.len() ==> plain_row(#[trigger] rows[m], w),
    ensures
        format_list(rows, j, w, Map::empty()) == Ok::<(Seq<char>, Map<usize, usize>), Fail>((format_lines(rows, j, w), Map::empty())),
    decreases rows.len() - j,
{
    if j < rows.len() {
        let r = rows[j];
        assert(plain_row(r, w));
        lemma_names_differ();
        let led: Map<usize, usize> = Map::empty();
        assert(led.len() == 0);
        lemma_format_cells(r.children, 0, w, led);
        if r.children.len() > 0 {
            assert(plain_cell(r.children[0]));
        }
        assert(width_for(r.children, w) == Ok::<int, Fail>(w));
        assert(format_of(r, j, w, led) == Ok::<(Seq<char>, Map<usize, usize>), Fail>((seq![] + row_tokens(r.children, 0, w) + format_tail(r.name), led)));
        assert(seq![] + row_tokens(r.children, 0, w) + format_tail(r.name) =~= row_tokens(r.children, 0, w) + "\n"@);
        lemma_format_rows(rows, j + 1, w);
        assert(row_tokens(r.children, 0, w) + "\n"@ + format_lines(rows, j + 1, w) =~= format_lines(rows, j, w));
    }
}

proof fn lemma_generate_cell(c: Tree, k: int, last: bool, led: Map<usize, usize>)
    requires
        plain_cell(c),
    ensures
        generate(c, k, last, led) == Ok::<(Seq<char>, Map<usize, usize>), Fail>(("T{\n"@ + c.text + "\nT}"@ + sep(last), led)),
{
    lemma_names_differ();
    assert(c.children =~= seq![]);
    assert(generate_list(c.children, 0, led) == Ok::<(Seq<char>, Map<usize, usize>), Fail>((seq![], led)));
    assert(generate_head(c, k, led) == Ok::<(Seq<char>, Map<usize, usize>), Fail>(("T{\n"@ + c.text, led)));
    assert(("T{\n"@ + c.text) + seq![] + generate_tail(c.name, last) =~= "T{\n"@ + c.text + "\nT}"@ + sep(last));
}

proof fn lemma_generate_cells(cs: Seq<Tree>, k: int, led: Map<usize, usize>)
    requires
        0 <= k <= cs.len(),
        forall|m: int| 0 <= m < cs.len() ==> plain_cell(#[trigger] cs[m]),
    ensures
        generate_list(cs, k, led) == Ok::<(Seq<char>, Map<usize, usize>), Fail>((row_blocks(cs, k), led)),
    decreases cs.len() - k,
{
    if k < cs.len() {
        lemma_generate_cell(cs[k], k, k == cs.len() - 1, led);
        lemma_generate_cells(cs, k + 1, led);
    }
}

proof fn lemma_generate_rows(rows: Seq<Tree>, j: int, w: int)
    requires
        0 <= j <= rows.len(),
        forall|m: int| 0 <= m < rows.len() ==> plain_row(#[trigger] rows[m], w),
    ensures
        generate_list(rows, j, Map::empty()) == Ok::<(Seq<char>, Map<usize, usize>), Fail>((block_lines(rows, j), Map::empty())),
    decreases rows.len() - j,
{
    if j < rows.len() {
        let r = rows[j];
        assert(plain_row(r, w));
        lemma_names_differ();
        let led: Map<usize, usize> = Map::empty();
        assert(led.len() == 0);
        assert(r.text =~= seq![]);
        lemma_generate_cells(r.children, 0, led);
        let last = j == rows.len() - 1;
        assert(generate(r, j, last, led) == Ok::<(Seq<char>, Map<usize, usize>), Fail>((r.text + row_blocks(r.children, 0) + generate_tail(r.name, last), led)));
        assert(r.text + row_blocks(r.children, 0) + generate_tail(r.name, last) =~= row_blocks(r.children, 0) + "\n"@);
        lemma_generate_rows(rows, j + 1, w);
        assert(row_blocks(r.children, 0) + "\n"@ + block_lines(rows, j + 1) =~= block_lines(rows, j));
    }
}

/// In a table whose rows all hold the same number `w` of cells and no
/// spans, each row gives exactly `w` column tokens in the format section
/// and exactly `w` cell blocks in the content.
pub proof fn lemma_uniform_table(t: Tree, w: int, index: int, last: bool)
    requires
        plain_table(t, w),
    ensures
        generate(t, index, last, Map::empty()) == Ok::<(Seq<char>, Map<usize, usize>), Fail>((
            ".TS\n"@ + "allbox tab(|);\n"@ + (format_lines(t.children, 0, w) + ".\n"@)
                + block_lines(t.children, 0) + (".TE\n"@ + ".sp\n.sp\n"@),
            Map::empty(),
        )),
{
    lemma_names_differ();
    let rows = t.children;
    let led: Map<usize, usize> = Map::empty();
    assert(led.len() == 0);
    if rows.len() > 0 {
        assert(plain_row(rows[0], w));
        lemma_width_from(rows[0].children, 0, 0);
        assert(width_for(rows, 0) == Ok::<int, Fail>(w));
        lemma_format_rows(rows, 0, w);
    } else {
        assert(width_for(rows, 0) == Ok::<int, Fail>(0));
        assert(format_list(rows, 0, 0, led) == Ok::<(Seq<char>, Map<usize, usize>), Fail>((seq![], led)));
        assert(format_lines(rows, 0, w) == Seq::<char>::empty());
    }
    assert(format_of(t, 0, 0, led) == Ok::<(Seq<char>, Map<usize, usize>), Fail>((seq![] + format_lines(rows, 0, w) + format_tail(t.name), led)));
    assert(seq![] + format_lines(rows, 0, w) + format_tail(t.name) =~= format_lines(rows, 0, w) + ".\n"@);
    lemma_generate_rows(rows, 0, w);
}

} // verus!
