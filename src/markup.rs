//! The node tree, the structural node parser and the tag stripper.
use vstd::prelude::*;
use crate::text::{chars_of, string_of};
use crate::scan::{element, element_exec, space_end, space_end_exec, word_end, word_end_exec};

verus! {

/// What a node holds, as mathematical values.
pub struct Tree {
    pub name: Seq<char>,
    pub attrs: Seq<(Seq<char>, Seq<char>)>,
    pub text: Seq<char>,
    pub children: Seq<Tree>,
}

/// One `name = 'value'` pair of an element's attribute list.
pub struct Attr {
    pub key: Vec<char>,
    pub value: Vec<char>,
}

/// One markup element. Cells (`th`, `td`) hold their content as flat text
/// and have no children; other elements hold their content as children.
pub struct Node {
    pub name: Vec<char>,
    pub attrs: Vec<Attr>,
    pub text: Vec<char>,
    pub children: Vec<Node>,
}

pub open spec fn attr_models(a: Seq<Attr>) -> Seq<(Seq<char>, Seq<char>)> {
    Seq::new(a.len(), |k: int| (a[k].key@, a[k].value@))
}

impl Node {
    pub open spec fn model(&self) -> Tree
        decreases self,
    {
        Tree {
            name: self.name@,
            attrs: attr_models(self.attrs@),
            text: self.text@,
            children: Seq::new(
                self.children.len() as nat,
                |k: int|
                    if 0 <= k < self.children.len() {
                        self.children[k].model()
                    } else {
                        Tree { name: seq![], attrs: seq![], text: seq![], children: seq![] }
                    },
            ),
        }
    }
}

pub open spec fn models(v: Seq<Node>) -> Seq<Tree> {
    Seq::new(v.len(), |k: int| v[k].model())
}

pub open spec fn is_cell_name(name: Seq<char>) -> bool {
    name == seq!['t', 'h'] || name == seq!['t', 'd']
}

/// End of a quoted value whose body starts at `i`: the closing quote `q`,
/// with a backslash escaping the character after it; `hi` when unclosed.
pub open spec fn value_end(s: Seq<char>, i: int, hi: int, q: char) -> int
    decreases hi - i,
{
    if 0 <= i < hi {
        if s[i] == '\\' {
            if i + 1 < hi {
                value_end(s, i + 2, hi, q)
            } else {
                hi
            }
        } else if s[i] == q {
            i
        } else {
            value_end(s, i + 1, hi, q)
        }
    } else {
        hi
    }
}

/// An attribute `key = 'value'` or `key = "value"` at `i`: the key's end and
/// the value's bounds.
pub open spec fn attr_at(s: Seq<char>, i: int, hi: int) -> Option<(int, int, int)> {
    let ke = word_end(s, i, hi);
    let p = space_end(s, ke, hi);
    if 0 <= i < ke && ke <= p < hi && s[p] == '=' {
        let q = space_end(s, p + 1, hi);
        if p < q < hi && (s[q] == '\'' || s[q] == '"') {
            let ve = value_end(s, q + 1, hi, s[q]);
            if q + 1 <= ve < hi {
                Some((ke, q + 1, ve))
            } else {
                None
            }
        } else {
            None
        }
    } else {
        None
    }
}

/// The attributes found in `s[i..hi]`, in order; text that forms no
/// attribute is passed over.
pub open spec fn attrs_from(s: Seq<char>, i: int, hi: int) -> Seq<(Seq<char>, Seq<char>)>
    decreases hi - i,
{
    if 0 <= i < hi {
        match attr_at(s, i, hi) {
            Some((ke, vs, ve)) => seq![(s.subrange(i, ke), s.subrange(vs, ve))] + attrs_from(s, ve + 1, hi),
            None => attrs_from(s, i + 1, hi),
        }
    } else {
        seq![]
    }
}

/// The text of `s[i..hi]` with every matched element replaced by its own
/// stripped content.
pub open spec fn strip_from(s: Seq<char>, i: int, hi: int) -> Seq<char>
    decreases hi - i,
{
    if 0 <= i < hi {
        match element(s, i, hi) {
            Some((ne, gt, cs, after)) => strip_from(s, gt + 1, cs) + strip_from(s, after, hi),
            None => seq![s[i]] + strip_from(s, i + 1, hi),
        }
    } else {
        seq![]
    }
}

/// The text of `s` with its tags stripped.
pub open spec fn stripped(s: Seq<char>) -> Seq<char> {
    strip_from(s, 0, s.len() as int)
}

/// The elements found in `s[i..hi]`, in order; text between them is dropped.
pub open spec fn parse_from(s: Seq<char>, i: int, hi: int) -> Seq<Tree>
    decreases hi - i,
{
    if 0 <= i < hi {
        match element(s, i, hi) {
            Some((ne, gt, cs, after)) => {
                let name = s.subrange(i + 1, ne);
                let t = Tree {
                    name: name,
                    attrs: attrs_from(s, ne, gt),
                    text: if is_cell_name(name) { strip_from(s, gt + 1, cs) } else { seq![] },
                    children: if is_cell_name(name) { seq![] } else { parse_from(s, gt + 1, cs) },
                };
                seq![t] + parse_from(s, after, hi)
            },
            None => parse_from(s, i + 1, hi),
        }
    } else {
        seq![]
    }
}

/// The tree of a whole fragment, rooted at a node named `root`.
pub open spec fn root_tree(s: Seq<char>) -> Tree {
    Tree {
        name: seq!['r', 'o', 'o', 't'],
        attrs: seq![],
        text: seq![],
        children: parse_from(s, 0, s.len() as int),
    }
}

pub fn copy_range(s: &Vec<char>, a: usize, b: usize) -> (r: Vec<char>)
    requires
        a <= b <= s.len(),
    ensures
        r@ == s@.subrange(a as int, b as int),
{
    let mut r: Vec<char> = Vec::new();
    let mut k = a;
    while k < b
        invariant
            a <= k <= b <= s.len(),
            r@ == s@.subrange(a as int, k as int),
        decreases b - k,
    {
        r.push(s[k]);
        assert(r@ =~= s@.subrange(a as int, k + 1));
        k = k + 1;
    }
    r
}

fn value_end_exec(s: &Vec<char>, i: usize, hi: usize, q: char) -> (r: usize)
    requires
        i <= hi <= s.len(),
    ensures
        r as int == value_end(s@, i as int, hi as int, q),
        i <= r <= hi,
{
    let mut j = i;
    while j < hi
        invariant
            i <= j <= hi <= s.len(),
            value_end(s@, i as int, hi as int, q) == value_end(s@, j as int, hi as int, q),
        decreases hi - j,
    {
        if s[j] == '\\' {
            if hi - j > 1 {
                j = j + 2;
            } else {
                return hi;
            }
        } else if s[j] == q {
            return j;
        } else {
            j = j + 1;
        }
    }
    hi
}

fn attr_at_exec(s: &Vec<char>, i: usize, hi: usize) -> (r: Option<(usize, usize, usize)>)
    requires
        i <= hi <= s.len(),
    ensures
        match r {
            Some((ke, vs, ve)) => attr_at(s@, i as int, hi as int) == Some((ke as int, vs as int, ve as int))
                && i < ke <= vs <= ve < hi,
            None => attr_at(s@, i as int, hi as int) is None,
        },
{
    let ke = word_end_exec(s, i, hi);
    let p = space_end_exec(s, ke, hi);
    if i < ke && p < hi && s[p] == '=' {
        let q = space_end_exec(s, p + 1, hi);
        if q < hi && (s[q] == '\'' || s[q] == '"') {
            let ve = value_end_exec(s, q + 1, hi, s[q]);
            if q + 1 <= ve && ve < hi {
                Some((ke, q + 1, ve))
            } else {
                None
            }
        } else {
            None
        }
    } else {
        None
    }
}

/// Collects the attributes of `s[lo..hi]`.
pub fn parse_attrs(s: &Vec<char>, lo: usize, hi: usize) -> (r: Vec<Attr>)
    requires
        lo <= hi <= s.len(),
    ensures
        attr_models(r@) == attrs_from(s@, lo as int, hi as int),
{
    let mut out: Vec<Attr> = Vec::new();
    let mut i = lo;
    while i < hi
        invariant
            lo <= i <= hi <= s.len(),
            attr_models(out@) + attrs_from(s@, i as int, hi as int) == attrs_from(s@, lo as int, hi as int),
        decreases hi - i,
    {
        match attr_at_exec(s, i, hi) {
            Some((ke, vs, ve)) => {
                let a = Attr { key: copy_range(s, i, ke), value: copy_range(s, vs, ve) };
                let ghost before = attr_models(out@);
                out.push(a);
                assert(attr_models(out@) =~= before + seq![(s@.subrange(i as int, ke as int), s@.subrange(vs as int, ve as int))]);
                i = ve + 1;
            },
            None => {
                i = i + 1;
            },
        }
    }
    assert(attr_models(out@) + attrs_from(s@, i as int, hi as int) =~= attr_models(out@));
    out
}

/// Appends the stripped text of `s[lo..hi]` to `out`.
pub fn strip_into(s: &Vec<char>, lo: usize, hi: usize, out: &mut Vec<char>)
    requires
        lo <= hi <= s.len(),
    ensures
        final(out)@ == old(out)@ + strip_from(s@, lo as int, hi as int),
    decreases hi - lo,
{
    let ghost start = out@;
    let mut i = lo;
    while i < hi
        invariant
            lo <= i <= hi <= s.len(),
            start + strip_from(s@, lo as int, hi as int) == out@ + strip_from(s@, i as int, hi as int),
        decreases hi - i,
    {
        match element_exec(s, i, hi) {
            Some((ne, gt, cs, after)) => {
                let ghost o = out@;
                strip_into(s, gt + 1, cs, out);
                assert(o + strip_from(s@, i as int, hi as int) =~= out@ + strip_from(s@, after as int, hi as int));
                i = after;
            },
            None => {
                let ghost o = out@;
                out.push(s[i]);
                assert(o + strip_from(s@, i as int, hi as int) =~= out@ + strip_from(s@, i + 1, hi as int));
                i = i + 1;
            },
        }
    }
    assert(out@ + strip_from(s@, i as int, hi as int) =~= out@);
}

pub fn is_cell(name: &Vec<char>) -> (r: bool)
    ensures
        r == is_cell_name(name@),
{
    if name.len() == 2 && name[0] == 't' && (name[1] == 'h' || name[1] == 'd') {
        assert(name@ =~= seq!['t', 'h'] || name@ =~= seq!['t', 'd']);
        true
    } else {
        false
    }
}

/// Collects the elements of `s[lo..hi]` as nodes.
pub fn parse_into(s: &Vec<char>, lo: usize, hi: usize) -> (r: Vec<Node>)
    requires
        lo <= hi <= s.len(),
    ensures
        models(r@) == parse_from(s@, lo as int, hi as int),
    decreases hi - lo,
{
    let mut out: Vec<Node> = Vec::new();
    let mut i = lo;
    while i < hi
        invariant
            lo <= i <= hi <= s.len(),
            models(out@) + parse_from(s@, i as int, hi as int) == parse_from(s@, lo as int, hi as int),
        decreases hi - i,
    {
        match element_exec(s, i, hi) {
            Some((ne, gt, cs, after)) => {
                let name = copy_range(s, i + 1, ne);
                let attrs = parse_attrs(s, ne, gt);
                let mut text: Vec<char> = Vec::new();
                let mut children: Vec<Node> = Vec::new();
                if is_cell(&name) {
                    strip_into(s, gt + 1, cs, &mut text);
                    assert(text@ =~= strip_from(s@, gt + 1, cs as int));
                } else {
                    children = parse_into(s, gt + 1, cs);
                }
                let n = Node { name, attrs, text, children };
                assert(n.model().children =~= models(n.children@));
                assert(models(n.children@) =~= (if is_cell_name(n.name@) { seq![] } else { parse_from(s@, gt + 1, cs as int) }));
                assert(n.model() == Tree {
                    name: s@.subrange(i + 1, ne as int),
                    attrs: attrs_from(s@, ne as int, gt as int),
                    text: if is_cell_name(n.name@) { strip_from(s@, gt + 1, cs as int) } else { seq![] },
                    children: if is_cell_name(n.name@) { seq![] } else { parse_from(s@, gt + 1, cs as int) },
                });
                let ghost before = models(out@);
                out.push(n);
                assert(models(out@) =~= before + seq![n.model()]);
                i = after;
            },
            None => {
                i = i + 1;
            },
        }
    }
    assert(models(out@) + parse_from(s@, i as int, hi as int) =~= models(out@));
    out
}

/// The node named `name` with attribute list `attr_list` and content `body`.
pub open spec fn node_tree(name: Seq<char>, attr_list: Seq<char>, body: Seq<char>) -> Tree {
    Tree {
        name: name,
        attrs: attrs_from(attr_list, 0, attr_list.len() as int),
        text: if is_cell_name(name) { stripped(body) } else { seq![] },
        children: if is_cell_name(name) { seq![] } else { parse_from(body, 0, body.len() as int) },
    }
}

impl Node {
    /// Builds the node named `name`: a cell keeps its content as stripped
    /// text, any other element parses it into children.
    pub fn new(name: &str, attr_list: &str, body: &str) -> (r: Node)
        ensures
            r.model() == node_tree(name@, attr_list@, body@),
    {
        let n = chars_of(name);
        let a = chars_of(attr_list);
        let b = chars_of(body);
        let attrs = parse_attrs(&a, 0, a.len());
        let mut text: Vec<char> = Vec::new();
        let mut children: Vec<Node> = Vec::new();
        if is_cell(&n) {
            strip_into(&b, 0, b.len(), &mut text);
            assert(text@ =~= stripped(b@));
        } else {
            children = parse_into(&b, 0, b.len());
        }
        let r = Node { name: n, attrs, text, children };
        assert(r.model().children =~= models(r.children@));
        assert(models(r.children@) =~= (if is_cell_name(r.name@) { seq![] } else { parse_from(b@, 0, b@.len() as int) }));
        r
    }
}

/// Parses a markup fragment into a tree rooted at a node named `root`.
pub fn parse(markup: &str) -> (r: Node)
    ensures
        r.model() == root_tree(markup@),
{
    proof {
        reveal_strlit("root");
        reveal_strlit("");
        assert("root"@ =~= seq!['r', 'o', 'o', 't']);
        assert(!is_cell_name("root"@));
        assert(attrs_from(""@, 0, 0) =~= seq![]);
    }
    Node::new("root", "", markup)
}

/// Removes the tags of every matched element, keeping their content.
pub fn strip_tags(markup: &str) -> (r: String)
    ensures
        r@ == stripped(markup@),
{
    let s = chars_of(markup);
    let mut out: Vec<char> = Vec::new();
    strip_into(&s, 0, s.len(), &mut out);
    assert(out@ =~= stripped(markup@));
    string_of(&out)
}

/// Whether no element (a matched open and close tag pair) starts anywhere in `s`.
pub open spec fn tag_free(s: Seq<char>) -> bool {
    forall|i: int| 0 <= i < s.len() ==> #[trigger] element(s, i, s.len() as int) is None
}

proof fn lemma_strip_tag_free_from(s: Seq<char>, i: int)
    requires
        0 <= i <= s.len(),
        tag_free(s),
    ensures
        strip_from(s, i, s.len() as int) == s.subrange(i, s.len() as int),
    decreases s.len() - i,
{
    if i < s.len() {
        assert(element(s, i, s.len() as int) is None);
        lemma_strip_tag_free_from(s, i + 1);
        assert(seq![s[i]] + s.subrange(i + 1, s.len() as int) =~= s.subrange(i, s.len() as int));
    } else {
        assert(s.subrange(i, s.len() as int) =~= seq![]);
    }
}

/// Stripping text that holds no tags gives it back unchanged.
pub proof fn lemma_strip_tag_free(s: Seq<char>)
    requires
        tag_free(s),
    ensures
        stripped(s) == s,
{
    lemma_strip_tag_free_from(s, 0);
    assert(s.subrange(0, s.len() as int) =~= s);
}

/// Stripping text a second time changes nothing once the first pass left no tags.
pub proof fn lemma_strip_idempotent(s: Seq<char>)
    requires
        tag_free(stripped(s)),
    ensures
        stripped(stripped(s)) == stripped(s),
{
    lemma_strip_tag_free(stripped(s));
}

/// Text without `<` holds no tags.
pub proof fn lemma_no_angle_is_tag_free(s: Seq<char>)
    requires
        forall|k: int| 0 <= k < s.len() ==> s[k] != '<',
    ensures
        tag_free(s),
{
    assert forall|i: int| 0 <= i < s.len() implies #[trigger] element(s, i, s.len() as int) is None by {
        assert(s[i] != '<');
    }
}

} // verus!
