//! Conversions between strings and character vectors, and small helpers on them.
use vstd::prelude::*;
use vstd::std_specs::iter::IteratorSpec;

verus! {

/// Relies on std's `String::push`: appends one character.
#[verifier::external_body]
fn push_char(s: &mut String, c: char)
    ensures
        final(s)@ == old(s)@.push(c),
{
    s.push(c)
}

/// The characters of `s`, in order.
pub fn chars_of(s: &str) -> (r: Vec<char>)
    ensures
        r@ == s@,
{
    let mut it = s.chars();
    let mut v: Vec<char> = Vec::new();
    proof {
        vstd::string::axiom_spec_iter(s);
    }
    loop
        invariant
            v@ + it.remaining() == s@,
            it.decrease() is Some,
        decreases it.decrease()->0,
    {
        match it.next() {
            Some(c) => {
                v.push(c);
            },
            None => {
                assert(v@ + it.remaining() =~= v@);
                return v;
            },
        }
    }
}

/// The string made of the characters of `v`.
pub fn string_of(v: &Vec<char>) -> (r: String)
    ensures
        r@ == v@,
{
    let mut r = String::new();
    let mut k: usize = 0;
    while k < v.len()
        invariant
            k <= v.len(),
            r@ == v@.take(k as int),
        decreases v.len() - k,
    {
        push_char(&mut r, v[k]);
        assert(r@ =~= v@.take(k + 1));
        k = k + 1;
    }
    assert(v@.take(k as int) =~= v@);
    r
}

/// Appends the characters of `lit` to `out`.
pub fn append_str(out: &mut Vec<char>, lit: &str)
    ensures
        final(out)@ == old(out)@ + lit@,
{
    let n = lit.unicode_len();
    let ghost o = out@;
    let mut k: usize = 0;
    while k < n
        invariant
            n == lit@.len(),
            k <= n,
            out@ == o + lit@.take(k as int),
        decreases n - k,
    {
        out.push(lit.get_char(k));
        assert(out@ =~= o + lit@.take(k + 1));
        k = k + 1;
    }
    assert(lit@.take(k as int) =~= lit@);
}

/// Whether `v` holds exactly the characters of `lit`.
pub fn eq_str(v: &Vec<char>, lit: &str) -> (r: bool)
    ensures
        r == (v@ == lit@),
{
    let n = lit.unicode_len();
    if n != v.len() {
        return false;
    }
    let mut k: usize = 0;
    while k < n
        invariant
            n == lit@.len() == v@.len(),
            k <= n,
            forall|m: int| 0 <= m < k ==> #[trigger] v@[m] == lit@[m],
        decreases n - k,
    {
        if v[k] != lit.get_char(k) {
            return false;
        }
        k = k + 1;
    }
    assert(v@ =~= lit@);
    true
}

/// A string of `times` copies of `c`.
pub fn repeat_char(c: char, times: usize) -> (r: String)
    ensures
        r@ == Seq::new(times as nat, |k: int| c),
{
    let mut r = String::new();
    let mut k: usize = 0;
    while k < times
        invariant
            k <= times,
            r@ == Seq::new(k as nat, |m: int| c),
        decreases times - k,
    {
        push_char(&mut r, c);
        assert(r@ =~= Seq::new((k + 1) as nat, |m: int| c));
        k = k + 1;
    }
    r
}

pub open spec fn normalized_char(c: char) -> char {
    if c == '/' {
        '_'
    } else {
        c
    }
}

/// A page name usable as a file name: each `/` becomes `_`.
pub fn get_normalized_page_name(name: &str) -> (r: String)
    ensures
        r@ == Seq::new(name@.len(), |k: int| normalized_char(name@[k])),
{
    let v = chars_of(name);
    let mut out: Vec<char> = Vec::new();
    let mut k: usize = 0;
    while k < v.len()
        invariant
            k <= v.len(),
            v@ == name@,
            out@ == Seq::new(k as nat, |m: int| normalized_char(v@[m])),
        decreases v.len() - k,
    {
        out.push(if v[k] == '/' { '_' } else { v[k] });
        assert(out@ =~= Seq::new((k + 1) as nat, |m: int| normalized_char(v@[m])));
        k = k + 1;
    }
    string_of(&out)
}

} // verus!
