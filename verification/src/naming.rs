//! Names of generated items.
use vstd::prelude::*;

verus! {

/// What `char::to_uppercase` yields for `c`.
pub uninterp spec fn uppercase_of(c: char) -> Seq<char>;

/// `char::to_uppercase`, collected. Its documentation gives the Unicode
/// uppercase mapping, one or more characters; the contract names that result
/// and states the ASCII part: `a`-`z` become `A`-`Z` and every other ASCII
/// character stays as it is. The mapping of other characters is left to the name.
#[verifier::external_body]
fn to_uppercase_chars(c: char) -> (u: Vec<char>)
    ensures
        u@ == uppercase_of(c),
        ('a' <= c <= 'z') ==> u@ == seq![((c as u32) - 32) as char],
        ((c as u32) < 128 && !('a' <= c <= 'z')) ==> u@ == seq![c],
{
    c.to_uppercase().collect()
}

/// The characters of `s`, in order.
fn chars_of(s: &str) -> (v: Vec<char>)
    ensures
        v@ == s@,
{
    broadcast use vstd::string::axiom_spec_iter;
    let mut v: Vec<char> = Vec::new();
    for c in it: s.chars()
        invariant
            v@ == it.seq().subrange(0, it.index() as int),
            it.seq() == s@,
    {
        v.push(c);
    }
    v
}

/// A `String` holding `v`'s characters (`FromIterator<char>`).
#[verifier::external_body]
fn string_of(v: &Vec<char>) -> (s: String)
    ensures
        s@ == v@,
{
    v.iter().collect()
}

/// PascalCase of a snake_case text: `_` separates words and is dropped, the
/// first character of each word is uppercased, the rest are kept.
pub open spec fn pascal_spec(s: Seq<char>) -> Seq<char>
    decreases s.len(),
{
    if s.len() == 0 {
        Seq::empty()
    } else {
        let c = s.last();
        let prev = s.drop_last();
        if c == '_' {
            pascal_spec(prev)
        } else if prev.len() == 0 || prev.last() == '_' {
            pascal_spec(prev) + uppercase_of(c)
        } else {
            pascal_spec(prev).push(c)
        }
    }
}

/// The uppercase of an ASCII character: `a`-`z` become `A`-`Z`, the others stay.
pub open spec fn ascii_upper(c: char) -> char {
    if 'a' <= c <= 'z' {
        ((c as u32) - 32) as char
    } else {
        c
    }
}

/// Whether every character of `s` is ASCII.
pub open spec fn is_ascii_text(s: Seq<char>) -> bool {
    forall|i: int| 0 <= i < s.len() ==> (#[trigger] s[i] as u32) < 128
}

/// [`pascal_spec`] of an ASCII text, with its uppercase spelled out.
pub open spec fn ascii_pascal(s: Seq<char>) -> Seq<char>
    decreases s.len(),
{
    if s.len() == 0 {
        Seq::empty()
    } else {
        let c = s.last();
        let prev = s.drop_last();
        if c == '_' {
            ascii_pascal(prev)
        } else if prev.len() == 0 || prev.last() == '_' {
            ascii_pascal(prev).push(ascii_upper(c))
        } else {
            ascii_pascal(prev).push(c)
        }
    }
}

/// Converts a snake_case string to PascalCase. On ASCII text the first
/// letter of each word becomes its ASCII uppercase.
pub fn snake_to_pascal(snake: &str) -> (out: String)
    ensures
        out@ == pascal_spec(snake@),
        is_ascii_text(snake@) ==> out@ == ascii_pascal(snake@),
{
    let chars = chars_of(snake);
    let mut out: Vec<char> = Vec::new();
    let n = chars.len();
    let mut i: usize = 0;
    while i < n
        invariant
            n == chars@.len(),
            chars@ == snake@,
            i <= n,
            out@ == pascal_spec(chars@.subrange(0, i as int)),
            is_ascii_text(chars@.subrange(0, i as int)) ==> pascal_spec(chars@.subrange(0, i as int))
                == ascii_pascal(chars@.subrange(0, i as int)),
        decreases n - i,
    {
        let c = chars[i];
        proof {
            let sub = chars@.subrange(0, i as int);
            let next = chars@.subrange(0, i + 1);
            if is_ascii_text(next) {
                assert forall|j: int| 0 <= j < sub.len() implies (#[trigger] sub[j] as u32) < 128 by {
                    assert(sub[j] == next[j]);
                }
                assert(next[i as int] == c);
            }
        }
        let ghost pre = chars@.subrange(0, i as int);
        assert(chars@.subrange(0, i + 1).drop_last() =~= pre);
        assert(chars@.subrange(0, i + 1).last() == c);
        if c == '_' {
        } else if i == 0 || chars[i - 1] == '_' {
            let u = to_uppercase_chars(c);
            proof {
                if (c as u32) < 128 {
                    assert(uppercase_of(c) == seq![ascii_upper(c)]);
                }
            }
            let mut k: usize = 0;
            let ghost base = out@;
            while k < u.len()
                invariant
                    k <= u@.len(),
                    out@ == base + u@.subrange(0, k as int),
                decreases u@.len() - k,
            {
                out.push(u[k]);
                k = k + 1;
                assert(out@ =~= base + u@.subrange(0, k as int));
            }
            assert(u@.subrange(0, u@.len() as int) =~= u@);
        } else {
            out.push(c);
        }
        i = i + 1;
    }
    assert(chars@.subrange(0, n as int) =~= chars@);
    string_of(&out)
}

/// The decimal digit character for `d` (below 10).
pub open spec fn digit_char(d: nat) -> char {
    (48 + d) as char
}

/// The decimal text of `n`, without leading zeros.
pub open spec fn decimal(n: nat) -> Seq<char>
    decreases n,
{
    if n < 10 {
        seq![digit_char(n)]
    } else {
        decimal(n / 10).push(digit_char(n % 10))
    }
}

fn digit_of(d: usize) -> (c: char)
    requires
        d < 10,
    ensures
        c == digit_char(d as nat),
{
    ((48 + d) as u8) as char
}

fn decimal_chars(n: usize) -> (v: Vec<char>)
    ensures
        v@ == decimal(n as nat),
    decreases n,
{
    if n < 10 {
        let mut v: Vec<char> = Vec::new();
        v.push(digit_of(n));
        v
    } else {
        let mut v = decimal_chars(n / 10);
        v.push(digit_of(n % 10));
        v
    }
}

fn decimal_chars_u128(n: u128) -> (v: Vec<char>)
    ensures
        v@ == decimal(n as nat),
    decreases n,
{
    if n < 10 {
        let mut v: Vec<char> = Vec::new();
        v.push(digit_of(n as usize));
        v
    } else {
        let mut v = decimal_chars_u128(n / 10);
        v.push(digit_of((n % 10) as usize));
        v
    }
}

/// The decimal text of a 128-bit number.
pub fn u128_text(n: u128) -> (s: String)
    ensures
        s@ == decimal(n as nat),
{
    string_of(&decimal_chars_u128(n))
}

/// `prefix` followed by the decimal text of `n`.
pub fn with_number(prefix: &str, n: usize) -> (s: String)
    ensures
        s@ == prefix@ + decimal(n as nat),
{
    let mut v = chars_of(prefix);
    let d = decimal_chars(n);
    let ghost base = v@;
    let mut k: usize = 0;
    while k < d.len()
        invariant
            k <= d@.len(),
            v@ == base + d@.subrange(0, k as int),
        decreases d@.len() - k,
    {
        v.push(d[k]);
        k = k + 1;
        assert(v@ =~= base + d@.subrange(0, k as int));
    }
    assert(d@.subrange(0, d@.len() as int) =~= d@);
    string_of(&v)
}

/// The concatenation of two texts.
pub fn join(a: &str, b: &str) -> (s: String)
    ensures
        s@ == a@ + b@,
{
    let mut v = chars_of(a);
    let w = chars_of(b);
    let ghost base = v@;
    let mut k: usize = 0;
    while k < w.len()
        invariant
            k <= w@.len(),
            v@ == base + w@.subrange(0, k as int),
        decreases w@.len() - k,
    {
        v.push(w[k]);
        k = k + 1;
        assert(v@ =~= base + w@.subrange(0, k as int));
    }
    assert(w@.subrange(0, w@.len() as int) =~= w@);
    string_of(&v)
}

} // verus!
