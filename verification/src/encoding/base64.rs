//! Standard base64 (RFC 4648 alphabet, `=` padding).
use vstd::prelude::*;

verus! {

/// The padding byte `=`.
pub const PADDING: u8 = 61;

/// The symbol for a 6-bit value: `A`-`Z`, `a`-`z`, `0`-`9`, `+`, `/`.
pub open spec fn symbol(v: u8) -> u8 {
    if v < 26 {
        (v + 65) as u8
    } else if v < 52 {
        (v + 71) as u8
    } else if v < 62 {
        (v - 4) as u8
    } else if v == 62 {
        43
    } else {
        47
    }
}

/// Whether `c` may occur in text accepted by [`decode`]: a symbol or `=`.
pub open spec fn is_symbol_or_padding(c: u8) -> bool {
    c == 43 || c == 47 || (48 <= c <= 57) || c == 61 || (65 <= c <= 90) || (97 <= c <= 122)
}

/// The 6-bit value that [`decode`] gives a byte; `=` counts as zero.
pub open spec fn sextet(c: u8) -> u32 {
    if c == 43 {
        62
    } else if c == 47 {
        63
    } else if 48 <= c <= 57 {
        (c + 4) as u32
    } else if c == 61 {
        0
    } else if 65 <= c <= 90 {
        (c - 65) as u32
    } else {
        (c - 71) as u32
    }
}

/// Number of 4-symbol groups that encode `n` bytes.
pub open spec fn group_count(n: nat) -> nat {
    (n + 2) / 3
}

/// Symbol `p` (0 to 3) of group `g` of the encoding of `s`.
pub open spec fn encoded_symbol(s: Seq<u8>, g: int, p: int) -> u8 {
    let c0 = s[3 * g];
    let has1 = 3 * g + 1 < s.len();
    let has2 = 3 * g + 2 < s.len();
    let c1: u8 = if has1 { s[3 * g + 1] } else { 0 };
    let c2: u8 = if has2 { s[3 * g + 2] } else { 0 };
    if p == 0 {
        symbol(c0 >> 2)
    } else if p == 1 {
        symbol(((c0 & 3) << 4) | (c1 >> 4))
    } else if p == 2 {
        if has1 { symbol(((c1 & 15) << 2) | (c2 >> 6)) } else { PADDING }
    } else {
        if has2 { symbol(c2 & 63) } else { PADDING }
    }
}

/// The base64 text of `s`: every 3 input bytes become 4 symbols, and a short
/// last group is completed with `=`.
pub open spec fn encode_spec(s: Seq<u8>) -> Seq<u8> {
    Seq::new(4 * group_count(s.len()), |j: int| encoded_symbol(s, j / 4, j % 4))
}

/// The 24-bit number that 4 symbols stand for.
pub open spec fn group_value(q: Seq<u8>) -> u32 {
    join_sextets(sextet(q[0]), sextet(q[1]), sextet(q[2]), sextet(q[3]))
}

/// Four 6-bit values side by side, the first one most significant.
pub open spec fn join_sextets(a: u32, b: u32, c: u32, d: u32) -> u32 {
    let ab = (a << 6u32) | b;
    let abc = (ab << 6u32) | c;
    (abc << 6u32) | d
}

/// The three bytes of a 24-bit number, most significant first.
pub open spec fn group_bytes(n: u32) -> Seq<u8> {
    seq![((n >> 16u32) & 0xff) as u8, ((n >> 8u32) & 0xff) as u8, (n & 0xff) as u8]
}

/// Number of `=` in `q`.
pub open spec fn padding_count(q: Seq<u8>) -> nat
    decreases q.len(),
{
    if q.len() == 0 {
        0
    } else {
        padding_count(q.drop_last()) + if q.last() == PADDING { 1nat } else { 0nat }
    }
}

/// `s` without its last `k` elements (empty when `k` exceeds its length).
pub open spec fn drop_back(s: Seq<u8>, k: nat) -> Seq<u8> {
    if k <= s.len() { s.subrange(0, s.len() - k) } else { Seq::empty() }
}

/// What [`decode`] returns for `t`, group by group: each group of 4 symbols
/// appends the 3 bytes of its value, then one byte is removed from the end
/// for every `=` in the group.
pub open spec fn decode_spec(t: Seq<u8>) -> Seq<u8>
    decreases t.len(),
{
    if t.len() < 4 {
        Seq::empty()
    } else {
        let q = t.subrange(t.len() - 4, t.len() as int);
        let before = decode_spec(t.subrange(0, t.len() - 4));
        drop_back(before + group_bytes(group_value(q)), padding_count(q))
    }
}

/// Inputs on which [`decode`] does not panic: whole groups of 4 bytes,
/// each a base64 symbol or `=`.
pub open spec fn decodable(t: Seq<u8>) -> bool {
    &&& t.len() % 4 == 0
    &&& forall|i: int| 0 <= i < t.len() ==> is_symbol_or_padding(#[trigger] t[i])
}

fn symbol_of(v: u8) -> (c: u8)
    requires
        v < 64,
    ensures
        c == symbol(v),
{
    if v < 26 {
        v + 65
    } else if v < 52 {
        v + 71
    } else if v < 62 {
        v - 4
    } else if v == 62 {
        43
    } else {
        47
    }
}

fn sextet_of(c: u8) -> (v: u32)
    requires
        is_symbol_or_padding(c),
    ensures
        v == sextet(c),
        v < 64,
{
    if c == 43 {
        62
    } else if c == 47 {
        63
    } else if 48 <= c && c <= 57 {
        c as u32 + 4
    } else if c == 61 {
        0
    } else if 65 <= c && c <= 90 {
        c as u32 - 65
    } else {
        c as u32 - 71
    }
}

proof fn lemma_sextets_small(c0: u8, c1: u8, c2: u8)
    ensures
        c0 >> 2 < 64,
        ((c0 & 3) << 4) | (c1 >> 4) < 64,
        ((c1 & 15) << 2) | (c2 >> 6) < 64,
        c2 & 63 < 64,
{
    assert(c0 >> 2 < 64) by (bit_vector);
    assert(((c0 & 3) << 4) | (c1 >> 4) < 64) by (bit_vector);
    assert(((c1 & 15) << 2) | (c2 >> 6) < 64) by (bit_vector);
    assert(c2 & 63 < 64) by (bit_vector);
}

/// Encodes `bytes` as standard base64 with `=` padding.
pub fn encode(bytes: &[u8]) -> (out: Vec<u8>)
    ensures
        out@ == encode_spec(bytes@),
        out@.len() == 4 * ((bytes@.len() + 2) / 3),
{
    let len = bytes.len();
    let mut out: Vec<u8> = Vec::new();
    let mut i: usize = 0;
    while i < len
        invariant
            len == bytes@.len(),
            i <= len,
            i % 3 == 0,
            out@.len() == 4 * (i / 3),
            forall|j: int| 0 <= j < out@.len() ==> out@[j] == encoded_symbol(bytes@, j / 4, j % 4),
        decreases len - i,
    {
        let rest = len - i;
        let c0 = bytes[i];
        let c1: u8 = if rest > 1 { bytes[i + 1] } else { 0 };
        let c2: u8 = if rest > 2 { bytes[i + 2] } else { 0 };
        proof {
            lemma_sextets_small(c0, c1, c2);
        }
        let a = symbol_of(c0 >> 2);
        let b = symbol_of(((c0 & 3) << 4) | (c1 >> 4));
        let c = if rest > 1 { symbol_of(((c1 & 15) << 2) | (c2 >> 6)) } else { PADDING };
        let d = if rest > 2 { symbol_of(c2 & 63) } else { PADDING };
        let ghost g: int = (i / 3) as int;
        let ghost before = out@;
        out.push(a);
        out.push(b);
        out.push(c);
        out.push(d);
        proof {
            assert forall|j: int| 0 <= j < out@.len() implies out@[j] == encoded_symbol(
                bytes@,
                j / 4,
                j % 4,
            ) by {
                if j < before.len() {
                    assert(out@[j] == before[j]);
                } else {
                    assert(j / 4 == g);
                    assert(3 * g == i);
                }
            }
        }
        if rest > 3 {
            i = i + 3;
        } else {
            assert(g + 1 == group_count(len as nat));
            assert(out@ =~= encode_spec(bytes@));
            return out;
        }
    }
    assert(out@ =~= encode_spec(bytes@));
    out
}

proof fn lemma_group_value_bytes(a: u32, b: u32, c: u32, d: u32)
    ensures
        (((((((0u32 << 6u32) | a) << 6u32) | b) << 6u32) | c) << 6u32) | d == join_sextets(a, b, c, d),
{
    assert((((((((0u32 << 6u32) | a) << 6u32) | b) << 6u32) | c) << 6u32) | d == join_sextets(
        a,
        b,
        c,
        d,
    )) by (bit_vector);
}

proof fn lemma_padding_count_step(q: Seq<u8>, k: int)
    requires
        0 <= k < q.len(),
    ensures
        padding_count(q.subrange(0, k + 1)) == padding_count(q.subrange(0, k)) + if q[k]
            == PADDING {
            1nat
        } else {
            0nat
        },
{
    assert(q.subrange(0, k + 1).drop_last() =~= q.subrange(0, k));
}

/// Decodes standard base64 text. Each `=` removes one byte from what has been
/// decoded so far.
pub fn decode(data: &[u8]) -> (out: Vec<u8>)
    requires
        decodable(data@),
    ensures
        out@ == decode_spec(data@),
{
    let len = data.len();
    let mut output: Vec<u8> = Vec::new();
    let mut i: usize = 0;
    while i < len
        invariant
            len == data@.len(),
            decodable(data@),
            i <= len,
            i % 4 == 0,
            output@ == decode_spec(data@.subrange(0, i as int)),
        decreases len - i,
    {
        let ghost q = data@.subrange(i as int, i + 4);
        let s0 = sextet_of(data[i]);
        let s1 = sextet_of(data[i + 1]);
        let s2 = sextet_of(data[i + 2]);
        let s3 = sextet_of(data[i + 3]);
        let mut n: u32 = 0;
        n = (n << 6u32) | s0;
        n = (n << 6u32) | s1;
        n = (n << 6u32) | s2;
        n = (n << 6u32) | s3;
        proof {
            lemma_group_value_bytes(s0, s1, s2, s3);
            assert(n == group_value(q));
        }
        let ghost before = output@;
        output.push(((n >> 16u32) & 0xff) as u8);
        output.push(((n >> 8u32) & 0xff) as u8);
        output.push((n & 0xff) as u8);
        let ghost pushed = output@;
        assert(pushed =~= before + group_bytes(group_value(q)));
        let mut k: usize = 0;
        while k < 4
            invariant
                i + 4 <= len,
                len == data@.len(),
                q == data@.subrange(i as int, i + 4),
                k <= 4,
                output@ == drop_back(pushed, padding_count(q.subrange(0, k as int))),
            decreases 4 - k,
        {
            proof {
                lemma_padding_count_step(q, k as int);
            }
            if data[i + k] == PADDING {
                output.pop();
            }
            k = k + 1;
        }
        proof {
            assert(q.subrange(0, 4) =~= q);
            let t = data@.subrange(0, i + 4);
            assert(t.subrange(0, t.len() - 4) =~= data@.subrange(0, i as int));
            assert(t.subrange(t.len() - 4, t.len() as int) =~= q);
        }
        i = i + 4;
    }
    assert(data@.subrange(0, len as int) =~= data@);
    output
}

proof fn lemma_symbol_inverse(v: u8)
    requires
        v < 64,
    ensures
        is_symbol_or_padding(symbol(v)),
        symbol(v) != PADDING,
        sextet(symbol(v)) == v,
{
}

proof fn lemma_bytes_of_sextets(c0: u8, c1: u8, c2: u8)
    ensures
        group_bytes(
            join_sextets(
                (c0 >> 2) as u32,
                (((c0 & 3) << 4) | (c1 >> 4)) as u32,
                (((c1 & 15) << 2) | (c2 >> 6)) as u32,
                (c2 & 63) as u32,
            ),
        ) =~= seq![c0, c1, c2],
{
    let n = join_sextets(
        (c0 >> 2) as u32,
        (((c0 & 3) << 4) | (c1 >> 4)) as u32,
        (((c1 & 15) << 2) | (c2 >> 6)) as u32,
        (c2 & 63) as u32,
    );
    assert(((n >> 16u32) & 0xff) as u8 == c0 && ((n >> 8u32) & 0xff) as u8 == c1 && (n & 0xff) as u8
        == c2) by (bit_vector)
        requires
            n == join_sextets(
                (c0 >> 2) as u32,
                (((c0 & 3) << 4) | (c1 >> 4)) as u32,
                (((c1 & 15) << 2) | (c2 >> 6)) as u32,
                (c2 & 63) as u32,
            ),
    ;
}

proof fn lemma_encode_prefix(s: Seq<u8>, m: nat)
    requires
        3 * m <= s.len(),
    ensures
        encode_spec(s).subrange(0, 4 * m as int) =~= encode_spec(s.subrange(0, 3 * m as int)),
{
    let t = s.subrange(0, 3 * m as int);
    assert(group_count(t.len()) == m);
    assert forall|j: int| 0 <= j < 4 * m implies #[trigger] encode_spec(s)[j] == encode_spec(
        t,
    )[j] by {
        let g = j / 4;
        assert(3 * g + 2 < t.len());
    }
}

proof fn lemma_last_group(s: Seq<u8>, prefix: Seq<u8>)
    requires
        s.len() > 0,
    ensures
        ({
            let k = group_count(s.len());
            let q = encode_spec(s).subrange(4 * (k - 1), 4 * k as int);
            drop_back(prefix + group_bytes(group_value(q)), padding_count(q)) =~= prefix
                + s.subrange(3 * (k - 1), s.len() as int)
        }),
{
    let k = group_count(s.len());
    let g = k - 1;
    let e = encode_spec(s);
    let q = e.subrange(4 * g, 4 * k as int);
    let c0 = s[3 * g];
    let r = s.len() - 3 * g;
    let c1: u8 = if r > 1 { s[3 * g + 1] } else { 0 };
    let c2: u8 = if r > 2 { s[3 * g + 2] } else { 0 };
    lemma_sextets_small(c0, c1, c2);
    lemma_symbol_inverse(c0 >> 2);
    lemma_symbol_inverse(((c0 & 3) << 4) | (c1 >> 4));
    lemma_symbol_inverse(((c1 & 15) << 2) | (c2 >> 6));
    lemma_symbol_inverse(c2 & 63);
    assert(q[0] == e[4 * g]);
    assert(q[1] == e[4 * g + 1]);
    assert(q[2] == e[4 * g + 2]);
    assert(q[3] == e[4 * g + 3]);
    assert((4 * g + 1) / 4 == g && (4 * g + 1) % 4 == 1);
    assert((4 * g + 2) / 4 == g && (4 * g + 2) % 4 == 2);
    assert((4 * g + 3) / 4 == g && (4 * g + 3) % 4 == 3);
    if r == 1 {
        assert(((c1 & 15) << 2) | (c2 >> 6) == 0) by (bit_vector)
            requires
                c1 == 0,
                c2 == 0,
        ;
        assert(c2 & 63 == 0) by (bit_vector)
            requires
                c2 == 0,
        ;
    } else if r == 2 {
        assert(c2 & 63 == 0) by (bit_vector)
            requires
                c2 == 0,
        ;
    }
    lemma_bytes_of_sextets(c0, c1, c2);
    assert(group_value(q) == join_sextets(
        (c0 >> 2) as u32,
        (((c0 & 3) << 4) | (c1 >> 4)) as u32,
        (((c1 & 15) << 2) | (c2 >> 6)) as u32,
        (c2 & 63) as u32,
    ));
    reveal_with_fuel(padding_count, 5);
    assert(q.drop_last().drop_last().drop_last().drop_last() =~= Seq::<u8>::empty());
    assert(padding_count(q) == 3 - r);
    assert(group_bytes(group_value(q)) =~= seq![c0, c1, c2]);
}

proof fn lemma_decode_encode(s: Seq<u8>)
    ensures
        decodable(encode_spec(s)),
        decode_spec(encode_spec(s)) =~= s,
    decreases s.len(),
{
    let e = encode_spec(s);
    assert forall|i: int| 0 <= i < e.len() implies is_symbol_or_padding(#[trigger] e[i]) by {
        let g = i / 4;
        let c0 = s[3 * g];
        let c1: u8 = if 3 * g + 1 < s.len() { s[3 * g + 1] } else { 0 };
        let c2: u8 = if 3 * g + 2 < s.len() { s[3 * g + 2] } else { 0 };
        lemma_sextets_small(c0, c1, c2);
        lemma_symbol_inverse(c0 >> 2);
        lemma_symbol_inverse(((c0 & 3) << 4) | (c1 >> 4));
        lemma_symbol_inverse(((c1 & 15) << 2) | (c2 >> 6));
        lemma_symbol_inverse(c2 & 63);
    }
    if s.len() > 0 {
        let k = group_count(s.len());
        let t = s.subrange(0, 3 * (k - 1));
        lemma_encode_prefix(s, (k - 1) as nat);
        lemma_decode_encode(t);
        lemma_last_group(s, t);
        assert(e.subrange(0, e.len() - 4) =~= e.subrange(0, 4 * (k - 1)));
        assert(t + s.subrange(3 * (k - 1), s.len() as int) =~= s);
    } else {
        assert(e.len() == 0);
    }
}

/// Decoding what [`encode`] produced gives the same bytes back, and the
/// decoded length never exceeds three quarters of the text's length.
pub proof fn law_decode_inverts_encode(s: Seq<u8>)
    ensures
        decodable(encode_spec(s)),
        decode_spec(encode_spec(s)) == s,
        decode_spec(encode_spec(s)).len() <= encode_spec(s).len() * 3 / 4,
{
    lemma_decode_encode(s);
}

} // verus!
