//! The record that `#[module]` leaves for each module it sees, so that a later
//! `#[provider]` can find the types the module exports: the record's file
//! name, and its text, one base64 line per exported type.
use vstd::prelude::*;
use crate::encoding::base32::base32_nopad_spec;
use crate::encoding::base64::{decodable, decode_spec, encode_spec, is_symbol_or_padding};
use crate::hash::{fnv, fnv_spec};

verus! {

/// The byte that ends a line of a record.
pub const NEWLINE: u8 = 10;

/// The file name of the record of the module with key `key`: the unpadded
/// base32 text of the key's FNV digest.
pub open spec fn record_name_spec(key: Seq<u8>) -> Seq<u8> {
    base32_nopad_spec(fnv_spec(key))
}

/// The contents of each vector.
pub open spec fn views(v: Seq<Vec<u8>>) -> Seq<Seq<u8>> {
    Seq::new(v.len(), |i: int| v[i]@)
}

/// `lines` with a newline between neighbours.
pub open spec fn join_lines(lines: Seq<Seq<u8>>) -> Seq<u8>
    decreases lines.len(),
{
    if lines.len() == 0 {
        Seq::empty()
    } else if lines.len() == 1 {
        lines[0]
    } else {
        join_lines(lines.drop_last()) + seq![NEWLINE] + lines.last()
    }
}

/// The base64 text of each type.
pub open spec fn encoded_lines(types: Seq<Seq<u8>>) -> Seq<Seq<u8>> {
    Seq::new(types.len(), |i: int| encode_spec(types[i]))
}

/// The text of the record of `types`: the base64 text of each, one per line.
pub open spec fn record_text(types: Seq<Seq<u8>>) -> Seq<u8> {
    join_lines(encoded_lines(types))
}

/// The lines of `text` that a newline has ended, and the line still open.
pub open spec fn split_state(text: Seq<u8>) -> (Seq<Seq<u8>>, Seq<u8>)
    decreases text.len(),
{
    if text.len() == 0 {
        (Seq::empty(), Seq::empty())
    } else {
        let (done, last_line) = split_state(text.drop_last());
        if text.last() == NEWLINE {
            (done.push(last_line), Seq::empty())
        } else {
            (done, last_line.push(text.last()))
        }
    }
}

/// The lines of `text`, split at each newline (the last one may be empty).
pub open spec fn lines_of(text: Seq<u8>) -> Seq<Seq<u8>> {
    split_state(text).0.push(split_state(text).1)
}

/// Whether a line names a type: it is not empty and is base64 text.
pub open spec fn is_entry(line: Seq<u8>) -> bool {
    line.len() > 0 && decodable(line)
}

/// The types that `lines` name, in order: each entry decoded, other lines skipped.
pub open spec fn entries_of(lines: Seq<Seq<u8>>) -> Seq<Seq<u8>>
    decreases lines.len(),
{
    if lines.len() == 0 {
        Seq::empty()
    } else if is_entry(lines.last()) {
        entries_of(lines.drop_last()).push(decode_spec(lines.last()))
    } else {
        entries_of(lines.drop_last())
    }
}

/// The types that a record with text `text` names.
pub open spec fn read_record_spec(text: Seq<u8>) -> Seq<Seq<u8>> {
    entries_of(lines_of(text))
}

/// The file name of the record of the module with key `key`.
pub fn record_name(key: &[u8]) -> (name: Vec<u8>)
    ensures
        name@ == record_name_spec(key@),
{
    let digest = fnv(key);
    crate::encoding::base32::encode(digest.as_slice())
}

/// The text of the record of `types`.
pub fn write_record(types: &Vec<Vec<u8>>) -> (text: Vec<u8>)
    ensures
        text@ == record_text(views(types@)),
{
    let n = types.len();
    let ghost enc = encoded_lines(views(types@));
    let mut text: Vec<u8> = Vec::new();
    let mut k: usize = 0;
    while k < n
        invariant
            n == types@.len(),
            enc == encoded_lines(views(types@)),
            k <= n,
            text@ == join_lines(enc.take(k as int)),
        decreases n - k,
    {
        let mut line = crate::encoding::base64::encode(types[k].as_slice());
        assert(line@ == enc[k as int]);
        if k > 0 {
            text.push(NEWLINE);
        }
        text.append(&mut line);
        proof {
            let t = enc.take(k + 1);
            assert(t.drop_last() =~= enc.take(k as int));
            assert(t.last() == enc[k as int]);
            if k == 0 {
                assert(enc.take(0) =~= Seq::<Seq<u8>>::empty());
                assert(text@ =~= t[0]);
            }
        }
        k = k + 1;
    }
    assert(enc.take(n as int) =~= enc);
    text
}

/// Whether [`crate::encoding::base64::decode`] accepts `t`.
pub fn is_decodable(t: &[u8]) -> (r: bool)
    ensures
        r == decodable(t@),
{
    if t.len() % 4 != 0 {
        return false;
    }
    let mut i: usize = 0;
    while i < t.len()
        invariant
            i <= t@.len(),
            forall|j: int| 0 <= j < i ==> is_symbol_or_padding(#[trigger] t@[j]),
        decreases t@.len() - i,
    {
        let c = t[i];
        if !(c == 43 || c == 47 || (48 <= c && c <= 57) || c == 61 || (65 <= c && c <= 90) || (97
            <= c && c <= 122)) {
            assert(!is_symbol_or_padding(t@[i as int]));
            return false;
        }
        i = i + 1;
    }
    true
}

/// Appends the type that `line` names, if it names one.
fn take_line(found: &mut Vec<Vec<u8>>, line: &Vec<u8>)
    ensures
        views(final(found)@) == if is_entry(line@) {
            views(old(found)@).push(decode_spec(line@))
        } else {
            views(old(found)@)
        },
{
    if line.len() > 0 && is_decodable(line.as_slice()) {
        let t = crate::encoding::base64::decode(line.as_slice());
        found.push(t);
        assert(views(found@) =~= views(old(found)@).push(decode_spec(line@)));
    }
}

/// The types that a record with text `text` names, in the order of its lines.
pub fn read_record(text: &[u8]) -> (types: Vec<Vec<u8>>)
    ensures
        views(types@) == read_record_spec(text@),
{
    let n = text.len();
    let mut found: Vec<Vec<u8>> = Vec::new();
    let mut line: Vec<u8> = Vec::new();
    let ghost mut done: Seq<Seq<u8>> = Seq::empty();
    let mut i: usize = 0;
    while i < n
        invariant
            n == text@.len(),
            i <= n,
            split_state(text@.take(i as int)) == (done, line@),
            views(found@) == entries_of(done),
        decreases n - i,
    {
        let b = text[i];
        proof {
            let t = text@.take(i + 1);
            assert(t.drop_last() =~= text@.take(i as int));
            assert(t.last() == b);
        }
        if b == NEWLINE {
            take_line(&mut found, &line);
            proof {
                assert(done.push(line@).drop_last() =~= done);
                done = done.push(line@);
            }
            line = Vec::new();
        } else {
            line.push(b);
        }
        i = i + 1;
    }
    take_line(&mut found, &line);
    assert(text@.take(n as int) =~= text@);
    assert(done.push(line@).drop_last() =~= done);
    found
}

// ---------------------------------------------------------------------------
// Reading back what was written.

proof fn lemma_split_plain_suffix(a: Seq<u8>, b: Seq<u8>)
    requires
        forall|i: int| 0 <= i < b.len() ==> b[i] != NEWLINE,
    ensures
        split_state(a + b) == (split_state(a).0, split_state(a).1 + b),
    decreases b.len(),
{
    if b.len() == 0 {
        assert(a + b =~= a);
        assert(split_state(a).1 + b =~= split_state(a).1);
    } else {
        lemma_split_plain_suffix(a, b.drop_last());
        assert((a + b).drop_last() =~= a + b.drop_last());
        assert((a + b).last() == b.last());
        assert((split_state(a).1 + b.drop_last()).push(b.last()) =~= split_state(a).1 + b);
    }
}

proof fn lemma_split_joined(lines: Seq<Seq<u8>>)
    requires
        lines.len() > 0,
        forall|k: int, i: int|
            0 <= k < lines.len() && 0 <= i < lines[k].len() ==> #[trigger] lines[k][i] != NEWLINE,
    ensures
        split_state(join_lines(lines)) == (lines.drop_last(), lines.last()),
    decreases lines.len(),
{
    if lines.len() == 1 {
        lemma_split_plain_suffix(Seq::empty(), lines[0]);
        assert(Seq::<u8>::empty() + lines[0] =~= lines[0]);
        assert(lines.drop_last() =~= Seq::<Seq<u8>>::empty());
    } else {
        let rest = lines.drop_last();
        lemma_split_joined(rest);
        let x = join_lines(rest) + seq![NEWLINE];
        assert(x.drop_last() =~= join_lines(rest));
        assert(rest.drop_last().push(rest.last()) =~= rest);
        lemma_split_plain_suffix(x, lines.last());
    }
}

proof fn lemma_entries_decode(lines: Seq<Seq<u8>>, types: Seq<Seq<u8>>)
    requires
        lines.len() == types.len(),
        forall|k: int|
            0 <= k < lines.len() ==> is_entry(#[trigger] lines[k]) && decode_spec(lines[k])
                == types[k],
    ensures
        entries_of(lines) == types,
    decreases lines.len(),
{
    if lines.len() > 0 {
        lemma_entries_decode(lines.drop_last(), types.drop_last());
        assert(is_entry(lines[lines.len() - 1]));
        assert(types.drop_last().push(types.last()) =~= types);
    } else {
        assert(types =~= Seq::<Seq<u8>>::empty());
    }
}

/// Reading a record gives back the types it was written from, in order,
/// when none of them is empty.
pub proof fn law_read_inverts_write(types: Seq<Seq<u8>>)
    requires
        forall|k: int| 0 <= k < types.len() ==> #[trigger] types[k].len() > 0,
    ensures
        read_record_spec(record_text(types)) == types,
{
    let enc = encoded_lines(types);
    assert forall|k: int| 0 <= k < enc.len() implies is_entry(#[trigger] enc[k]) && decode_spec(
        enc[k],
    ) == types[k] by {
        crate::encoding::base64::law_decode_inverts_encode(types[k]);
        assert(types[k].len() > 0);
        assert(enc[k].len() > 0);
    }
    if types.len() == 0 {
        assert(record_text(types) =~= Seq::<u8>::empty());
        let ls = lines_of(record_text(types));
        assert(ls.drop_last() =~= Seq::<Seq<u8>>::empty());
        assert(!is_entry(ls.last()));
        assert(entries_of(ls.drop_last()) =~= Seq::<Seq<u8>>::empty());
        assert(types =~= Seq::<Seq<u8>>::empty());
    } else {
        assert forall|k: int, i: int|
            0 <= k < enc.len() && 0 <= i < enc[k].len() implies #[trigger] enc[k][i] != NEWLINE by {
            assert(is_entry(enc[k]));
            assert(is_symbol_or_padding(enc[k][i]));
        }
        lemma_split_joined(enc);
        assert(enc.drop_last().push(enc.last()) =~= enc);
        assert(lines_of(record_text(types)) == enc);
        lemma_entries_decode(enc, types);
    }
}

} // verus!
