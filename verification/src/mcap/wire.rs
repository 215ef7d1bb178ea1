//! The encodings of the fields that records are made of: little-endian
//! numbers, length-prefixed strings and byte runs, and maps whose prefix
//! counts bytes.

use crate::encoding::cdr::string_from_utf8;
use crate::endian::{
    le_u16, le_u32, le_u64, lemma_le_round_trip_u16, lemma_le_round_trip_u32,
    lemma_le_round_trip_u64, put_u16_le, put_u32_le, put_u64_le, read_u16_le, read_u32_le,
    read_u64_le, u16_le, u32_le, u64_le,
};
use crate::error::{ErrorKind, PybagError};
use crate::text::same_text;
use std::collections::HashMap;
use vstd::prelude::*;
use vstd::slice::slice_subrange;
use vstd::slice::slice_to_vec;
use vstd::utf8::{decode_utf8, encode_utf8, valid_utf8};

verus! {

broadcast use {vstd::std_specs::hash::group_hash_axioms, crate::endian::group_widths};

/// One byte from the front of `s`, and what follows it.
pub open spec fn take_u8(s: Seq<u8>) -> Result<(u8, Seq<u8>), ErrorKind> {
    if s.len() >= 1 {
        Ok((s[0], s.skip(1)))
    } else {
        Err(ErrorKind::UnexpectedEof)
    }
}

/// A 16-bit number from the front of `s`, and what follows it.
pub open spec fn take_u16(s: Seq<u8>) -> Result<(u16, Seq<u8>), ErrorKind> {
    if s.len() >= 2 {
        Ok((le_u16(s.take(2)), s.skip(2)))
    } else {
        Err(ErrorKind::UnexpectedEof)
    }
}

/// A 32-bit number from the front of `s`, and what follows it.
pub open spec fn take_u32(s: Seq<u8>) -> Result<(u32, Seq<u8>), ErrorKind> {
    if s.len() >= 4 {
        Ok((le_u32(s.take(4)), s.skip(4)))
    } else {
        Err(ErrorKind::UnexpectedEof)
    }
}

/// A 64-bit number from the front of `s`, and what follows it.
pub open spec fn take_u64(s: Seq<u8>) -> Result<(u64, Seq<u8>), ErrorKind> {
    if s.len() >= 8 {
        Ok((le_u64(s.take(8)), s.skip(8)))
    } else {
        Err(ErrorKind::UnexpectedEof)
    }
}

/// The first `n` bytes of `s`, and what follows them.
pub open spec fn take_bytes(s: Seq<u8>, n: int) -> Result<(Seq<u8>, Seq<u8>), ErrorKind> {
    if s.len() >= n {
        Ok((s.take(n), s.skip(n)))
    } else {
        Err(ErrorKind::UnexpectedEof)
    }
}

/// A byte run with a 32-bit length before it.
pub open spec fn take_bytes32(s: Seq<u8>) -> Result<(Seq<u8>, Seq<u8>), ErrorKind> {
    match take_u32(s) {
        Err(e) => Err(e),
        Ok((n, rest)) => take_bytes(rest, n as int),
    }
}

/// A byte run with a 64-bit length before it.
pub open spec fn take_bytes64(s: Seq<u8>) -> Result<(Seq<u8>, Seq<u8>), ErrorKind> {
    match take_u64(s) {
        Err(e) => Err(e),
        Ok((n, rest)) => take_bytes(rest, n as int),
    }
}

/// A string: a 32-bit length, then that many bytes of UTF-8.
pub open spec fn take_str(s: Seq<u8>) -> Result<(Seq<char>, Seq<u8>), ErrorKind> {
    match take_bytes32(s) {
        Err(e) => Err(e),
        Ok((raw, rest)) => if valid_utf8(raw) {
            Ok((decode_utf8(raw), rest))
        } else {
            Err(ErrorKind::InvalidMcap)
        },
    }
}

/// What is left of a count of `remaining` bytes when `used` of them are
/// taken: nothing, if more are taken than were left.
pub open spec fn left_of(remaining: nat, used: int) -> nat {
    if used < remaining {
        (remaining - used) as nat
    } else {
        0
    }
}

/// Entries of two strings each, read until `remaining` bytes are used up.
pub open spec fn take_str_entries(s: Seq<u8>, remaining: nat) -> Result<
    (Seq<(Seq<char>, Seq<char>)>, Seq<u8>),
    ErrorKind,
>
    decreases remaining,
{
    if remaining == 0 {
        Ok((Seq::empty(), s))
    } else {
        match take_str(s) {
            Err(e) => Err(e),
            Ok((key, after_key)) => match take_str(after_key) {
                Err(e) => Err(e),
                Ok((value, rest)) => {
                    let used = s.len() - rest.len();
                    if used <= 0 {
                        Err(ErrorKind::UnexpectedEof)
                    } else {
                        match take_str_entries(rest, left_of(remaining, used)) {
                            Err(e) => Err(e),
                            Ok((more, end)) => Ok((seq![(key, value)] + more, end)),
                        }
                    }
                },
            },
        }
    }
}

/// Where the first entry of `entries` from `from` on with the key `key`
/// stands.
pub open spec fn key_place(entries: Seq<(Seq<char>, Seq<char>)>, key: Seq<char>, from: int) -> Option<
    int,
>
    decreases entries.len() - from,
{
    if from < 0 || from >= entries.len() {
        None
    } else if entries[from].0 == key {
        Some(from)
    } else {
        key_place(entries, key, from + 1)
    }
}

/// `entries` with `entry` among them: in the place of the entry with the
/// same key, if there is one, else behind all.
pub open spec fn with_entry(entries: Seq<(Seq<char>, Seq<char>)>, entry: (Seq<char>, Seq<char>)) -> Seq<
    (Seq<char>, Seq<char>),
> {
    match key_place(entries, entry.0, 0) {
        Some(i) => entries.update(i, entry),
        None => entries.push(entry),
    }
}

/// The map that entries make when each is put in turn: no key occurs
/// twice in it, and of two entries with one key the later counts.
pub open spec fn merged(entries: Seq<(Seq<char>, Seq<char>)>) -> Seq<(Seq<char>, Seq<char>)>
    decreases entries.len(),
{
    if entries.len() == 0 {
        Seq::empty()
    } else {
        with_entry(merged(entries.drop_last()), entries.last())
    }
}

/// Whether no key occurs twice among the entries.
pub open spec fn keys_distinct(entries: Seq<(Seq<char>, Seq<char>)>) -> bool {
    forall|i: int, j: int|
        0 <= i < j < entries.len() ==> (#[trigger] entries[i]).0 != (#[trigger] entries[j]).0
}

/// A map from strings to strings: a 32-bit count of bytes, then entries
/// until the count is used up. Each key stands once in the outcome, with
/// the value of its last entry.
pub open spec fn take_str_map(s: Seq<u8>) -> Result<
    (Seq<(Seq<char>, Seq<char>)>, Seq<u8>),
    ErrorKind,
> {
    match take_u32(s) {
        Err(e) => Err(e),
        Ok((n, rest)) => match take_str_entries(rest, n as nat) {
            Err(e) => Err(e),
            Ok((entries, end)) => Ok((merged(entries), end)),
        },
    }
}

/// Where a key is found, it stands, and nowhere before; where it is not
/// found, it stands nowhere.
pub proof fn lemma_key_place(entries: Seq<(Seq<char>, Seq<char>)>, key: Seq<char>, from: int)
    requires
        0 <= from,
    ensures
        match key_place(entries, key, from) {
            Some(i) => from <= i < entries.len() && entries[i].0 == key && forall|k: int|
                from <= k < i ==> (#[trigger] entries[k]).0 != key,
            None => forall|k: int| from <= k < entries.len() ==> (#[trigger] entries[k]).0 != key,
        },
    decreases entries.len() - from,
{
    if from < entries.len() && entries[from].0 != key {
        lemma_key_place(entries, key, from + 1);
    }
}

/// Putting an entry among entries with distinct keys leaves the keys
/// distinct.
pub proof fn lemma_with_entry_distinct(entries: Seq<(Seq<char>, Seq<char>)>, entry: (Seq<char>, Seq<char>))
    requires
        keys_distinct(entries),
    ensures
        keys_distinct(with_entry(entries, entry)),
{
    lemma_key_place(entries, entry.0, 0);
    let out = with_entry(entries, entry);
    assert forall|i: int, j: int| 0 <= i < j < out.len() implies (#[trigger] out[i]).0 != (
    #[trigger] out[j]).0 by {
        match key_place(entries, entry.0, 0) {
            Some(at) => {
                assert(out[i].0 == entries[i].0);
                assert(out[j].0 == entries[j].0);
            },
            None => {
                if j < entries.len() {
                    assert(out[i] == entries[i]);
                    assert(out[j] == entries[j]);
                } else {
                    assert(out[i] == entries[i]);
                }
            },
        }
    }
}

/// No key occurs twice in the map that entries make.
pub proof fn lemma_merged_distinct(entries: Seq<(Seq<char>, Seq<char>)>)
    ensures
        keys_distinct(merged(entries)),
    decreases entries.len(),
{
    if entries.len() > 0 {
        lemma_merged_distinct(entries.drop_last());
        lemma_with_entry_distinct(merged(entries.drop_last()), entries.last());
    }
}

/// Entries with distinct keys make the map that lists them as they are.
pub proof fn lemma_merged_same(entries: Seq<(Seq<char>, Seq<char>)>)
    requires
        keys_distinct(entries),
    ensures
        merged(entries) == entries,
    decreases entries.len(),
{
    if entries.len() > 0 {
        let head = entries.drop_last();
        assert forall|i: int, j: int| 0 <= i < j < head.len() implies (#[trigger] head[i]).0 != (
        #[trigger] head[j]).0 by {
            assert(head[i] == entries[i]);
            assert(head[j] == entries[j]);
        }
        lemma_merged_same(head);
        lemma_key_place(head, entries.last().0, 0);
        assert forall|k: int| 0 <= k < head.len() implies (#[trigger] head[k]).0
            != entries.last().0 by {
            assert(head[k] == entries[k]);
            assert(entries.last() == entries[entries.len() - 1]);
        }
        assert(key_place(head, entries.last().0, 0) is None);
        assert(head.push(entries.last()) =~= entries);
    } else {
        assert(entries =~= Seq::empty());
    }
}

/// Entries of a 16-bit key and a 64-bit value, read until `remaining`
/// bytes are used up.
pub open spec fn take_num_entries(s: Seq<u8>, remaining: nat) -> Result<
    (Seq<(u16, u64)>, Seq<u8>),
    ErrorKind,
>
    decreases remaining,
{
    if remaining == 0 {
        Ok((Seq::empty(), s))
    } else {
        match take_u16(s) {
            Err(e) => Err(e),
            Ok((key, after_key)) => match take_u64(after_key) {
                Err(e) => Err(e),
                Ok((value, rest)) => match take_num_entries(rest, left_of(remaining, 10)) {
                    Err(e) => Err(e),
                    Ok((more, end)) => Ok((seq![(key, value)] + more, end)),
                },
            },
        }
    }
}

/// The map that entries make when each is inserted in turn, so that of two
/// entries with one key the later counts.
pub open spec fn entries_map(entries: Seq<(u16, u64)>) -> Map<u16, u64>
    decreases entries.len(),
{
    if entries.len() == 0 {
        Map::empty()
    } else {
        entries_map(entries.drop_last()).insert(entries.last().0, entries.last().1)
    }
}

/// A map from 16-bit keys to 64-bit values: a 32-bit count of bytes, then
/// entries until the count is used up.
pub open spec fn take_num_map(s: Seq<u8>) -> Result<(Map<u16, u64>, Seq<u8>), ErrorKind> {
    match take_u32(s) {
        Err(e) => Err(e),
        Ok((n, rest)) => match take_num_entries(rest, n as nat) {
            Err(e) => Err(e),
            Ok((entries, end)) => Ok((entries_map(entries), end)),
        },
    }
}

/// Pairs of two 64-bit numbers, read until `remaining` bytes are used up.
pub open spec fn take_pairs(s: Seq<u8>, remaining: nat) -> Result<
    (Seq<(u64, u64)>, Seq<u8>),
    ErrorKind,
>
    decreases remaining,
{
    if remaining == 0 {
        Ok((Seq::empty(), s))
    } else {
        match take_u64(s) {
            Err(e) => Err(e),
            Ok((first, after_first)) => match take_u64(after_first) {
                Err(e) => Err(e),
                Ok((second, rest)) => match take_pairs(rest, left_of(remaining, 16)) {
                    Err(e) => Err(e),
                    Ok((more, end)) => Ok((seq![(first, second)] + more, end)),
                },
            },
        }
    }
}

/// An array of pairs: a 32-bit count of bytes, then pairs until the count
/// is used up.
pub open spec fn take_pair_array(s: Seq<u8>) -> Result<(Seq<(u64, u64)>, Seq<u8>), ErrorKind> {
    match take_u32(s) {
        Err(e) => Err(e),
        Ok((n, rest)) => take_pairs(rest, n as nat),
    }
}

/// The encoding of a string.
pub open spec fn str_bytes(s: Seq<char>) -> Seq<u8> {
    u32_le(encode_utf8(s).len() as u32) + encode_utf8(s)
}

/// The encoding of a byte run with a 32-bit length.
pub open spec fn bytes32(b: Seq<u8>) -> Seq<u8> {
    u32_le(b.len() as u32) + b
}

/// The encoding of a byte run with a 64-bit length.
pub open spec fn bytes64(b: Seq<u8>) -> Seq<u8> {
    u64_le(b.len() as u64) + b
}

/// The encodings of string entries, one after the other.
pub open spec fn str_entries_bytes(entries: Seq<(Seq<char>, Seq<char>)>) -> Seq<u8>
    decreases entries.len(),
{
    if entries.len() == 0 {
        Seq::empty()
    } else {
        str_bytes(entries[0].0) + str_bytes(entries[0].1) + str_entries_bytes(entries.drop_first())
    }
}

/// The encoding of a map from strings to strings.
pub open spec fn str_map_bytes(entries: Seq<(Seq<char>, Seq<char>)>) -> Seq<u8> {
    bytes32(str_entries_bytes(entries))
}

/// The encodings of numeric entries, one after the other.
pub open spec fn num_entries_bytes(entries: Seq<(u16, u64)>) -> Seq<u8>
    decreases entries.len(),
{
    if entries.len() == 0 {
        Seq::empty()
    } else {
        u16_le(entries[0].0) + u64_le(entries[0].1) + num_entries_bytes(entries.drop_first())
    }
}

/// The entries of `m` with a key below `upto`, by ascending key.
pub open spec fn sorted_entries(m: Map<u16, u64>, upto: int) -> Seq<(u16, u64)>
    decreases upto,
{
    if upto <= 0 {
        Seq::empty()
    } else if m.contains_key((upto - 1) as u16) {
        sorted_entries(m, upto - 1).push(((upto - 1) as u16, m[(upto - 1) as u16]))
    } else {
        sorted_entries(m, upto - 1)
    }
}

/// The encoding of a map from 16-bit keys to 64-bit values: its entries by
/// ascending key.
pub open spec fn num_map_bytes(m: Map<u16, u64>) -> Seq<u8> {
    bytes32(num_entries_bytes(sorted_entries(m, 0x1_0000)))
}

/// The encodings of pairs, one after the other.
pub open spec fn pairs_bytes(pairs: Seq<(u64, u64)>) -> Seq<u8>
    decreases pairs.len(),
{
    if pairs.len() == 0 {
        Seq::empty()
    } else {
        u64_le(pairs[0].0) + u64_le(pairs[0].1) + pairs_bytes(pairs.drop_first())
    }
}

/// The encoding of an array of pairs.
pub open spec fn pair_array_bytes(pairs: Seq<(u64, u64)>) -> Seq<u8> {
    bytes32(pairs_bytes(pairs))
}

/// A vector of string pairs as a sequence of pairs of character sequences.
pub open spec fn pairs_view(v: Seq<(String, String)>) -> Seq<(Seq<char>, Seq<char>)> {
    Seq::new(v.len(), |i: int| (v[i].0@, v[i].1@))
}

/// Whether the entries are a map that can be encoded: no key occurs
/// twice, and the strings of all entries, encoded, fit a 32-bit byte
/// count.
pub open spec fn str_entries_fit(entries: Seq<(Seq<char>, Seq<char>)>) -> bool {
    &&& keys_distinct(entries)
    &&& forall|i: int|
        #![trigger entries[i]]
        0 <= i < entries.len() ==> encode_utf8(entries[i].0).len() <= u32::MAX && encode_utf8(
            entries[i].1,
        ).len() <= u32::MAX
    &&& str_entries_bytes(entries).len() <= u32::MAX
}

/// Taking what was put gives it back, with what followed.
pub proof fn lemma_take_u8(v: u8, rest: Seq<u8>)
    ensures
        take_u8(seq![v] + rest) == Ok::<(u8, Seq<u8>), ErrorKind>((v, rest)),
{
    assert((seq![v] + rest).skip(1) =~= rest);
}

/// Taking a 16-bit number that was put gives it back, with what followed.
pub proof fn lemma_take_u16(v: u16, rest: Seq<u8>)
    ensures
        take_u16(u16_le(v) + rest) == Ok::<(u16, Seq<u8>), ErrorKind>((v, rest)),
{
    lemma_le_round_trip_u16(v);
    assert((u16_le(v) + rest).skip(2) =~= rest);
    assert((u16_le(v) + rest).take(2) =~= u16_le(v));
}

/// Taking a 32-bit number that was put gives it back, with what followed.
pub proof fn lemma_take_u32(v: u32, rest: Seq<u8>)
    ensures
        take_u32(u32_le(v) + rest) == Ok::<(u32, Seq<u8>), ErrorKind>((v, rest)),
{
    lemma_le_round_trip_u32(v);
    assert((u32_le(v) + rest).skip(4) =~= rest);
    assert((u32_le(v) + rest).take(4) =~= u32_le(v));
}

/// Taking a 64-bit number that was put gives it back, with what followed.
#[verifier::rlimit(50)]
#[verifier::spinoff_prover]
pub proof fn lemma_take_u64(v: u64, rest: Seq<u8>)
    ensures
        take_u64(u64_le(v) + rest) == Ok::<(u64, Seq<u8>), ErrorKind>((v, rest)),
{
    lemma_le_round_trip_u64(v);
    let s = u64_le(v) + rest;
    assert(s.skip(8) =~= rest);
    assert(s.take(8) =~= u64_le(v));
}

/// Taking as many bytes as were put gives them back, with what followed.
pub proof fn lemma_take_bytes(b: Seq<u8>, rest: Seq<u8>)
    ensures
        take_bytes(b + rest, b.len() as int) == Ok::<(Seq<u8>, Seq<u8>), ErrorKind>((b, rest)),
{
    assert((b + rest).take(b.len() as int) =~= b);
    assert((b + rest).skip(b.len() as int) =~= rest);
}

/// Taking a byte run that was put with its 32-bit length gives it back,
/// with what followed.
#[verifier::rlimit(50)]
#[verifier::spinoff_prover]
pub proof fn lemma_take_bytes32(b: Seq<u8>, rest: Seq<u8>)
    requires
        b.len() <= u32::MAX,
    ensures
        take_bytes32(bytes32(b) + rest) == Ok::<(Seq<u8>, Seq<u8>), ErrorKind>((b, rest)),
{
    assert(bytes32(b) + rest =~= u32_le(b.len() as u32) + (b + rest));
    lemma_take_u32(b.len() as u32, b + rest);
    lemma_take_bytes(b, rest);
}

/// Taking a byte run that was put with its 64-bit length gives it back,
/// with what followed.
#[verifier::rlimit(50)]
#[verifier::spinoff_prover]
pub proof fn lemma_take_bytes64(b: Seq<u8>, rest: Seq<u8>)
    requires
        b.len() <= u64::MAX,
    ensures
        take_bytes64(bytes64(b) + rest) == Ok::<(Seq<u8>, Seq<u8>), ErrorKind>((b, rest)),
{
    assert(bytes64(b) + rest =~= u64_le(b.len() as u64) + (b + rest));
    lemma_take_u64(b.len() as u64, b + rest);
    lemma_take_bytes(b, rest);
}

/// Taking a string that was put gives it back, with what followed.
#[verifier::rlimit(50)]
#[verifier::spinoff_prover]
pub proof fn lemma_take_str(s: Seq<char>, rest: Seq<u8>)
    requires
        encode_utf8(s).len() <= u32::MAX,
    ensures
        take_str(str_bytes(s) + rest) == Ok::<(Seq<char>, Seq<u8>), ErrorKind>((s, rest)),
{
    lemma_take_bytes32(encode_utf8(s), rest);
    vstd::utf8::encode_utf8_valid_utf8(s);
    vstd::utf8::encode_utf8_decode_utf8(s);
}

/// Taking string entries that were put, by the count of their bytes, gives
/// them back in their order, with what followed.
#[verifier::rlimit(50)]
#[verifier::spinoff_prover]
pub proof fn lemma_take_str_entries(entries: Seq<(Seq<char>, Seq<char>)>, rest: Seq<u8>)
    requires
        forall|i: int|
            #![trigger entries[i]]
            0 <= i < entries.len() ==> encode_utf8(entries[i].0).len() <= u32::MAX && encode_utf8(
                entries[i].1,
            ).len() <= u32::MAX,
    ensures
        take_str_entries(
            str_entries_bytes(entries) + rest,
            str_entries_bytes(entries).len(),
        ) == Ok::<(Seq<(Seq<char>, Seq<char>)>, Seq<u8>), ErrorKind>((entries, rest)),
    decreases entries.len(),
{
    if entries.len() == 0 {
        assert(str_entries_bytes(entries) + rest =~= rest);
        assert(entries =~= Seq::empty());
    } else {
        let key = entries[0].0;
        let value = entries[0].1;
        let tail = entries.drop_first();
        let tail_bytes = str_entries_bytes(tail);
        let all = str_entries_bytes(entries) + rest;
        assert(all =~= str_bytes(key) + (str_bytes(value) + (tail_bytes + rest)));
        lemma_take_str(key, str_bytes(value) + (tail_bytes + rest));
        lemma_take_str(value, tail_bytes + rest);
        assert forall|i: int| #![trigger tail[i]] 0 <= i < tail.len() implies encode_utf8(
            tail[i].0,
        ).len() <= u32::MAX && encode_utf8(tail[i].1).len() <= u32::MAX by {
            assert(tail[i] == entries[i + 1]);
        }
        lemma_take_str_entries(tail, rest);
        let used = all.len() - (tail_bytes + rest).len();
        assert(used == str_bytes(key).len() + str_bytes(value).len());
        assert(left_of(str_entries_bytes(entries).len(), used) == tail_bytes.len());
        assert(seq![(key, value)] + tail =~= entries);
    }
}

/// Taking a map from strings to strings that was put gives its entries
/// back in their order, with what followed.
#[verifier::rlimit(50)]
#[verifier::spinoff_prover]
pub proof fn lemma_take_str_map(entries: Seq<(Seq<char>, Seq<char>)>, rest: Seq<u8>)
    requires
        str_entries_fit(entries),
    ensures
        take_str_map(str_map_bytes(entries) + rest) == Ok::<
            (Seq<(Seq<char>, Seq<char>)>, Seq<u8>),
            ErrorKind,
        >((entries, rest)),
{
    let inner = str_entries_bytes(entries);
    assert(str_map_bytes(entries) + rest =~= u32_le(inner.len() as u32) + (inner + rest));
    lemma_take_u32(inner.len() as u32, inner + rest);
    lemma_take_str_entries(entries, rest);
    lemma_merged_same(entries);
}

/// No key occurs twice in a map from strings to strings that was taken.
pub proof fn lemma_taken_keys_distinct(s: Seq<u8>)
    ensures
        match take_str_map(s) {
            Ok((entries, _)) => keys_distinct(entries),
            Err(_) => true,
        },
{
    match take_u32(s) {
        Err(_) => {},
        Ok((n, rest)) => match take_str_entries(rest, n as nat) {
            Err(_) => {},
            Ok((entries, _)) => {
                lemma_merged_distinct(entries);
            },
        },
    }
}

/// Numeric entries take 10 bytes each.
pub proof fn lemma_num_entries_len(entries: Seq<(u16, u64)>)
    ensures
        num_entries_bytes(entries).len() == 10 * entries.len(),
    decreases entries.len(),
{
    if entries.len() > 0 {
        lemma_num_entries_len(entries.drop_first());
    }
}

/// The encoding of entries with one more at the end is the encoding of
/// the entries with that of the last behind it.
#[verifier::rlimit(50)]
#[verifier::spinoff_prover]
pub proof fn lemma_num_entries_push(entries: Seq<(u16, u64)>, last: (u16, u64))
    ensures
        num_entries_bytes(entries.push(last)) == num_entries_bytes(entries) + (u16_le(last.0)
            + u64_le(last.1)),
    decreases entries.len(),
{
    if entries.len() == 0 {
        let one = entries.push(last);
        assert(one.drop_first() =~= Seq::empty());
        assert(one[0] == last);
        assert(num_entries_bytes(one.drop_first()) =~= Seq::empty());
        assert(num_entries_bytes(entries) =~= Seq::empty());
        assert(num_entries_bytes(one) =~= u16_le(last.0) + u64_le(last.1) + num_entries_bytes(
            one.drop_first(),
        ));
        assert(num_entries_bytes(entries.push(last)) =~= num_entries_bytes(entries) + (u16_le(
            last.0,
        ) + u64_le(last.1)));
    } else {
        let tail = entries.drop_first();
        lemma_num_entries_push(tail, last);
        let all = entries.push(last);
        assert(all.drop_first() =~= tail.push(last));
        assert(all[0] == entries[0]);
        assert(num_entries_bytes(all) =~= u16_le(all[0].0) + u64_le(all[0].1) + num_entries_bytes(
            all.drop_first(),
        ));
        assert(num_entries_bytes(entries.push(last)) =~= num_entries_bytes(entries) + (u16_le(
            last.0,
        ) + u64_le(last.1)));
    }
}

/// Taking numeric entries that were put, by the count of their bytes,
/// gives them back in their order, with what followed.
#[verifier::rlimit(50)]
#[verifier::spinoff_prover]
pub proof fn lemma_take_num_entries(entries: Seq<(u16, u64)>, rest: Seq<u8>)
    ensures
        take_num_entries(num_entries_bytes(entries) + rest, 10 * entries.len()) == Ok::<
            (Seq<(u16, u64)>, Seq<u8>),
            ErrorKind,
        >((entries, rest)),
    decreases entries.len(),
{
    if entries.len() == 0 {
        assert(num_entries_bytes(entries) + rest =~= rest);
        assert(entries =~= Seq::empty());
    } else {
        let tail = entries.drop_first();
        let tail_bytes = num_entries_bytes(tail);
        let all = num_entries_bytes(entries) + rest;
        assert(all =~= u16_le(entries[0].0) + (u64_le(entries[0].1) + (tail_bytes + rest)));
        lemma_take_u16(entries[0].0, u64_le(entries[0].1) + (tail_bytes + rest));
        lemma_take_u64(entries[0].1, tail_bytes + rest);
        lemma_take_num_entries(tail, rest);
        assert(left_of(10 * entries.len(), 10) == 10 * tail.len());
        assert(seq![entries[0]] + tail =~= entries);
    }
}

/// The part of `m` with keys below `upto`.
pub open spec fn below(m: Map<u16, u64>, upto: int) -> Map<u16, u64> {
    Map::new(|k: u16| m.contains_key(k) && k < upto, |k: u16| m[k])
}

/// The entries of a map by ascending key make the map again; there are no
/// more of them than keys.
#[verifier::rlimit(50)]
#[verifier::spinoff_prover]
pub proof fn lemma_sorted_entries(m: Map<u16, u64>, upto: int)
    requires
        0 <= upto <= 0x1_0000,
    ensures
        sorted_entries(m, upto).len() <= upto,
        entries_map(sorted_entries(m, upto)) == below(m, upto),
    decreases upto,
{
    if upto > 0 {
        lemma_sorted_entries(m, upto - 1);
        let key = (upto - 1) as u16;
        let before = sorted_entries(m, upto - 1);
        if m.contains_key(key) {
            let all = before.push((key, m[key]));
            assert(all.drop_last() =~= before);
            assert(all.last() == (key, m[key]));
            assert(entries_map(all) == entries_map(before).insert(key, m[key]));
            assert(below(m, upto - 1).insert(key, m[key]) =~= below(m, upto));
        } else {
            assert(below(m, upto - 1) =~= below(m, upto));
        }
    } else {
        assert(below(m, upto) =~= Map::empty());
    }
}

/// Taking a map from 16-bit keys to 64-bit values that was put gives it
/// back, with what followed.
#[verifier::rlimit(50)]
#[verifier::spinoff_prover]
pub proof fn lemma_take_num_map(m: Map<u16, u64>, rest: Seq<u8>)
    ensures
        take_num_map(num_map_bytes(m) + rest) == Ok::<(Map<u16, u64>, Seq<u8>), ErrorKind>(
            (m, rest),
        ),
{
    let entries = sorted_entries(m, 0x1_0000);
    let inner = num_entries_bytes(entries);
    lemma_sorted_entries(m, 0x1_0000);
    lemma_num_entries_len(entries);
    assert(num_map_bytes(m) + rest =~= u32_le(inner.len() as u32) + (inner + rest));
    lemma_take_u32(inner.len() as u32, inner + rest);
    lemma_take_num_entries(entries, rest);
    assert(below(m, 0x1_0000) =~= m);
}

/// Pairs take 16 bytes each.
pub proof fn lemma_pairs_len(pairs: Seq<(u64, u64)>)
    ensures
        pairs_bytes(pairs).len() == 16 * pairs.len(),
    decreases pairs.len(),
{
    if pairs.len() > 0 {
        lemma_pairs_len(pairs.drop_first());
    }
}

/// The encoding of pairs with one more at the end is the encoding of the
/// pairs with that of the last behind it.
#[verifier::rlimit(50)]
#[verifier::spinoff_prover]
pub proof fn lemma_pairs_push(pairs: Seq<(u64, u64)>, last: (u64, u64))
    ensures
        pairs_bytes(pairs.push(last)) == pairs_bytes(pairs) + (u64_le(last.0) + u64_le(last.1)),
    decreases pairs.len(),
{
    if pairs.len() == 0 {
        let one = pairs.push(last);
        assert(one.drop_first() =~= Seq::empty());
        assert(one[0] == last);
        assert(pairs_bytes(one.drop_first()) =~= Seq::empty());
        assert(pairs_bytes(pairs) =~= Seq::empty());
        assert(pairs_bytes(one) =~= u64_le(last.0) + u64_le(last.1) + pairs_bytes(one.drop_first()));
        assert(pairs_bytes(pairs.push(last)) =~= pairs_bytes(pairs) + (u64_le(last.0) + u64_le(
            last.1,
        )));
    } else {
        let tail = pairs.drop_first();
        lemma_pairs_push(tail, last);
        let all = pairs.push(last);
        assert(all.drop_first() =~= tail.push(last));
        assert(all[0] == pairs[0]);
        assert(pairs_bytes(all) =~= u64_le(all[0].0) + u64_le(all[0].1) + pairs_bytes(
            all.drop_first(),
        ));
        assert(pairs_bytes(pairs.push(last)) =~= pairs_bytes(pairs) + (u64_le(last.0) + u64_le(
            last.1,
        )));
    }
}

/// Taking pairs that were put, by the count of their bytes, gives them back
/// in their order, with what followed.
#[verifier::rlimit(50)]
#[verifier::spinoff_prover]
pub proof fn lemma_take_pairs(pairs: Seq<(u64, u64)>, rest: Seq<u8>)
    ensures
        take_pairs(pairs_bytes(pairs) + rest, 16 * pairs.len()) == Ok::<
            (Seq<(u64, u64)>, Seq<u8>),
            ErrorKind,
        >((pairs, rest)),
    decreases pairs.len(),
{
    if pairs.len() == 0 {
        assert(pairs_bytes(pairs) + rest =~= rest);
        assert(pairs =~= Seq::empty());
    } else {
        let tail = pairs.drop_first();
        let tail_bytes = pairs_bytes(tail);
        let all = pairs_bytes(pairs) + rest;
        assert(all =~= u64_le(pairs[0].0) + (u64_le(pairs[0].1) + (tail_bytes + rest)));
        lemma_take_u64(pairs[0].0, u64_le(pairs[0].1) + (tail_bytes + rest));
        lemma_take_u64(pairs[0].1, tail_bytes + rest);
        lemma_take_pairs(tail, rest);
        assert(left_of(16 * pairs.len(), 16) == 16 * tail.len());
        assert(seq![pairs[0]] + tail =~= pairs);
    }
}

/// Taking an array of pairs that was put gives it back, with what followed.
#[verifier::rlimit(50)]
#[verifier::spinoff_prover]
pub proof fn lemma_take_pair_array(pairs: Seq<(u64, u64)>, rest: Seq<u8>)
    requires
        16 * pairs.len() <= u32::MAX,
    ensures
        take_pair_array(pair_array_bytes(pairs) + rest) == Ok::<
            (Seq<(u64, u64)>, Seq<u8>),
            ErrorKind,
        >((pairs, rest)),
{
    let inner = pairs_bytes(pairs);
    lemma_pairs_len(pairs);
    assert(pair_array_bytes(pairs) + rest =~= u32_le(inner.len() as u32) + (inner + rest));
    lemma_take_u32(inner.len() as u32, inner + rest);
    lemma_take_pairs(pairs, rest);
}

/// The encoding of string entries with one more at the end is the
/// encoding of the entries with that of the last behind it.
#[verifier::rlimit(50)]
#[verifier::spinoff_prover]
pub proof fn lemma_str_entries_push(entries: Seq<(Seq<char>, Seq<char>)>, last: (Seq<char>, Seq<char>))
    ensures
        str_entries_bytes(entries.push(last)) == str_entries_bytes(entries) + (str_bytes(last.0)
            + str_bytes(last.1)),
    decreases entries.len(),
{
    let all = entries.push(last);
    assert(all[0] == if entries.len() == 0 {
        last
    } else {
        entries[0]
    });
    assert(str_entries_bytes(all) =~= str_bytes(all[0].0) + str_bytes(all[0].1) + str_entries_bytes(
        all.drop_first(),
    ));
    if entries.len() == 0 {
        assert(all.drop_first() =~= Seq::empty());
        assert(str_entries_bytes(all.drop_first()) =~= Seq::empty());
        assert(str_entries_bytes(entries) =~= Seq::empty());
        assert(str_entries_bytes(all) =~= str_entries_bytes(entries) + (str_bytes(last.0) + str_bytes(
            last.1,
        )));
    } else {
        let tail = entries.drop_first();
        lemma_str_entries_push(tail, last);
        assert(all.drop_first() =~= tail.push(last));
        assert(str_entries_bytes(all) =~= str_entries_bytes(entries) + (str_bytes(last.0) + str_bytes(
            last.1,
        )));
    }
}

/// A cursor over the body of one record.
pub struct BodyCursor<'a> {
    data: &'a [u8],
    pos: usize,
}

impl<'a> BodyCursor<'a> {
    /// The bytes from the cursor to the end of the body.
    pub closed spec fn rest(&self) -> Seq<u8> {
        self.data@.skip(self.pos as int)
    }

    /// The cursor lies within the body.
    pub closed spec fn wf(&self) -> bool {
        self.pos <= self.data@.len()
    }

    /// A cursor at the first byte of `data`.
    pub fn new(data: &'a [u8]) -> (r: Self)
        ensures
            r.wf(),
            r.rest() == data@,
    {
        assert(data@.skip(0) =~= data@);
        Self { data, pos: 0 }
    }

    /// The bytes that are left, borrowed for as long as the body lives.
    pub fn rest_slice(&self) -> (r: &'a [u8])
        requires
            self.wf(),
        ensures
            r@ == self.rest(),
    {
        let data: &'a [u8] = self.data;
        let part = slice_subrange(data, self.pos, data.len());
        assert(part@ =~= self.rest());
        part
    }

    /// The number of bytes left.
    pub fn remaining(&self) -> (r: usize)
        requires
            self.wf(),
        ensures
            r == self.rest().len(),
    {
        self.data.len() - self.pos
    }

    /// Takes one byte.
    pub fn take_u8(&mut self) -> (r: Result<u8, PybagError>)
        requires
            old(self).wf(),
        ensures
            final(self).wf(),
            match take_u8(old(self).rest()) {
                Ok((v, rest)) => r is Ok && r->Ok_0 == v && final(self).rest() == rest,
                Err(e) => r is Err && r->Err_0@ == e,
            },
    {
        if self.data.len() - self.pos < 1 {
            return Err(PybagError::UnexpectedEof);
        }
        let v = self.data[self.pos];
        self.pos = self.pos + 1;
        assert(self.rest() =~= old(self).rest().skip(1));
        Ok(v)
    }

    /// Takes a 16-bit number, least significant byte first.
    #[verifier::rlimit(50)]
    pub fn take_u16(&mut self) -> (r: Result<u16, PybagError>)
        requires
            old(self).wf(),
        ensures
            final(self).wf(),
            match take_u16(old(self).rest()) {
                Ok((v, rest)) => r is Ok && r->Ok_0 == v && final(self).rest() == rest,
                Err(e) => r is Err && r->Err_0@ == e,
            },
    {
        if self.data.len() - self.pos < 2 {
            return Err(PybagError::UnexpectedEof);
        }
        let part = slice_subrange(self.data, self.pos, self.pos + 2);
        assert(part@ =~= self.rest().take(2));
        let v = read_u16_le(part);
        self.pos = self.pos + 2;
        assert(self.rest() =~= old(self).rest().skip(2));
        Ok(v)
    }

    /// Takes a 32-bit number, least significant byte first.
    #[verifier::rlimit(50)]
    pub fn take_u32(&mut self) -> (r: Result<u32, PybagError>)
        requires
            old(self).wf(),
        ensures
            final(self).wf(),
            match take_u32(old(self).rest()) {
                Ok((v, rest)) => r is Ok && r->Ok_0 == v && final(self).rest() == rest,
                Err(e) => r is Err && r->Err_0@ == e,
            },
    {
        if self.data.len() - self.pos < 4 {
            return Err(PybagError::UnexpectedEof);
        }
        let part = slice_subrange(self.data, self.pos, self.pos + 4);
        assert(part@ =~= self.rest().take(4));
        let v = read_u32_le(part);
        self.pos = self.pos + 4;
        assert(self.rest() =~= old(self).rest().skip(4));
        Ok(v)
    }

    /// Takes a 64-bit number, least significant byte first.
    #[verifier::rlimit(50)]
    pub fn take_u64(&mut self) -> (r: Result<u64, PybagError>)
        requires
            old(self).wf(),
        ensures
            final(self).wf(),
            match take_u64(old(self).rest()) {
                Ok((v, rest)) => r is Ok && r->Ok_0 == v && final(self).rest() == rest,
                Err(e) => r is Err && r->Err_0@ == e,
            },
    {
        if self.data.len() - self.pos < 8 {
            return Err(PybagError::UnexpectedEof);
        }
        let part = slice_subrange(self.data, self.pos, self.pos + 8);
        assert(part@ =~= self.rest().take(8));
        let v = read_u64_le(part);
        self.pos = self.pos + 8;
        assert(self.rest() =~= old(self).rest().skip(8));
        Ok(v)
    }

    /// The next `n` bytes.
    #[verifier::rlimit(50)]
    pub fn take_bytes(&mut self, n: u64) -> (r: Result<Vec<u8>, PybagError>)
        requires
            old(self).wf(),
        ensures
            final(self).wf(),
            match take_bytes(old(self).rest(), n as int) {
                Ok((v, rest)) => r is Ok && r->Ok_0@ == v && final(self).rest() == rest,
                Err(e) => r is Err && r->Err_0@ == e,
            },
    {
        let left = self.data.len() - self.pos;
        if n > left as u64 {
            return Err(PybagError::UnexpectedEof);
        }
        let count = n as usize;
        let part = slice_subrange(self.data, self.pos, self.pos + count);
        assert(part@ =~= self.rest().take(n as int));
        let out = slice_to_vec(part);
        self.pos = self.pos + count;
        assert(self.rest() =~= old(self).rest().skip(n as int));
        Ok(out)
    }

    /// All the bytes that are left.
    pub fn take_rest(&mut self) -> (r: Vec<u8>)
        requires
            old(self).wf(),
        ensures
            final(self).wf(),
            r@ == old(self).rest(),
            final(self).rest() == Seq::<u8>::empty(),
    {
        let part = slice_subrange(self.data, self.pos, self.data.len());
        assert(part@ =~= self.rest());
        let out = slice_to_vec(part);
        self.pos = self.data.len();
        assert(self.rest() =~= Seq::<u8>::empty());
        out
    }

    /// Takes a byte run with a 32-bit length before it.
    pub fn take_bytes32(&mut self) -> (r: Result<Vec<u8>, PybagError>)
        requires
            old(self).wf(),
        ensures
            final(self).wf(),
            match take_bytes32(old(self).rest()) {
                Ok((v, rest)) => r is Ok && r->Ok_0@ == v && final(self).rest() == rest,
                Err(e) => r is Err && r->Err_0@ == e,
            },
    {
        let n = self.take_u32()?;
        self.take_bytes(n as u64)
    }

    /// Takes a byte run with a 64-bit length before it.
    pub fn take_bytes64(&mut self) -> (r: Result<Vec<u8>, PybagError>)
        requires
            old(self).wf(),
        ensures
            final(self).wf(),
            match take_bytes64(old(self).rest()) {
                Ok((v, rest)) => r is Ok && r->Ok_0@ == v && final(self).rest() == rest,
                Err(e) => r is Err && r->Err_0@ == e,
            },
    {
        let n = self.take_u64()?;
        self.take_bytes(n)
    }

    /// Takes a string: a 32-bit length, then that many bytes of UTF-8.
    pub fn take_str(&mut self) -> (r: Result<String, PybagError>)
        requires
            old(self).wf(),
        ensures
            final(self).wf(),
            match take_str(old(self).rest()) {
                Ok((v, rest)) => r is Ok && r->Ok_0@ == v && final(self).rest() == rest,
                Err(e) => r is Err && r->Err_0@ == e,
            },
    {
        let raw = self.take_bytes32()?;
        match string_from_utf8(raw) {
            Some(s) => Ok(s),
            None => Err(PybagError::InvalidMcap("Invalid UTF-8 string".to_string())),
        }
    }

    /// Takes a map from strings to strings; each key stands once in the
    /// outcome, with the value of its last entry.
    #[verifier::rlimit(50)]
    pub fn take_str_map(&mut self) -> (r: Result<Vec<(String, String)>, PybagError>)
        requires
            old(self).wf(),
        ensures
            final(self).wf(),
            match take_str_map(old(self).rest()) {
                Ok((v, rest)) => r is Ok && pairs_view(r->Ok_0@) == v && final(self).rest() == rest,
                Err(e) => r is Err && r->Err_0@ == e,
            },
    {
        let total = self.take_u32()?;
        let ghost start = self.rest();
        let mut remaining: usize = total as usize;
        let mut out: Vec<(String, String)> = Vec::new();
        assert(pairs_view(out@) =~= Seq::empty());
        while remaining > 0
            invariant
                self.wf(),
                take_u32(old(self).rest()) == Ok::<(u32, Seq<u8>), ErrorKind>((total, start)),
                match take_str_entries(self.rest(), remaining as nat) {
                    Ok((more, end)) => take_str_entries(start, total as nat) == Ok::<
                        (Seq<(Seq<char>, Seq<char>)>, Seq<u8>),
                        ErrorKind,
                    >((pairs_view(out@) + more, end)),
                    Err(e) => take_str_entries(start, total as nat) == Err::<
                        (Seq<(Seq<char>, Seq<char>)>, Seq<u8>),
                        ErrorKind,
                    >(e),
                },
            decreases remaining,
        {
            let ghost before = pairs_view(out@);
            let ghost here = self.rest();
            let at = self.remaining();
            let key = self.take_str()?;
            let value = self.take_str()?;
            let used = at - self.remaining();
            remaining = if used < remaining {
                remaining - used
            } else {
                0
            };
            proof {
                let entry = (key@, value@);
                match take_str_entries(self.rest(), remaining as nat) {
                    Ok((more, end)) => {
                        assert(before + (seq![entry] + more) =~= before.push(entry) + more);
                    },
                    Err(e) => {},
                }
            }
            out.push((key, value));
            assert(pairs_view(out@) =~= before.push((key@, value@)));
        }
        assert(pairs_view(out@) + Seq::empty() =~= pairs_view(out@));
        Ok(merge_entries(&out))
    }

    /// Takes a map from 16-bit keys to 64-bit values; of two entries with
    /// one key the later counts.
    #[verifier::rlimit(50)]
    pub fn take_num_map(&mut self) -> (r: Result<HashMap<u16, u64>, PybagError>)
        requires
            old(self).wf(),
        ensures
            final(self).wf(),
            match take_num_map(old(self).rest()) {
                Ok((v, rest)) => r is Ok && r->Ok_0@ == v && final(self).rest() == rest,
                Err(e) => r is Err && r->Err_0@ == e,
            },
    {
        let total = self.take_u32()?;
        let ghost start = self.rest();
        let mut remaining: u32 = total;
        let mut out: HashMap<u16, u64> = HashMap::new();
        let ghost mut seen: Seq<(u16, u64)> = Seq::empty();
        while remaining > 0
            invariant
                self.wf(),
                take_u32(old(self).rest()) == Ok::<(u32, Seq<u8>), ErrorKind>((total, start)),
                out@ == entries_map(seen),
                match take_num_entries(self.rest(), remaining as nat) {
                    Ok((more, end)) => take_num_entries(start, total as nat) == Ok::<
                        (Seq<(u16, u64)>, Seq<u8>),
                        ErrorKind,
                    >((seen + more, end)),
                    Err(e) => take_num_entries(start, total as nat) == Err::<
                        (Seq<(u16, u64)>, Seq<u8>),
                        ErrorKind,
                    >(e),
                },
            decreases remaining,
        {
            let key = self.take_u16()?;
            let value = self.take_u64()?;
            remaining = if remaining > 10 {
                remaining - 10
            } else {
                0
            };
            proof {
                match take_num_entries(self.rest(), remaining as nat) {
                    Ok((more, end)) => {
                        assert(seen + (seq![(key, value)] + more) =~= seen.push((key, value)) + more);
                    },
                    Err(e) => {},
                }
                assert(seen.push((key, value)).drop_last() =~= seen);
                seen = seen.push((key, value));
            }
            out.insert(key, value);
        }
        assert(seen + Seq::empty() =~= seen);
        Ok(out)
    }

    /// Takes an array of pairs of 64-bit numbers.
    #[verifier::rlimit(50)]
    pub fn take_pair_array(&mut self) -> (r: Result<Vec<(u64, u64)>, PybagError>)
        requires
            old(self).wf(),
        ensures
            final(self).wf(),
            match take_pair_array(old(self).rest()) {
                Ok((v, rest)) => r is Ok && r->Ok_0@ == v && final(self).rest() == rest,
                Err(e) => r is Err && r->Err_0@ == e,
            },
    {
        let total = self.take_u32()?;
        let ghost start = self.rest();
        let mut remaining: u32 = total;
        let mut out: Vec<(u64, u64)> = Vec::new();
        while remaining > 0
            invariant
                self.wf(),
                take_u32(old(self).rest()) == Ok::<(u32, Seq<u8>), ErrorKind>((total, start)),
                match take_pairs(self.rest(), remaining as nat) {
                    Ok((more, end)) => take_pairs(start, total as nat) == Ok::<
                        (Seq<(u64, u64)>, Seq<u8>),
                        ErrorKind,
                    >((out@ + more, end)),
                    Err(e) => take_pairs(start, total as nat) == Err::<
                        (Seq<(u64, u64)>, Seq<u8>),
                        ErrorKind,
                    >(e),
                },
            decreases remaining,
        {
            let ghost before = out@;
            let first = self.take_u64()?;
            let second = self.take_u64()?;
            remaining = if remaining > 16 {
                remaining - 16
            } else {
                0
            };
            proof {
                match take_pairs(self.rest(), remaining as nat) {
                    Ok((more, end)) => {
                        assert(before + (seq![(first, second)] + more) =~= before.push((first, second))
                            + more);
                    },
                    Err(e) => {},
                }
            }
            out.push((first, second));
        }
        assert(out@ + Seq::empty() =~= out@);
        Ok(out)
    }
}

/// Appends the encoding of a string.
pub fn put_str(buf: &mut Vec<u8>, s: &str)
    requires
        encode_utf8(s@).len() <= u32::MAX,
    ensures
        final(buf)@ == old(buf)@ + str_bytes(s@),
{
    let bytes = s.as_bytes();
    put_u32_le(buf, bytes.len() as u32);
    buf.extend_from_slice(bytes);
    assert(buf@ =~= old(buf)@ + str_bytes(s@));
}

/// Appends a byte run with its 32-bit length.
pub fn put_bytes32(buf: &mut Vec<u8>, b: &[u8])
    requires
        b@.len() <= u32::MAX,
    ensures
        final(buf)@ == old(buf)@ + bytes32(b@),
{
    put_u32_le(buf, b.len() as u32);
    buf.extend_from_slice(b);
    assert(buf@ =~= old(buf)@ + bytes32(b@));
}

/// Appends a byte run with its 64-bit length.
pub fn put_bytes64(buf: &mut Vec<u8>, b: &[u8])
    ensures
        final(buf)@ == old(buf)@ + bytes64(b@),
{
    put_u64_le(buf, b.len() as u64);
    buf.extend_from_slice(b);
    assert(buf@ =~= old(buf)@ + bytes64(b@));
}

/// Puts the entry among `out`: in the place of the entry with the same
/// key, if there is one, else behind all.
fn put_entry(out: &mut Vec<(String, String)>, key: String, value: String)
    ensures
        pairs_view(final(out)@) == with_entry(pairs_view(old(out)@), (key@, value@)),
{
    let ghost before = pairs_view(out@);
    let ghost entry = (key@, value@);
    let mut i: usize = 0;
    while i < out.len()
        invariant
            i <= out.len(),
            out@ == old(out)@,
            before == pairs_view(out@),
            entry == (key@, value@),
            key_place(before, key@, 0) == key_place(before, key@, i as int),
        decreases out.len() - i,
    {
        assert(before[i as int] == (out@[i as int].0@, out@[i as int].1@));
        if same_text(out[i].0.as_str(), key.as_str()) {
            out.set(i, (key, value));
            assert(pairs_view(out@) =~= before.update(i as int, entry));
            return ;
        }
        i += 1;
    }
    out.push((key, value));
    assert(pairs_view(out@) =~= before.push(entry));
}

/// The map that the entries make: each key once, with the value of its
/// last entry.
pub fn merge_entries(entries: &Vec<(String, String)>) -> (r: Vec<(String, String)>)
    ensures
        pairs_view(r@) == merged(pairs_view(entries@)),
{
    let ghost view = pairs_view(entries@);
    let mut out: Vec<(String, String)> = Vec::new();
    let mut i: usize = 0;
    assert(view.take(0) =~= Seq::empty());
    assert(pairs_view(out@) =~= Seq::empty());
    while i < entries.len()
        invariant
            i <= entries.len(),
            view == pairs_view(entries@),
            pairs_view(out@) == merged(view.take(i as int)),
        decreases entries.len() - i,
    {
        assert(view.take(i + 1).drop_last() =~= view.take(i as int));
        assert(view.take(i + 1).last() == (entries@[i as int].0@, entries@[i as int].1@));
        put_entry(&mut out, entries[i].0.clone(), entries[i].1.clone());
        i += 1;
    }
    assert(view.take(entries.len() as int) =~= view);
    out
}

/// Whether no key occurs twice among the entries.
pub fn keys_differ(entries: &Vec<(String, String)>) -> (r: bool)
    ensures
        r == keys_distinct(pairs_view(entries@)),
{
    let ghost view = pairs_view(entries@);
    let mut j: usize = 0;
    while j < entries.len()
        invariant
            j <= entries.len(),
            view == pairs_view(entries@),
            forall|a: int, b: int| 0 <= a < b < j ==> (#[trigger] view[a]).0 != (#[trigger] view[b]).0,
        decreases entries.len() - j,
    {
        let mut i: usize = 0;
        while i < j
            invariant
                i <= j < entries.len(),
                view == pairs_view(entries@),
                forall|a: int| 0 <= a < i ==> (#[trigger] view[a]).0 != view[j as int].0,
            decreases j - i,
        {
            assert(view[i as int] == (entries@[i as int].0@, entries@[i as int].1@));
            assert(view[j as int] == (entries@[j as int].0@, entries@[j as int].1@));
            if same_text(entries[i].0.as_str(), entries[j].0.as_str()) {
                return false;
            }
            i += 1;
        }
        j += 1;
    }
    true
}

/// Whether the entries are a map that can be encoded: no key twice, and
/// each string, and all of them together, within a 32-bit count of bytes.
#[verifier::rlimit(50)]
pub fn str_map_fits(entries: &Vec<(String, String)>) -> (r: bool)
    ensures
        r == str_entries_fit(pairs_view(entries@)),
{
    if !keys_differ(entries) {
        return false;
    }
    let mut total: u64 = 0;
    let mut i: usize = 0;
    let ghost view = pairs_view(entries@);
    assert(view.take(0) =~= Seq::empty());
    while i < entries.len()
        invariant
            i <= entries.len(),
            view == pairs_view(entries@),
            total == str_entries_bytes(view.take(i as int)).len(),
            total <= u32::MAX,
            forall|j: int|
                #![trigger view[j]]
                0 <= j < i ==> encode_utf8(view[j].0).len() <= u32::MAX && encode_utf8(
                    view[j].1,
                ).len() <= u32::MAX,
        decreases entries.len() - i,
    {
        let key_len = entries[i].0.as_str().as_bytes().len();
        let value_len = entries[i].1.as_str().as_bytes().len();
        proof {
            lemma_str_entries_push(view.take(i as int), view[i as int]);
            assert(view.take(i as int).push(view[i as int]) =~= view.take(i + 1));
            lemma_str_entries_monotone(view, i + 1);
        }
        if key_len > 0xffff_ffff || value_len > 0xffff_ffff {
            return false;
        }
        let entry_len = 8 + key_len as u64 + value_len as u64;
        if entry_len > 0xffff_ffff - total {
            return false;
        }
        total = total + entry_len;
        assert(view[i as int] == (entries@[i as int].0@, entries@[i as int].1@));
        assert(encode_utf8(view[i as int].0).len() <= u32::MAX);
        assert(encode_utf8(view[i as int].1).len() <= u32::MAX);
        i += 1;
    }
    assert(view.take(entries.len() as int) =~= view);
    true
}

/// The encoding of the first entries is no longer than that of all.
#[verifier::rlimit(50)]
pub proof fn lemma_str_entries_monotone(entries: Seq<(Seq<char>, Seq<char>)>, n: int)
    requires
        0 <= n <= entries.len(),
    ensures
        str_entries_bytes(entries.take(n)).len() <= str_entries_bytes(entries).len(),
    decreases entries.len() - n,
{
    if n < entries.len() {
        lemma_str_entries_monotone(entries, n + 1);
        lemma_str_entries_push(entries.take(n), entries[n]);
        assert(entries.take(n).push(entries[n]) =~= entries.take(n + 1));
    } else {
        assert(entries.take(n) =~= entries);
    }
}

/// Appends the encoding of a map from strings to strings.
#[verifier::rlimit(50)]
pub fn put_str_map(buf: &mut Vec<u8>, entries: &Vec<(String, String)>)
    requires
        str_entries_fit(pairs_view(entries@)),
    ensures
        final(buf)@ == old(buf)@ + str_map_bytes(pairs_view(entries@)),
{
    let mut content: Vec<u8> = Vec::new();
    let mut i: usize = 0;
    let ghost view = pairs_view(entries@);
    assert(view.take(0) =~= Seq::empty());
    while i < entries.len()
        invariant
            i <= entries.len(),
            view == pairs_view(entries@),
            str_entries_fit(view),
            content@ == str_entries_bytes(view.take(i as int)),
        decreases entries.len() - i,
    {
        proof {
            lemma_str_entries_push(view.take(i as int), view[i as int]);
            assert(view.take(i as int).push(view[i as int]) =~= view.take(i + 1));
        }
        put_str(&mut content, entries[i].0.as_str());
        put_str(&mut content, entries[i].1.as_str());
        assert(content@ =~= str_entries_bytes(view.take(i + 1)));
        i += 1;
    }
    assert(view.take(entries.len() as int) =~= view);
    put_bytes32(buf, content.as_slice());
}

/// Appends the encoding of a map from 16-bit keys to 64-bit values.
#[verifier::rlimit(50)]
pub fn put_num_map(buf: &mut Vec<u8>, m: &HashMap<u16, u64>)
    ensures
        final(buf)@ == old(buf)@ + num_map_bytes(m@),
{
    let mut content: Vec<u8> = Vec::new();
    if !m.is_empty() {
        let mut key: u32 = 0;
        while key < 0x1_0000
            invariant
                key <= 0x1_0000,
                content@ == num_entries_bytes(sorted_entries(m@, key as int)),
            decreases 0x1_0000 - key,
        {
            let k = key as u16;
            proof {
                if m@.contains_key(k) {
                    lemma_num_entries_push(sorted_entries(m@, key as int), (k, m@[k]));
                }
            }
            match m.get(&k) {
                Some(v) => {
                    put_u16_le(&mut content, k);
                    put_u64_le(&mut content, *v);
                    assert(content@ =~= num_entries_bytes(sorted_entries(m@, key + 1)));
                },
                None => {},
            }
            key += 1;
        }
    } else {
        proof {
            lemma_sorted_entries_of_empty(m@, 0x1_0000);
        }
    }
    proof {
        lemma_sorted_entries(m@, 0x1_0000);
        lemma_num_entries_len(sorted_entries(m@, 0x1_0000));
    }
    put_bytes32(buf, content.as_slice());
}

/// A map without keys has no entries.
#[verifier::rlimit(50)]
pub proof fn lemma_sorted_entries_of_empty(m: Map<u16, u64>, upto: int)
    requires
        m.dom().len() == 0,
        m.dom().finite(),
    ensures
        sorted_entries(m, upto) == Seq::<(u16, u64)>::empty(),
    decreases upto,
{
    if upto > 0 {
        lemma_sorted_entries_of_empty(m, upto - 1);
        if m.contains_key((upto - 1) as u16) {
            assert(m.dom().contains((upto - 1) as u16));
            vstd::set_lib::lemma_set_empty_equivalency_len(m.dom());
        }
    }
}

/// Appends the encoding of an array of pairs.
#[verifier::rlimit(50)]
pub fn put_pair_array(buf: &mut Vec<u8>, pairs: &Vec<(u64, u64)>)
    requires
        16 * pairs@.len() <= u32::MAX,
    ensures
        final(buf)@ == old(buf)@ + pair_array_bytes(pairs@),
{
    let mut content: Vec<u8> = Vec::new();
    let mut i: usize = 0;
    assert(pairs@.take(0) =~= Seq::empty());
    while i < pairs.len()
        invariant
            i <= pairs.len(),
            content@ == pairs_bytes(pairs@.take(i as int)),
        decreases pairs.len() - i,
    {
        proof {
            lemma_pairs_push(pairs@.take(i as int), pairs@[i as int]);
            assert(pairs@.take(i as int).push(pairs@[i as int]) =~= pairs@.take(i + 1));
        }
        put_u64_le(&mut content, pairs[i].0);
        put_u64_le(&mut content, pairs[i].1);
        assert(content@ =~= pairs_bytes(pairs@.take(i + 1)));
        i += 1;
    }
    assert(pairs@.take(pairs.len() as int) =~= pairs@);
    proof {
        lemma_pairs_len(pairs@);
    }
    put_bytes32(buf, content.as_slice());
}

} // verus!
