//! Binary persistence: a self-contained encoding of the order and the whole
//! table, and its decoder, with a round-trip proof.
//!
//! The layout is little-endian and length-prefixed: the order as eight
//! bytes, the entry count as eight bytes, then each entry as its context's
//! `order` tokens, its pair count as eight bytes, and its pairs; a pair is a
//! token followed by its count as eight bytes; a token is its byte length as
//! eight bytes followed by its UTF-8 bytes.

use vstd::prelude::*;
use vstd::utf8::{decode_utf8, encode_utf8, encode_utf8_decode_utf8, encode_utf8_valid_utf8, valid_utf8};

use crate::chain::{Entry, MarkovChain};
use crate::model::{table_wf, CtxView, RowView, TableView};

verus! {

/// The failure of `load`: the bytes do not decode as a valid chain.
#[derive(Debug, PartialEq, Eq)]
pub struct DecodeError;

/// The eight little-endian bytes of a 64-bit value.
pub open spec fn le_bytes(n: u64) -> Seq<u8> {
    seq![
        (n & 0xff) as u8,
        ((n >> 8) & 0xff) as u8,
        ((n >> 16) & 0xff) as u8,
        ((n >> 24) & 0xff) as u8,
        ((n >> 32) & 0xff) as u8,
        ((n >> 40) & 0xff) as u8,
        ((n >> 48) & 0xff) as u8,
        ((n >> 56) & 0xff) as u8,
    ]
}

/// The 64-bit value of eight little-endian bytes.
pub open spec fn le_val(
    b0: u8,
    b1: u8,
    b2: u8,
    b3: u8,
    b4: u8,
    b5: u8,
    b6: u8,
    b7: u8,
) -> u64 {
    (b0 as u64) | (b1 as u64) << 8 | (b2 as u64) << 16 | (b3 as u64) << 24 | (b4 as u64) << 32 | (
    b5 as u64) << 40 | (b6 as u64) << 48 | (b7 as u64) << 56
}

/// The 64-bit value stored at position `p`.
pub open spec fn spec_read_u64(b: Seq<u8>, p: int) -> u64 {
    le_val(b[p], b[p + 1], b[p + 2], b[p + 3], b[p + 4], b[p + 5], b[p + 6], b[p + 7])
}

/// Eight little-endian bytes read back give the value they were made from.
pub proof fn lemma_le_round_trip(n: u64)
    ensures
        le_val(
            (n & 0xff) as u8,
            ((n >> 8) & 0xff) as u8,
            ((n >> 16) & 0xff) as u8,
            ((n >> 24) & 0xff) as u8,
            ((n >> 32) & 0xff) as u8,
            ((n >> 40) & 0xff) as u8,
            ((n >> 48) & 0xff) as u8,
            ((n >> 56) & 0xff) as u8,
        ) == n,
{
    assert(((n & 0xff) as u8) as u64 | ((((n >> 8) & 0xff) as u8) as u64) << 8 | ((((n >> 16)
        & 0xff) as u8) as u64) << 16 | ((((n >> 24) & 0xff) as u8) as u64) << 24 | ((((n >> 32)
        & 0xff) as u8) as u64) << 32 | ((((n >> 40) & 0xff) as u8) as u64) << 40 | ((((n >> 48)
        & 0xff) as u8) as u64) << 48 | ((((n >> 56) & 0xff) as u8) as u64) << 56 == n)
        by (bit_vector);
}

/// A value at the seam of a concatenation reads back unchanged.
pub proof fn lemma_read_at(prefix: Seq<u8>, n: u64, rest: Seq<u8>)
    ensures
        spec_read_u64(prefix + le_bytes(n) + rest, prefix.len() as int) == n,
{
    let b = prefix + le_bytes(n) + rest;
    let p = prefix.len() as int;
    assert(b[p] == le_bytes(n)[0]);
    assert(b[p + 1] == le_bytes(n)[1]);
    assert(b[p + 2] == le_bytes(n)[2]);
    assert(b[p + 3] == le_bytes(n)[3]);
    assert(b[p + 4] == le_bytes(n)[4]);
    assert(b[p + 5] == le_bytes(n)[5]);
    assert(b[p + 6] == le_bytes(n)[6]);
    assert(b[p + 7] == le_bytes(n)[7]);
    lemma_le_round_trip(n);
}

/// Appends the eight little-endian bytes of `n`.
fn push_u64(out: &mut Vec<u8>, n: u64)
    ensures
        final(out)@ == old(out)@ + le_bytes(n),
{
    proof {
        assert((n & 0xff) < 256 && ((n >> 8) & 0xff) < 256 && ((n >> 16) & 0xff) < 256 && ((n
            >> 24) & 0xff) < 256 && ((n >> 32) & 0xff) < 256 && ((n >> 40) & 0xff) < 256 && ((n
            >> 48) & 0xff) < 256 && ((n >> 56) & 0xff) < 256) by (bit_vector);
    }
    out.push((n & 0xff) as u8);
    out.push(((n >> 8) & 0xff) as u8);
    out.push(((n >> 16) & 0xff) as u8);
    out.push(((n >> 24) & 0xff) as u8);
    out.push(((n >> 32) & 0xff) as u8);
    out.push(((n >> 40) & 0xff) as u8);
    out.push(((n >> 48) & 0xff) as u8);
    out.push(((n >> 56) & 0xff) as u8);
    proof {
        assert(out@ =~= old(out)@ + le_bytes(n));
    }
}

/// The 64-bit value at `p`, when eight bytes are there.
pub open spec fn parse_u64(b: Seq<u8>, p: int) -> Option<(u64, int)> {
    if 0 <= p && p + 8 <= b.len() {
        Some((spec_read_u64(b, p), p + 8))
    } else {
        None
    }
}

/// A token's encoding: its UTF-8 byte length, then its UTF-8 bytes.
pub open spec fn enc_token(t: Seq<char>) -> Seq<u8> {
    le_bytes(encode_utf8(t).len() as u64) + encode_utf8(t)
}

/// The token at `p`: a byte length, then that many bytes of valid UTF-8.
pub open spec fn parse_token(b: Seq<u8>, p: int) -> Option<(Seq<char>, int)> {
    match parse_u64(b, p) {
        Some((n, q)) => {
            if n as int <= b.len() - q && valid_utf8(b.subrange(q, q + n as int)) {
                Some((decode_utf8(b.subrange(q, q + n as int)), q + n as int))
            } else {
                None
            }
        },
        None => None,
    }
}

/// An encoded token at the seam of a concatenation parses back unchanged.
pub proof fn lemma_parse_token_at(prefix: Seq<u8>, t: Seq<char>, rest: Seq<u8>)
    requires
        encode_utf8(t).len() <= u64::MAX,
    ensures
        parse_token(prefix + enc_token(t) + rest, prefix.len() as int) == Some(
            (t, prefix.len() + enc_token(t).len() as int),
        ),
{
    let u = encode_utf8(t);
    let b = prefix + enc_token(t) + rest;
    let p = prefix.len() as int;
    assert(b =~= prefix + le_bytes(u.len() as u64) + (u + rest));
    lemma_read_at(prefix, u.len() as u64, u + rest);
    assert(parse_u64(b, p) == Some((u.len() as u64, p + 8)));
    assert(b.subrange(p + 8, p + 8 + u.len()) =~= u);
    encode_utf8_valid_utf8(t);
    encode_utf8_decode_utf8(t);
}

/// Whether a token's UTF-8 form is short enough for its length prefix.
pub open spec fn token_fits(t: Seq<char>) -> bool {
    encode_utf8(t).len() <= u64::MAX
}

/// A context's encoding: its tokens, one after the other.
pub open spec fn enc_ctx(c: CtxView) -> Seq<u8>
    decreases c.len(),
{
    if c.len() == 0 {
        Seq::empty()
    } else {
        enc_token(c[0]) + enc_ctx(c.drop_first())
    }
}

/// The run of `k` tokens at `p`.
pub open spec fn parse_ctx(b: Seq<u8>, p: int, k: nat) -> Option<(CtxView, int)>
    decreases k,
{
    if k == 0 {
        Some((Seq::empty(), p))
    } else {
        match parse_token(b, p) {
            Some((t, q)) => {
                match parse_ctx(b, q, (k - 1) as nat) {
                    Some((c, p2)) => Some((seq![t] + c, p2)),
                    None => None,
                }
            },
            None => None,
        }
    }
}

/// An encoded context at the seam of a concatenation parses back unchanged.
pub proof fn lemma_parse_ctx_at(prefix: Seq<u8>, c: CtxView, rest: Seq<u8>)
    requires
        forall|i: int| 0 <= i < c.len() ==> token_fits(#[trigger] c[i]),
    ensures
        parse_ctx(prefix + enc_ctx(c) + rest, prefix.len() as int, c.len()) == Some(
            (c, prefix.len() + enc_ctx(c).len() as int),
        ),
    decreases c.len(),
{
    let b = prefix + enc_ctx(c) + rest;
    if c.len() == 0 {
        assert(c =~= Seq::<Seq<char>>::empty());
        assert(enc_ctx(c).len() == 0);
    } else {
        let t = c[0];
        let c1 = c.drop_first();
        assert(b =~= prefix + enc_token(t) + (enc_ctx(c1) + rest));
        lemma_parse_token_at(prefix, t, enc_ctx(c1) + rest);
        let p1 = prefix + enc_token(t);
        assert(forall|i: int| 0 <= i < c1.len() ==> token_fits(#[trigger] c1[i]));
        lemma_parse_ctx_at(p1, c1, rest);
        assert(p1 + enc_ctx(c1) + rest =~= b);
        assert(seq![t] + c1 =~= c);
        assert(enc_ctx(c) == enc_token(t) + enc_ctx(c1));
    }
}

/// A pair's encoding: its token, then its count.
pub open spec fn enc_pair(t: Seq<char>, c: u32) -> Seq<u8> {
    enc_token(t) + le_bytes(c as u64)
}

/// The pair at `p`: a token, then a count between one and `u32::MAX`.
pub open spec fn parse_pair(b: Seq<u8>, p: int) -> Option<((Seq<char>, u32), int)> {
    match parse_token(b, p) {
        Some((t, q)) => {
            match parse_u64(b, q) {
                Some((c, p2)) => {
                    if 1 <= c <= u32::MAX {
                        Some(((t, c as u32), p2))
                    } else {
                        None
                    }
                },
                None => None,
            }
        },
        None => None,
    }
}

/// An encoded pair at the seam of a concatenation parses back unchanged.
pub proof fn lemma_parse_pair_at(prefix: Seq<u8>, t: Seq<char>, c: u32, rest: Seq<u8>)
    requires
        token_fits(t),
        c >= 1,
    ensures
        parse_pair(prefix + enc_pair(t, c) + rest, prefix.len() as int) == Some(
            ((t, c), prefix.len() + enc_pair(t, c).len() as int),
        ),
{
    let b = prefix + enc_pair(t, c) + rest;
    assert(b =~= prefix + enc_token(t) + (le_bytes(c as u64) + rest));
    lemma_parse_token_at(prefix, t, le_bytes(c as u64) + rest);
    let p1 = prefix + enc_token(t);
    assert(p1 + le_bytes(c as u64) + rest =~= b);
    lemma_read_at(p1, c as u64, rest);
}

/// The encodings of a row's pairs, one after the other.
pub open spec fn enc_pairs(r: RowView) -> Seq<u8>
    decreases r.len(),
{
    if r.len() == 0 {
        Seq::empty()
    } else {
        enc_pair(r[0].0, r[0].1) + enc_pairs(r.drop_first())
    }
}

/// A row's encoding: its pair count, then its pairs.
pub open spec fn enc_row(r: RowView) -> Seq<u8> {
    le_bytes(r.len() as u64) + enc_pairs(r)
}

/// The run of `k` pairs at `p`.
pub open spec fn parse_pairs(b: Seq<u8>, p: int, k: nat) -> Option<(RowView, int)>
    decreases k,
{
    if k == 0 {
        Some((Seq::empty(), p))
    } else {
        match parse_pair(b, p) {
            Some((e, q)) => {
                match parse_pairs(b, q, (k - 1) as nat) {
                    Some((r, p2)) => Some((seq![e] + r, p2)),
                    None => None,
                }
            },
            None => None,
        }
    }
}

/// The row at `p`: a pair count, then that many pairs.
pub open spec fn parse_row(b: Seq<u8>, p: int) -> Option<(RowView, int)> {
    match parse_u64(b, p) {
        Some((m, q)) => parse_pairs(b, q, m as nat),
        None => None,
    }
}

/// Encoded pairs at the seam of a concatenation parse back unchanged.
#[verifier::rlimit(60)]
pub proof fn lemma_parse_pairs_at(prefix: Seq<u8>, r: RowView, rest: Seq<u8>)
    requires
        forall|j: int| 0 <= j < r.len() ==> token_fits((#[trigger] r[j]).0),
        forall|j: int| 0 <= j < r.len() ==> (#[trigger] r[j]).1 >= 1,
    ensures
        parse_pairs(prefix + enc_pairs(r) + rest, prefix.len() as int, r.len()) == Some(
            (r, prefix.len() + enc_pairs(r).len() as int),
        ),
    decreases r.len(),
{
    let b = prefix + enc_pairs(r) + rest;
    if r.len() == 0 {
        assert(r =~= Seq::<(Seq<char>, u32)>::empty());
        assert(enc_pairs(r).len() == 0);
    } else {
        let e = r[0];
        let r1 = r.drop_first();
        assert(b =~= prefix + enc_pair(e.0, e.1) + (enc_pairs(r1) + rest));
        lemma_parse_pair_at(prefix, e.0, e.1, enc_pairs(r1) + rest);
        let p1 = prefix + enc_pair(e.0, e.1);
        assert(forall|j: int| 0 <= j < r1.len() ==> token_fits((#[trigger] r1[j]).0));
        assert(forall|j: int| 0 <= j < r1.len() ==> (#[trigger] r1[j]).1 >= 1);
        lemma_parse_pairs_at(p1, r1, rest);
        assert(p1 + enc_pairs(r1) + rest =~= b);
        assert(seq![e] + r1 =~= r);
        assert((e.0, e.1) == e);
        assert(enc_pairs(r) == enc_pair(e.0, e.1) + enc_pairs(r1));
    }
}

/// An encoded row at the seam of a concatenation parses back unchanged.
#[verifier::rlimit(60)]
pub proof fn lemma_parse_row_at(prefix: Seq<u8>, r: RowView, rest: Seq<u8>)
    requires
        r.len() <= u64::MAX,
        forall|j: int| 0 <= j < r.len() ==> token_fits((#[trigger] r[j]).0),
        forall|j: int| 0 <= j < r.len() ==> (#[trigger] r[j]).1 >= 1,
    ensures
        parse_row(prefix + enc_row(r) + rest, prefix.len() as int) == Some(
            (r, prefix.len() + enc_row(r).len() as int),
        ),
{
    let b = prefix + enc_row(r) + rest;
    assert(b =~= prefix + le_bytes(r.len() as u64) + (enc_pairs(r) + rest));
    lemma_read_at(prefix, r.len() as u64, enc_pairs(r) + rest);
    let p1 = prefix + le_bytes(r.len() as u64);
    lemma_parse_pairs_at(p1, r, rest);
    assert(p1 + enc_pairs(r) + rest =~= b);
}

/// An entry's encoding: its context, then its row.
pub open spec fn enc_entry(e: (CtxView, RowView)) -> Seq<u8> {
    enc_ctx(e.0) + enc_row(e.1)
}

/// The entry at `p`: a context of `order` tokens, then a row.
pub open spec fn parse_entry(b: Seq<u8>, p: int, order: nat) -> Option<((CtxView, RowView), int)> {
    match parse_ctx(b, p, order) {
        Some((c, q)) => {
            match parse_row(b, q) {
                Some((r, p2)) => Some(((c, r), p2)),
                None => None,
            }
        },
        None => None,
    }
}

/// The encodings of a table's entries, one after the other.
pub open spec fn enc_entries(t: TableView) -> Seq<u8>
    decreases t.len(),
{
    if t.len() == 0 {
        Seq::empty()
    } else {
        enc_entry(t[0]) + enc_entries(t.drop_first())
    }
}

/// The run of `k` entries at `p`, each with a context of `order` tokens.
pub open spec fn parse_entries(b: Seq<u8>, p: int, order: nat, k: nat) -> Option<(TableView, int)>
    decreases k,
{
    if k == 0 {
        Some((Seq::empty(), p))
    } else {
        match parse_entry(b, p, order) {
            Some((e, q)) => {
                match parse_entries(b, q, order, (k - 1) as nat) {
                    Some((t, p2)) => Some((seq![e] + t, p2)),
                    None => None,
                }
            },
            None => None,
        }
    }
}

/// Whether a table's tokens and lengths all fit their length prefixes. Any
/// table held in memory does.
pub open spec fn entry_encodable(e: (CtxView, RowView)) -> bool {
    &&& forall|i: int| 0 <= i < e.0.len() ==> token_fits(#[trigger] e.0[i])
    &&& e.1.len() <= u64::MAX
    &&& forall|j: int| 0 <= j < e.1.len() ==> token_fits((#[trigger] e.1[j]).0)
}

/// Whether a whole model fits the encoding's length prefixes.
pub open spec fn encodable(order: nat, t: TableView) -> bool {
    &&& order <= usize::MAX
    &&& t.len() <= u64::MAX
    &&& forall|i: int| 0 <= i < t.len() ==> entry_encodable(#[trigger] t[i])
}

/// An encoded entry at the seam of a concatenation parses back unchanged.
pub proof fn lemma_parse_entry_at(prefix: Seq<u8>, e: (CtxView, RowView), rest: Seq<u8>, order: nat)
    requires
        entry_encodable(e),
        e.0.len() == order,
        forall|j: int| 0 <= j < e.1.len() ==> (#[trigger] e.1[j]).1 >= 1,
    ensures
        parse_entry(prefix + enc_entry(e) + rest, prefix.len() as int, order) == Some(
            (e, prefix.len() + enc_entry(e).len() as int),
        ),
{
    let b = prefix + enc_entry(e) + rest;
    assert(b =~= prefix + enc_ctx(e.0) + (enc_row(e.1) + rest));
    lemma_parse_ctx_at(prefix, e.0, enc_row(e.1) + rest);
    let p1 = prefix + enc_ctx(e.0);
    lemma_parse_row_at(p1, e.1, rest);
    assert(p1 + enc_row(e.1) + rest =~= b);
    assert((e.0, e.1) == e);
}

/// Encoded entries at the seam of a concatenation parse back unchanged.
pub proof fn lemma_parse_entries_at(prefix: Seq<u8>, t: TableView, rest: Seq<u8>, order: nat)
    requires
        forall|i: int| 0 <= i < t.len() ==> entry_encodable(#[trigger] t[i]),
        forall|i: int| 0 <= i < t.len() ==> (#[trigger] t[i]).0.len() == order,
        forall|i: int, j: int|
            0 <= i < t.len() && 0 <= j < t[i].1.len() ==> (#[trigger] t[i].1[j]).1 >= 1,
    ensures
        parse_entries(prefix + enc_entries(t) + rest, prefix.len() as int, order, t.len()) == Some(
            (t, prefix.len() + enc_entries(t).len() as int),
        ),
    decreases t.len(),
{
    let b = prefix + enc_entries(t) + rest;
    if t.len() == 0 {
        assert(t =~= Seq::<(CtxView, RowView)>::empty());
        assert(enc_entries(t).len() == 0);
    } else {
        let e = t[0];
        let t1 = t.drop_first();
        assert(b =~= prefix + enc_entry(e) + (enc_entries(t1) + rest));
        assert(forall|j: int| 0 <= j < e.1.len() ==> (#[trigger] e.1[j]).1 >= 1);
        lemma_parse_entry_at(prefix, e, enc_entries(t1) + rest, order);
        let p1 = prefix + enc_entry(e);
        assert(forall|i: int| 0 <= i < t1.len() ==> entry_encodable(#[trigger] t1[i]));
        assert(forall|i: int| 0 <= i < t1.len() ==> (#[trigger] t1[i]).0.len() == order);
        assert forall|i: int, j: int|
            0 <= i < t1.len() && 0 <= j < t1[i].1.len() implies (#[trigger] t1[i].1[j]).1 >= 1 by {
            assert(t[i + 1].1[j].1 >= 1);
        }
        lemma_parse_entries_at(p1, t1, rest, order);
        assert(p1 + enc_entries(t1) + rest =~= b);
        assert(seq![e] + t1 =~= t);
        assert(enc_entries(t) == enc_entry(e) + enc_entries(t1));
    }
}

/// A whole model's encoding: the order, the entry count, the entries.
pub open spec fn spec_encode(order: nat, t: TableView) -> Seq<u8> {
    le_bytes(order as u64) + le_bytes(t.len() as u64) + enc_entries(t)
}

/// What a byte sequence decodes to, if anything: an order of at least one, an
/// entry count, that many entries filling the bytes exactly, the whole
/// forming a well-formed table.
pub open spec fn spec_decode(b: Seq<u8>) -> Option<(nat, TableView)> {
    match parse_u64(b, 0) {
        Some((ov, p1)) => {
            if 1 <= ov && ov <= usize::MAX as u64 {
                match parse_u64(b, p1) {
                    Some((n, p2)) => {
                        match parse_entries(b, p2, ov as nat, n as nat) {
                            Some((t, p3)) => {
                                if p3 == b.len() && table_wf(t, ov as nat) {
                                    Some((ov as nat, t))
                                } else {
                                    None
                                }
                            },
                            None => None,
                        }
                    },
                    None => None,
                }
            } else {
                None
            }
        },
        None => None,
    }
}

/// The round-trip law: decoding an encoded well-formed model gives that model
/// back exactly — the same order, the same contexts, the same counts, in the
/// same order.
pub proof fn lemma_round_trip(order: nat, table: TableView)
    requires
        crate::model::parts_wf(order, table),
        encodable(order, table),
    ensures
        spec_decode(spec_encode(order, table)) == Some((order, table)),
{
    let b = spec_encode(order, table);
    let h1 = le_bytes(order as u64);
    let h2 = le_bytes(table.len() as u64);
    assert(b =~= Seq::<u8>::empty() + h1 + (h2 + enc_entries(table)));
    lemma_read_at(Seq::<u8>::empty(), order as u64, h2 + enc_entries(table));
    assert(parse_u64(b, 0) == Some((order as u64, 8int)));
    assert(b =~= h1 + h2 + enc_entries(table));
    lemma_read_at(h1, table.len() as u64, enc_entries(table));
    assert(parse_u64(b, 8) == Some((table.len() as u64, 16int)));
    let pfx = h1 + h2;
    assert forall|i: int, j: int|
        0 <= i < table.len() && 0 <= j < table[i].1.len() implies (#[trigger] table[i].1[j]).1
        >= 1 by {
        assert(crate::model::row_wf(table[i].1));
    }
    lemma_parse_entries_at(pfx, table, Seq::<u8>::empty(), order);
    assert(pfx + enc_entries(table) + Seq::<u8>::empty() =~= b);
    assert(parse_entries(b, 16, order, table.len()) == Some(
        (table, 16 + enc_entries(table).len() as int),
    ));
    assert(b.len() == 16 + enc_entries(table).len());
}

/// Relies on std's `String::from_utf8`: it returns the string decoded from
/// the given bytes exactly when they are valid UTF-8.
#[verifier::external_body]
fn string_from_utf8(bytes: Vec<u8>) -> (r: Option<String>)
    ensures
        (r is Some) <==> valid_utf8(bytes@),
        r is Some ==> r->0@ == decode_utf8(bytes@),
{
    String::from_utf8(bytes).ok()
}

/// Appends a whole byte slice.
fn push_bytes(out: &mut Vec<u8>, bs: &[u8])
    ensures
        final(out)@ == old(out)@ + bs@,
{
    let mut i: usize = 0;
    while i < bs.len()
        invariant
            i <= bs@.len(),
            out@ == old(out)@ + bs@.take(i as int),
        decreases bs@.len() - i,
    {
        out.push(bs[i]);
        proof {
            assert(out@ =~= old(out)@ + bs@.take(i + 1));
        }
        i += 1;
    }
    proof {
        assert(out@ =~= old(out)@ + bs@);
    }
}

/// Appends a token's encoding.
fn push_token(out: &mut Vec<u8>, t: &String)
    ensures
        final(out)@ == old(out)@ + enc_token(t@),
        encode_utf8(t@).len() <= usize::MAX,
{
    let bs = t.as_str().as_bytes();
    push_u64(out, bs.len() as u64);
    push_bytes(out, bs);
    proof {
        assert(out@ =~= old(out)@ + enc_token(t@));
    }
}

/// Reads the token stored at `pos`, if the bytes there form one.
fn read_token(bytes: &Vec<u8>, pos: usize) -> (r: Option<(String, usize)>)
    requires
        pos <= bytes@.len(),
        bytes@.len() <= usize::MAX,
    ensures
        match r {
            Some(v) => parse_token(bytes@, pos as int) == Some((v.0@, v.1 as int)) && pos <= v.1
                <= bytes@.len(),
            None => parse_token(bytes@, pos as int) is None,
        },
{
    if bytes.len() - pos < 8 {
        return None;
    }
    let n = read_u64(bytes, pos);
    let q = pos + 8;
    if n > (bytes.len() - q) as u64 {
        return None;
    }
    let ln = n as usize;
    let mut buf: Vec<u8> = Vec::new();
    let mut i: usize = 0;
    while i < ln
        invariant
            i <= ln,
            q + ln <= bytes@.len(),
            bytes@.len() <= usize::MAX,
            buf@ == bytes@.subrange(q as int, q + i),
        decreases ln - i,
    {
        buf.push(bytes[q + i]);
        proof {
            assert(buf@ =~= bytes@.subrange(q as int, q + i + 1));
        }
        i += 1;
    }
    match string_from_utf8(buf) {
        Some(s) => Some((s, q + ln)),
        None => None,
    }
}

/// Reads the 64-bit value stored at `pos`.
fn read_u64(bytes: &Vec<u8>, pos: usize) -> (r: u64)
    requires
        pos + 8 <= bytes@.len(),
        bytes@.len() <= usize::MAX,
    ensures
        r == spec_read_u64(bytes@, pos as int),
{
    (bytes[pos] as u64) | (bytes[pos + 1] as u64) << 8 | (bytes[pos + 2] as u64) << 16 | (bytes[pos
        + 3] as u64) << 24 | (bytes[pos + 4] as u64) << 32 | (bytes[pos + 5] as u64) << 40 | (
    bytes[pos + 6] as u64) << 48 | (bytes[pos + 7] as u64) << 56
}

/// Appending a token to a context appends its encoding.
pub proof fn lemma_enc_ctx_snoc(s: CtxView, t: Seq<char>)
    ensures
        enc_ctx(s.push(t)) == enc_ctx(s) + enc_token(t),
    decreases s.len(),
{
    if s.len() == 0 {
        assert(s.push(t)[0] == t);
        assert(s.push(t).drop_first() =~= Seq::<Seq<char>>::empty());
        assert(enc_ctx(s) =~= Seq::<u8>::empty());
        assert(enc_ctx(s.push(t).drop_first()) =~= Seq::<u8>::empty());
        assert(enc_ctx(s.push(t)) =~= enc_token(t) + Seq::<u8>::empty());
        assert(enc_ctx(s.push(t)) =~= enc_ctx(s) + enc_token(t));
    } else {
        assert(s.push(t)[0] == s[0]);
        assert(s.push(t).drop_first() =~= s.drop_first().push(t));
        lemma_enc_ctx_snoc(s.drop_first(), t);
        assert(enc_ctx(s.push(t)) =~= enc_ctx(s) + enc_token(t));
    }
}

/// Appending a pair to a row appends its encoding.
pub proof fn lemma_enc_pairs_snoc(s: RowView, e: (Seq<char>, u32))
    ensures
        enc_pairs(s.push(e)) == enc_pairs(s) + enc_pair(e.0, e.1),
    decreases s.len(),
{
    if s.len() == 0 {
        assert(s.push(e)[0] == e);
        assert(s.push(e).drop_first() =~= Seq::<(Seq<char>, u32)>::empty());
        assert(enc_pairs(s) =~= Seq::<u8>::empty());
        assert(enc_pairs(s.push(e).drop_first()) =~= Seq::<u8>::empty());
        assert(enc_pairs(s.push(e)) =~= enc_pair(e.0, e.1) + Seq::<u8>::empty());
        assert(enc_pairs(s.push(e)) =~= enc_pairs(s) + enc_pair(e.0, e.1));
    } else {
        assert(s.push(e)[0] == s[0]);
        assert(s.push(e).drop_first() =~= s.drop_first().push(e));
        lemma_enc_pairs_snoc(s.drop_first(), e);
        assert(enc_pairs(s.push(e)) =~= enc_pairs(s) + enc_pair(e.0, e.1));
    }
}

/// Appending an entry to a table appends its encoding.
pub proof fn lemma_enc_entries_snoc(s: TableView, e: (CtxView, RowView))
    ensures
        enc_entries(s.push(e)) == enc_entries(s) + enc_entry(e),
    decreases s.len(),
{
    if s.len() == 0 {
        assert(s.push(e)[0] == e);
        assert(s.push(e).drop_first() =~= Seq::<(CtxView, RowView)>::empty());
        assert(enc_entries(s) =~= Seq::<u8>::empty());
        assert(enc_entries(s.push(e).drop_first()) =~= Seq::<u8>::empty());
        assert(enc_entries(s.push(e)) =~= enc_entry(e) + Seq::<u8>::empty());
        assert(enc_entries(s.push(e)) =~= enc_entries(s) + enc_entry(e));
    } else {
        assert(s.push(e)[0] == s[0]);
        assert(s.push(e).drop_first() =~= s.drop_first().push(e));
        lemma_enc_entries_snoc(s.drop_first(), e);
        assert(enc_entries(s.push(e)) =~= enc_entries(s) + enc_entry(e));
    }
}

/// Appends a context's encoding.
fn push_ctx(out: &mut Vec<u8>, c: &Vec<String>)
    ensures
        final(out)@ == old(out)@ + enc_ctx(c.deep_view()),
        forall|i: int| 0 <= i < c.deep_view().len() ==> token_fits(#[trigger] c.deep_view()[i]),
{
    let mut i: usize = 0;
    while i < c.len()
        invariant
            i <= c@.len(),
            out@ == old(out)@ + enc_ctx(c.deep_view().take(i as int)),
            forall|j: int| 0 <= j < i ==> token_fits(#[trigger] c.deep_view()[j]),
        decreases c@.len() - i,
    {
        let w = &c[i];
        push_token(out, w);
        proof {
            assert(w@ == c.deep_view()[i as int]);
            assert(c.deep_view().take(i + 1) =~= c.deep_view().take(i as int).push(w@));
            lemma_enc_ctx_snoc(c.deep_view().take(i as int), w@);
            assert(usize::MAX <= u64::MAX);
        }
        i += 1;
    }
    proof {
        assert(c.deep_view().take(c@.len() as int) =~= c.deep_view());
    }
}

impl MarkovChain {
    /// Encodes the whole model into self-contained bytes.
    pub fn save(&self) -> (r: Vec<u8>)
        requires
            self.wf(),
        ensures
            r@ == spec_encode(self.spec_order(), self.spec_table()),
            encodable(self.spec_order(), self.spec_table()),
    {
        proof {
            self.view_facts();
            assert(usize::MAX <= u64::MAX);
        }
        let ghost tbl = self.spec_table();
        let ghost hdr = le_bytes(self.order as u64) + le_bytes(self.table@.len() as u64);
        let mut out: Vec<u8> = Vec::new();
        push_u64(&mut out, self.order as u64);
        push_u64(&mut out, self.table.len() as u64);
        proof {
            assert(tbl.take(0) =~= Seq::<(CtxView, RowView)>::empty());
            assert(out@ =~= hdr + enc_entries(tbl.take(0)));
        }
        let mut i: usize = 0;
        while i < self.table.len()
            invariant
                self.wf(),
                self.spec_table() == tbl,
                tbl == self.table.deep_view(),
                tbl.len() == self.table@.len(),
                hdr == le_bytes(self.order as u64) + le_bytes(self.table@.len() as u64),
                i <= tbl.len(),
                out@ == hdr + enc_entries(tbl.take(i as int)),
                forall|j: int| 0 <= j < i ==> entry_encodable(#[trigger] tbl[j]),
            decreases tbl.len() - i,
        {
            let e = &self.table[i];
            let ghost ctxv = tbl[i as int].0;
            let ghost rowv = tbl[i as int].1;
            let ghost mid = out@;
            proof {
                assert(tbl[i as int] == self.table@[i as int].deep_view());
                assert(ctxv == e.0.deep_view());
                assert(rowv == e.1.deep_view());
            }
            push_ctx(&mut out, &e.0);
            push_u64(&mut out, e.1.len() as u64);
            proof {
                assert(rowv.take(0) =~= Seq::<(Seq<char>, u32)>::empty());
                assert(out@ =~= mid + enc_ctx(ctxv) + le_bytes(rowv.len() as u64) + enc_pairs(
                    rowv.take(0),
                ));
            }
            let mut j: usize = 0;
            while j < e.1.len()
                invariant
                    j <= rowv.len(),
                    rowv == e.1.deep_view(),
                    rowv.len() == e.1@.len(),
                    out@ == mid + enc_ctx(ctxv) + le_bytes(rowv.len() as u64) + enc_pairs(
                        rowv.take(j as int),
                    ),
                    forall|q: int| 0 <= q < j ==> token_fits((#[trigger] rowv[q]).0),
                decreases rowv.len() - j,
            {
                let pr = &e.1[j];
                push_token(&mut out, &pr.0);
                push_u64(&mut out, pr.1 as u64);
                proof {
                    assert(rowv[j as int] == e.1@[j as int].deep_view());
                    assert(pr.0@ == rowv[j as int].0);
                    assert(pr.1 == rowv[j as int].1);
                    assert(rowv.take(j + 1) =~= rowv.take(j as int).push(rowv[j as int]));
                    lemma_enc_pairs_snoc(rowv.take(j as int), rowv[j as int]);
                    assert(out@ =~= mid + enc_ctx(ctxv) + le_bytes(rowv.len() as u64) + enc_pairs(
                        rowv.take(j + 1),
                    ));
                    assert(usize::MAX <= u64::MAX);
                }
                j += 1;
            }
            proof {
                assert(rowv.take(rowv.len() as int) =~= rowv);
                assert(out@ =~= mid + (enc_ctx(ctxv) + enc_row(rowv)));
                assert(enc_entry(tbl[i as int]) == enc_ctx(ctxv) + enc_row(rowv));
                assert(tbl.take(i + 1) =~= tbl.take(i as int).push(tbl[i as int]));
                lemma_enc_entries_snoc(tbl.take(i as int), tbl[i as int]);
                assert(out@ =~= hdr + enc_entries(tbl.take(i + 1)));
                assert(entry_encodable(tbl[i as int]));
            }
            i += 1;
        }
        proof {
            assert(tbl.take(tbl.len() as int) =~= tbl);
            assert(out@ =~= spec_encode(self.spec_order(), tbl));
        }
        out
    }
}

/// Reads the run of `k` tokens at `pos`, if the bytes there form one.
fn read_ctx(bytes: &Vec<u8>, pos: usize, k: usize) -> (r: Option<(Vec<String>, usize)>)
    requires
        pos <= bytes@.len(),
        bytes@.len() <= usize::MAX,
    ensures
        match r {
            Some(v) => parse_ctx(bytes@, pos as int, k as nat) == Some(
                (v.0.deep_view(), v.1 as int),
            ) && pos <= v.1 <= bytes@.len(),
            None => parse_ctx(bytes@, pos as int, k as nat) is None,
        },
{
    let mut out: Vec<String> = Vec::new();
    let mut p: usize = pos;
    let mut i: usize = 0;
    while i < k
        invariant
            i <= k,
            pos <= p <= bytes@.len(),
            bytes@.len() <= usize::MAX,
            out@.len() == i,
            match parse_ctx(bytes@, p as int, (k - i) as nat) {
                Some(v) => parse_ctx(bytes@, pos as int, k as nat) == Some(
                    (out.deep_view() + v.0, v.1),
                ),
                None => parse_ctx(bytes@, pos as int, k as nat) is None,
            },
        decreases k - i,
    {
        let ghost predv = out.deep_view();
        match read_token(bytes, p) {
            None => {
                return None;
            },
            Some((s, q)) => {
                proof {
                    let rem = parse_ctx(bytes@, q as int, (k - i - 1) as nat);
                    if rem is Some {
                        assert(parse_ctx(bytes@, p as int, (k - i) as nat) == Some(
                            (seq![s@] + (rem->0).0, (rem->0).1),
                        ));
                        assert(predv + (seq![s@] + (rem->0).0) =~= predv.push(s@) + (rem->0).0);
                    } else {
                        assert(parse_ctx(bytes@, p as int, (k - i) as nat) is None);
                    }
                }
                out.push(s);
                proof {
                    assert(out.deep_view() =~= predv.push(out@[i as int]@));
                }
                p = q;
                i += 1;
            },
        }
    }
    proof {
        assert(parse_ctx(bytes@, p as int, 0) == Some((Seq::<Seq<char>>::empty(), p as int)));
        assert(out.deep_view() + Seq::<Seq<char>>::empty() =~= out.deep_view());
    }
    Some((out, p))
}

/// Reads the row stored at `pos`, if the bytes there form one.
fn read_row(bytes: &Vec<u8>, pos: usize) -> (r: Option<(Vec<(String, u32)>, usize)>)
    requires
        pos <= bytes@.len(),
        bytes@.len() <= usize::MAX,
    ensures
        match r {
            Some(v) => parse_row(bytes@, pos as int) == Some((v.0.deep_view(), v.1 as int)) && pos
                <= v.1 <= bytes@.len(),
            None => parse_row(bytes@, pos as int) is None,
        },
{
    if bytes.len() - pos < 8 {
        return None;
    }
    let m = read_u64(bytes, pos);
    let start = pos + 8;
    let mut out: Vec<(String, u32)> = Vec::new();
    let mut p: usize = start;
    let mut i: u64 = 0;
    while i < m
        invariant
            i <= m,
            start <= p <= bytes@.len(),
            bytes@.len() <= usize::MAX,
            out@.len() == i,
            start == pos + 8,
            parse_u64(bytes@, pos as int) == Some((m, start as int)),
            match parse_pairs(bytes@, p as int, (m - i) as nat) {
                Some(v) => parse_pairs(bytes@, start as int, m as nat) == Some(
                    (out.deep_view() + v.0, v.1),
                ),
                None => parse_pairs(bytes@, start as int, m as nat) is None,
            },
        decreases m - i,
    {
        let ghost predv = out.deep_view();
        match read_token(bytes, p) {
            None => {
                proof {
                    assert(parse_pair(bytes@, p as int) is None);
                    assert(parse_pairs(bytes@, p as int, (m - i) as nat) is None);
                    assert(parse_row(bytes@, pos as int) is None);
                }
                return None;
            },
            Some((s, q)) => {
                if bytes.len() - q < 8 {
                    proof {
                        assert(parse_pair(bytes@, p as int) is None);
                        assert(parse_pairs(bytes@, p as int, (m - i) as nat) is None);
                        assert(parse_row(bytes@, pos as int) is None);
                    }
                    return None;
                }
                let c = read_u64(bytes, q);
                if c < 1 || c > u32::MAX as u64 {
                    proof {
                        assert(parse_pair(bytes@, p as int) is None);
                        assert(parse_pairs(bytes@, p as int, (m - i) as nat) is None);
                        assert(parse_row(bytes@, pos as int) is None);
                    }
                    return None;
                }
                let q2 = q + 8;
                proof {
                    assert(parse_pair(bytes@, p as int) == Some(((s@, c as u32), q2 as int)));
                    let rem = parse_pairs(bytes@, q2 as int, (m - i - 1) as nat);
                    if rem is Some {
                        assert(parse_pairs(bytes@, p as int, (m - i) as nat) == Some(
                            (seq![(s@, c as u32)] + (rem->0).0, (rem->0).1),
                        ));
                        assert(predv + (seq![(s@, c as u32)] + (rem->0).0) =~= predv.push(
                            (s@, c as u32),
                        ) + (rem->0).0);
                    } else {
                        assert(parse_pairs(bytes@, p as int, (m - i) as nat) is None);
                    }
                }
                out.push((s, c as u32));
                proof {
                    assert(out.deep_view() =~= predv.push(
                        (out@[i as int].0@, out@[i as int].1),
                    ));
                }
                p = q2;
                i += 1;
            },
        }
    }
    proof {
        assert(parse_pairs(bytes@, p as int, 0) == Some((Seq::<(Seq<char>, u32)>::empty(), p as int)));
        assert(out.deep_view() + Seq::<(Seq<char>, u32)>::empty() =~= out.deep_view());
    }
    Some((out, p))
}

/// Reads the entry stored at `pos`, if the bytes there form one.
fn read_entry(bytes: &Vec<u8>, pos: usize, order: usize) -> (r: Option<(Entry, usize)>)
    requires
        pos <= bytes@.len(),
        bytes@.len() <= usize::MAX,
    ensures
        match r {
            Some(v) => parse_entry(bytes@, pos as int, order as nat) == Some(
                (((v.0).0.deep_view(), (v.0).1.deep_view()), v.1 as int),
            ) && pos <= v.1 <= bytes@.len(),
            None => parse_entry(bytes@, pos as int, order as nat) is None,
        },
{
    match read_ctx(bytes, pos, order) {
        None => None,
        Some((c, q)) => {
            match read_row(bytes, q) {
                None => None,
                Some((row, p2)) => Some(((c, row), p2)),
            }
        },
    }
}

impl MarkovChain {
    /// Decodes a chain from bytes produced by `save`; fails on exactly the
    /// byte sequences that encode no well-formed chain.
    pub fn load(bytes: &Vec<u8>) -> (r: Result<MarkovChain, DecodeError>)
        ensures
            match r {
                Ok(c) => c.wf() && spec_decode(bytes@) == Some((c.spec_order(), c.spec_table())),
                Err(_) => spec_decode(bytes@) is None,
            },
    {
        let blen = bytes.len();
        if blen < 8 {
            return Err(DecodeError);
        }
        let ov = read_u64(bytes, 0);
        if ov < 1 || ov > usize::MAX as u64 {
            return Err(DecodeError);
        }
        let order = ov as usize;
        if blen - 8 < 8 {
            return Err(DecodeError);
        }
        let n = read_u64(bytes, 8);
        let ghost ordn = ov as nat;
        let mut acc: Vec<Entry> = Vec::new();
        let mut pos: usize = 16;
        let mut i: u64 = 0;
        while i < n
            invariant
                i <= n,
                16 <= pos <= bytes@.len(),
                bytes@.len() <= usize::MAX,
                ordn == order as nat,
                ordn == ov as nat,
                1 <= ov <= usize::MAX as u64,
                parse_u64(bytes@, 0) == Some((ov, 8int)),
                parse_u64(bytes@, 8) == Some((n, 16int)),
                acc@.len() == i,
                match parse_entries(bytes@, pos as int, ordn, (n - i) as nat) {
                    Some(v) => parse_entries(bytes@, 16, ordn, n as nat) == Some(
                        (acc.deep_view() + v.0, v.1),
                    ),
                    None => parse_entries(bytes@, 16, ordn, n as nat) is None,
                },
            decreases n - i,
        {
            let ghost predv = acc.deep_view();
            match read_entry(bytes, pos, order) {
                None => {
                    proof {
                        assert(parse_entries(bytes@, pos as int, ordn, (n - i) as nat) is None);
                        assert(parse_entries(bytes@, 16, ordn, n as nat) is None);
                        assert(spec_decode(bytes@) is None);
                    }
                    return Err(DecodeError);
                },
                Some((e, q)) => {
                    let ghost edv = (e.0.deep_view(), e.1.deep_view());
                    proof {
                        let rem = parse_entries(bytes@, q as int, ordn, (n - i - 1) as nat);
                        if rem is Some {
                            assert(parse_entries(bytes@, pos as int, ordn, (n - i) as nat) == Some(
                                (seq![edv] + (rem->0).0, (rem->0).1),
                            ));
                            assert(predv + (seq![edv] + (rem->0).0) =~= predv.push(edv) + (rem->0).0);
                        } else {
                            assert(parse_entries(bytes@, pos as int, ordn, (n - i) as nat) is None);
                        }
                    }
                    acc.push(e);
                    proof {
                        assert(acc.deep_view() =~= predv.push(
                            (acc@[i as int].0.deep_view(), acc@[i as int].1.deep_view()),
                        ));
                    }
                    pos = q;
                    i += 1;
                },
            }
        }
        proof {
            assert(parse_entries(bytes@, pos as int, ordn, 0) == Some(
                (Seq::<(CtxView, RowView)>::empty(), pos as int),
            ));
            assert(acc.deep_view() + Seq::<(CtxView, RowView)>::empty() =~= acc.deep_view());
        }
        if pos != blen {
            proof {
                assert(parse_u64(bytes@, 0) == Some((ov, 8int)));
                assert(parse_u64(bytes@, 8) == Some((n, 16int)));
                assert(parse_entries(bytes@, 16, ordn, n as nat) == Some(
                    (acc.deep_view(), pos as int),
                ));
                assert(spec_decode(bytes@) is None);
            }
            return Err(DecodeError);
        }
        if !crate::chain::table_ok(order, &acc) {
            return Err(DecodeError);
        }
        let c = MarkovChain { order, table: acc };
        proof {
            c.view_facts();
        }
        Ok(c)
    }
}

} // verus!
