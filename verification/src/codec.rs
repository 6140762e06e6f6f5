//! The dataset codec: serializes a record sequence into one self-contained
//! binary payload and deserializes it back, reproducing the sequence exactly,
//! absent abbreviation slots included.
//!
//! The format is little-endian throughout: an 8-byte record count, then per
//! record the full name and the three abbreviation slots. A name is an 8-byte
//! character count followed by each character's scalar value in 4 bytes; a
//! slot is one tag byte (0 absent, 1 present) followed, when present, by a
//! name-shaped string. Trailing bytes after the last record are rejected.

use vstd::prelude::*;

verus! {

use vstd::utf8::is_scalar;
use crate::error::DataError;
use crate::journal::{Journal, JournalView, opt_view};
use crate::text::{chars_of, string_from_chars};

/// 256 to the power `n`: the number of values `n` bytes can hold.
pub open spec fn pow256(n: nat) -> int
    decreases n,
{
    if n == 0 {
        1
    } else {
        256 * pow256((n - 1) as nat)
    }
}

/// The `n` little-endian bytes of `v`.
pub open spec fn le_bytes(v: int, n: nat) -> Seq<u8>
    decreases n,
{
    if n == 0 {
        Seq::empty()
    } else {
        seq![(v % 256) as u8] + le_bytes(v / 256, (n - 1) as nat)
    }
}

/// The value held by little-endian bytes.
pub open spec fn le_value(bs: Seq<u8>) -> int
    decreases bs.len(),
{
    if bs.len() == 0 {
        0
    } else {
        bs[0] + 256 * le_value(bs.drop_first())
    }
}

/// The encoding of a character sequence's characters: 4 bytes each.
pub open spec fn enc_chars(s: Seq<char>) -> Seq<u8>
    decreases s.len(),
{
    if s.len() == 0 {
        Seq::empty()
    } else {
        le_bytes(s[0] as u32 as int, 4) + enc_chars(s.drop_first())
    }
}

/// The encoding of a string: its character count, then its characters.
pub open spec fn enc_string(s: Seq<char>) -> Seq<u8> {
    le_bytes(s.len() as int, 8) + enc_chars(s)
}

/// The encoding of an abbreviation slot: a tag byte, then the string when
/// the slot is present.
pub open spec fn enc_slot(o: Option<Seq<char>>) -> Seq<u8> {
    match o {
        None => seq![0u8],
        Some(s) => seq![1u8] + enc_string(s),
    }
}

/// The encoding of one record: the name, then the three slots in order.
pub open spec fn enc_record(j: JournalView) -> Seq<u8> {
    enc_string(j.name) + (enc_slot(j.abbr_1) + (enc_slot(j.abbr_2) + enc_slot(j.abbr_3)))
}

/// The encodings of a record sequence, concatenated in order.
pub open spec fn enc_records(ds: Seq<JournalView>) -> Seq<u8>
    decreases ds.len(),
{
    if ds.len() == 0 {
        Seq::empty()
    } else {
        enc_record(ds[0]) + enc_records(ds.drop_first())
    }
}

/// The payload of a record sequence: the record count, then the records.
pub open spec fn encode_spec(ds: Seq<JournalView>) -> Seq<u8> {
    le_bytes(ds.len() as int, 8) + enc_records(ds)
}

/// Whether a record sequence fits the format's 8-byte length fields. Any
/// sequence held in memory does.
pub open spec fn encodable(ds: Seq<JournalView>) -> bool {
    &&& ds.len() < pow256(8)
    &&& forall|i: int| 0 <= i < ds.len() ==> record_encodable(#[trigger] ds[i])
}

/// Reads an 8-byte value off the front.
pub open spec fn dec_u64(bs: Seq<u8>) -> Option<(int, Seq<u8>)> {
    if bs.len() >= 8 {
        Some((le_value(bs.take(8)), bs.skip(8)))
    } else {
        None
    }
}

/// Reads one character off the front: 4 bytes that must hold a Unicode
/// scalar value.
pub open spec fn dec_char(bs: Seq<u8>) -> Option<(char, Seq<u8>)> {
    if bs.len() >= 4 {
        let v = le_value(bs.take(4));
        if is_scalar(v as u32) {
            Some(((v as u32) as char, bs.skip(4)))
        } else {
            None
        }
    } else {
        None
    }
}

/// Reads `n` characters off the front.
pub open spec fn dec_chars(bs: Seq<u8>, n: nat) -> Option<(Seq<char>, Seq<u8>)>
    decreases n,
{
    if n == 0 {
        Some((Seq::empty(), bs))
    } else {
        match dec_char(bs) {
            Some((c, r1)) => match dec_chars(r1, (n - 1) as nat) {
                Some((s, r2)) => Some((seq![c] + s, r2)),
                None => None,
            },
            None => None,
        }
    }
}

/// Reads a length-prefixed string off the front.
pub open spec fn dec_string(bs: Seq<u8>) -> Option<(Seq<char>, Seq<u8>)> {
    match dec_u64(bs) {
        Some((n, r)) => dec_chars(r, n as nat),
        None => None,
    }
}

/// Reads an abbreviation slot off the front.
pub open spec fn dec_slot(bs: Seq<u8>) -> Option<(Option<Seq<char>>, Seq<u8>)> {
    if bs.len() == 0 {
        None
    } else if bs[0] == 0 {
        Some((None, bs.drop_first()))
    } else if bs[0] == 1 {
        match dec_string(bs.drop_first()) {
            Some((s, r)) => Some((Some(s), r)),
            None => None,
        }
    } else {
        None
    }
}

/// Reads one record off the front.
pub open spec fn dec_record(bs: Seq<u8>) -> Option<(JournalView, Seq<u8>)> {
    match dec_string(bs) {
        Some((name, r1)) => match dec_slot(r1) {
            Some((a1, r2)) => match dec_slot(r2) {
                Some((a2, r3)) => match dec_slot(r3) {
                    Some((a3, r4)) => Some(
                        (JournalView { name, abbr_1: a1, abbr_2: a2, abbr_3: a3 }, r4),
                    ),
                    None => None,
                },
                None => None,
            },
            None => None,
        },
        None => None,
    }
}

/// Reads `n` records off the front.
pub open spec fn dec_records(bs: Seq<u8>, n: nat) -> Option<(Seq<JournalView>, Seq<u8>)>
    decreases n,
{
    if n == 0 {
        Some((Seq::empty(), bs))
    } else {
        match dec_record(bs) {
            Some((j, r1)) => match dec_records(r1, (n - 1) as nat) {
                Some((ds, r2)) => Some((seq![j] + ds, r2)),
                None => None,
            },
            None => None,
        }
    }
}

/// What a payload decodes to: the record sequence, or `None` when the bytes
/// are not exactly one encoded dataset.
pub open spec fn decode_spec(bs: Seq<u8>) -> Option<Seq<JournalView>> {
    match dec_u64(bs) {
        Some((n, r)) => match dec_records(r, n as nat) {
            Some((ds, rest)) => if rest.len() == 0 {
                Some(ds)
            } else {
                None
            },
            None => None,
        },
        None => None,
    }
}

/// The powers of 256 used by the format.
pub proof fn lemma_pow256_values()
    ensures
        pow256(0) == 1,
        pow256(1) == 0x100,
        pow256(2) == 0x10000,
        pow256(3) == 0x1000000,
        pow256(4) == 0x100000000,
        pow256(5) == 0x10000000000,
        pow256(6) == 0x1000000000000,
        pow256(7) == 0x100000000000000,
        pow256(8) == 0x10000000000000000,
{
    assert(pow256(1) == 256 * pow256(0));
    assert(pow256(2) == 256 * pow256(1));
    assert(pow256(3) == 256 * pow256(2));
    assert(pow256(4) == 256 * pow256(3));
    assert(pow256(5) == 256 * pow256(4));
    assert(pow256(6) == 256 * pow256(5));
    assert(pow256(7) == 256 * pow256(6));
    assert(pow256(8) == 256 * pow256(7));
}

/// `le_bytes` writes exactly `n` bytes.
pub proof fn lemma_le_bytes_len(v: int, n: nat)
    ensures
        le_bytes(v, n).len() == n,
    decreases n,
{
    if n > 0 {
        lemma_le_bytes_len(v / 256, (n - 1) as nat);
    }
}

/// The value of `n` bytes is bounded by `pow256(n)`.
pub proof fn lemma_le_value_bound(bs: Seq<u8>)
    ensures
        0 <= le_value(bs) < pow256(bs.len()),
    decreases bs.len(),
{
    if bs.len() > 0 {
        lemma_le_value_bound(bs.drop_first());
    }
}

/// Reading back the little-endian bytes of an in-range value gives the
/// value.
pub proof fn lemma_le_round_trip(v: int, n: nat)
    requires
        0 <= v < pow256(n),
    ensures
        le_value(le_bytes(v, n)) == v,
    decreases n,
{
    if n == 0 {
    } else {
        assert(v / 256 < pow256((n - 1) as nat)) by {
            if v / 256 >= pow256((n - 1) as nat) {
                assert(v >= 256 * (v / 256)) by {
                    assert(v == 256 * (v / 256) + v % 256);
                };
                assert(256 * (v / 256) >= 256 * pow256((n - 1) as nat)) by (nonlinear_arith)
                    requires
                        v / 256 >= pow256((n - 1) as nat),
                ;
            }
        }
        lemma_le_round_trip(v / 256, (n - 1) as nat);
        let bs = le_bytes(v, n);
        assert(bs.drop_first() =~= le_bytes(v / 256, (n - 1) as nat));
        assert(bs[0] == (v % 256) as u8);
        assert(le_value(bs) == v % 256 + 256 * (v / 256));
        assert(v == 256 * (v / 256) + v % 256);
    }
}

/// Decoding an 8-byte field off an encoded value and a tail yields the
/// value and the tail.
proof fn lemma_dec_u64_enc(v: int, tail: Seq<u8>)
    requires
        0 <= v < pow256(8),
    ensures
        dec_u64(le_bytes(v, 8) + tail) == Some((v, tail)),
{
    lemma_le_bytes_len(v, 8);
    let bs = le_bytes(v, 8) + tail;
    assert(bs.take(8) =~= le_bytes(v, 8));
    assert(bs.skip(8) =~= tail);
    lemma_le_round_trip(v, 8);
}

/// Decoding a character off its encoding and a tail yields it back.
proof fn lemma_dec_char_enc(c: char, tail: Seq<u8>)
    ensures
        dec_char(le_bytes(c as u32 as int, 4) + tail) == Some((c, tail)),
{
    vstd::utf8::char_is_scalar(c);
    lemma_pow256_values();
    lemma_le_bytes_len(c as u32 as int, 4);
    let bs = le_bytes(c as u32 as int, 4) + tail;
    assert(bs.take(4) =~= le_bytes(c as u32 as int, 4));
    assert(bs.skip(4) =~= tail);
    lemma_le_round_trip(c as u32 as int, 4);
    let v = le_value(bs.take(4));
    assert(v as u32 == c as u32);
    vstd::utf8::char_u32_cast(c, v as u32);
}

/// Decoding `s.len()` characters off their encoding and a tail yields the
/// characters and the tail.
proof fn lemma_dec_chars_enc(s: Seq<char>, tail: Seq<u8>)
    ensures
        dec_chars(enc_chars(s) + tail, s.len()) == Some((s, tail)),
    decreases s.len(),
{
    if s.len() == 0 {
        assert(enc_chars(s) + tail =~= tail);
        assert(dec_chars(tail, 0) == Some((Seq::<char>::empty(), tail)));
        assert(s =~= Seq::<char>::empty());
    } else {
        let head = le_bytes(s[0] as u32 as int, 4);
        let rest = enc_chars(s.drop_first());
        assert(enc_chars(s) + tail =~= head + (rest + tail));
        lemma_dec_char_enc(s[0], rest + tail);
        lemma_dec_chars_enc(s.drop_first(), tail);
        assert(seq![s[0]] + s.drop_first() =~= s);
    }
}

/// Decoding a string off its encoding and a tail yields it back.
proof fn lemma_dec_string_enc(s: Seq<char>, tail: Seq<u8>)
    requires
        s.len() < pow256(8),
    ensures
        dec_string(enc_string(s) + tail) == Some((s, tail)),
{
    let head = le_bytes(s.len() as int, 8);
    assert(enc_string(s) + tail =~= head + (enc_chars(s) + tail));
    lemma_dec_u64_enc(s.len() as int, enc_chars(s) + tail);
    lemma_dec_chars_enc(s, tail);
}

/// Decoding a slot off its encoding and a tail yields it back.
proof fn lemma_dec_slot_enc(o: Option<Seq<char>>, tail: Seq<u8>)
    requires
        o matches Some(s) ==> s.len() < pow256(8),
    ensures
        dec_slot(enc_slot(o) + tail) == Some((o, tail)),
{
    match o {
        None => {
            let bs = enc_slot(o) + tail;
            assert(bs[0] == 0u8);
            assert(bs.drop_first() =~= tail);
        },
        Some(s) => {
            let bs = enc_slot(o) + tail;
            assert(bs[0] == 1u8);
            assert(bs.drop_first() =~= enc_string(s) + tail);
            lemma_dec_string_enc(s, tail);
        },
    }
}

/// Decoding a record off its encoding and a tail yields it back.
#[verifier::rlimit(50)]
proof fn lemma_dec_record_enc(j: JournalView, tail: Seq<u8>)
    requires
        j.name.len() < pow256(8),
        j.abbr_1 matches Some(a) ==> a.len() < pow256(8),
        j.abbr_2 matches Some(a) ==> a.len() < pow256(8),
        j.abbr_3 matches Some(a) ==> a.len() < pow256(8),
    ensures
        dec_record(enc_record(j) + tail) == Some((j, tail)),
{
    let bs = enc_record(j) + tail;
    let t3 = enc_slot(j.abbr_3) + tail;
    let t2 = enc_slot(j.abbr_2) + t3;
    let t1 = enc_slot(j.abbr_1) + t2;
    assert(bs =~= enc_string(j.name) + t1);
    lemma_dec_string_enc(j.name, t1);
    assert(dec_string(bs) == Some((j.name, t1)));
    lemma_dec_slot_enc(j.abbr_1, t2);
    assert(dec_slot(t1) == Some((j.abbr_1, t2)));
    lemma_dec_slot_enc(j.abbr_2, t3);
    assert(dec_slot(t2) == Some((j.abbr_2, t3)));
    lemma_dec_slot_enc(j.abbr_3, tail);
    assert(dec_slot(t3) == Some((j.abbr_3, tail)));
    assert(dec_record(bs) == Some((j, tail)));
}

/// Decoding `ds.len()` records off their encoding and a tail yields the
/// records and the tail.
proof fn lemma_dec_records_enc(ds: Seq<JournalView>, tail: Seq<u8>)
    requires
        encodable(ds),
    ensures
        dec_records(enc_records(ds) + tail, ds.len()) == Some((ds, tail)),
    decreases ds.len(),
{
    if ds.len() == 0 {
        assert(enc_records(ds) + tail =~= tail);
        assert(ds =~= Seq::<JournalView>::empty());
    } else {
        let head = enc_record(ds[0]);
        let rest = enc_records(ds.drop_first());
        assert(enc_records(ds) + tail =~= head + (rest + tail));
        lemma_dec_record_enc(ds[0], rest + tail);
        assert(encodable(ds.drop_first())) by {
            assert(forall|i: int|
                0 <= i < ds.drop_first().len() ==> #[trigger] ds.drop_first()[i] == ds[i + 1]);
        }
        lemma_dec_records_enc(ds.drop_first(), tail);
        assert(seq![ds[0]] + ds.drop_first() =~= ds);
    }
}

/// The per-record part of [`encodable`].
pub open spec fn record_encodable(j: JournalView) -> bool {
    &&& j.name.len() < pow256(8)
    &&& (j.abbr_1 matches Some(a) ==> a.len() < pow256(8))
    &&& (j.abbr_2 matches Some(a) ==> a.len() < pow256(8))
    &&& (j.abbr_3 matches Some(a) ==> a.len() < pow256(8))
}

/// `pow256` does not shrink as the exponent grows.
pub proof fn lemma_pow256_le(a: nat, b: nat)
    requires
        a <= b,
    ensures
        pow256(a) <= pow256(b),
    decreases b,
{
    if a < b {
        lemma_pow256_le(a, (b - 1) as nat);
        lemma_pow256_pos((b - 1) as nat);
    }
}

/// `pow256` is positive.
pub proof fn lemma_pow256_pos(n: nat)
    ensures
        pow256(n) >= 1,
    decreases n,
{
    if n > 0 {
        lemma_pow256_pos((n - 1) as nat);
    }
}

/// Round trip: decoding an encoded record sequence reproduces the sequence
/// exactly, absent abbreviation slots included.
pub proof fn lemma_encode_decode(ds: Seq<JournalView>)
    requires
        encodable(ds),
    ensures
        decode_spec(encode_spec(ds)) == Some(ds),
{
    lemma_dec_u64_enc(ds.len() as int, enc_records(ds));
    assert(encode_spec(ds) =~= le_bytes(ds.len() as int, 8) + enc_records(ds));
    assert(enc_records(ds) =~= enc_records(ds) + Seq::<u8>::empty());
    lemma_dec_records_enc(ds, Seq::<u8>::empty());
}

/// Appending a character extends the encoding by that character's bytes.
proof fn lemma_enc_chars_push(s: Seq<char>, c: char)
    ensures
        enc_chars(s.push(c)) == enc_chars(s) + le_bytes(c as u32 as int, 4),
    decreases s.len(),
{
    if s.len() == 0 {
        assert(s.push(c)[0] == c);
        assert(s.push(c).drop_first() =~= Seq::<char>::empty());
        assert(enc_chars(Seq::<char>::empty()) =~= Seq::<u8>::empty());
        assert(enc_chars(s.push(c)) =~= enc_chars(s) + le_bytes(c as u32 as int, 4));
    } else {
        assert(s.push(c)[0] == s[0]);
        assert(s.push(c).drop_first() =~= s.drop_first().push(c));
        lemma_enc_chars_push(s.drop_first(), c);
        let a = le_bytes(s[0] as u32 as int, 4);
        let b = enc_chars(s.drop_first());
        let d = le_bytes(c as u32 as int, 4);
        assert(enc_chars(s.push(c)) == a + (b + d));
        assert(a + (b + d) =~= (a + b) + d);
    }
}

/// Appending a record extends the encoding by that record's bytes.
proof fn lemma_enc_records_push(ds: Seq<JournalView>, j: JournalView)
    ensures
        enc_records(ds.push(j)) == enc_records(ds) + enc_record(j),
    decreases ds.len(),
{
    if ds.len() == 0 {
        assert(ds.push(j)[0] == j);
        assert(ds.push(j).drop_first() =~= Seq::<JournalView>::empty());
        assert(enc_records(Seq::<JournalView>::empty()) =~= Seq::<u8>::empty());
        assert(enc_records(ds.push(j)) =~= enc_records(ds) + enc_record(j));
    } else {
        assert(ds.push(j)[0] == ds[0]);
        assert(ds.push(j).drop_first() =~= ds.drop_first().push(j));
        lemma_enc_records_push(ds.drop_first(), j);
        let a = enc_record(ds[0]);
        let b = enc_records(ds.drop_first());
        let d = enc_record(j);
        assert(enc_records(ds.push(j)) == a + (b + d));
        assert(a + (b + d) =~= (a + b) + d);
    }
}

/// The `n` little-endian bytes of `v`, executable.
fn le_vec(v: u64, n: usize) -> (r: Vec<u8>)
    requires
        n <= 8,
    ensures
        r@ == le_bytes(v as int, n as nat),
{
    let mut r: Vec<u8> = Vec::new();
    let mut x: u64 = v;
    let mut i: usize = 0;
    while i < n
        invariant
            i <= n <= 8,
            r@.len() == i,
            r@ + le_bytes(x as int, (n - i) as nat) == le_bytes(v as int, n as nat),
        decreases n - i,
    {
        let ghost x_old = x as int;
        let ghost r_old = r@;
        let b: u8 = (x % 256) as u8;
        r.push(b);
        x = x / 256;
        i = i + 1;
        proof {
            assert(le_bytes(x_old, (n - i + 1) as nat) == seq![(x_old % 256) as u8] + le_bytes(
                x_old / 256,
                (n - i) as nat,
            ));
            assert(r@ + le_bytes(x as int, (n - i) as nat) =~= r_old + le_bytes(
                x_old,
                (n - i + 1) as nat,
            ));
        }
    }
    assert(le_bytes(x as int, 0) =~= Seq::<u8>::empty());
    assert(r@ =~= r@ + le_bytes(x as int, 0));
    r
}

/// The encoding of one string: character count, then characters.
fn string_bytes(s: &String) -> (r: Vec<u8>)
    ensures
        r@ == enc_string(s@),
        s@.len() < pow256(8),
{
    let cs = chars_of(s.as_str());
    proof {
        lemma_pow256_values();
        assert((cs.len() as u64) as int == cs.len() as int);
    }
    let mut r = le_vec(cs.len() as u64, 8);
    let n: usize = cs.len();
    let mut i: usize = 0;
    while i < n
        invariant
            n == cs@.len(),
            cs@ == s@,
            i <= n,
            r@ == le_bytes(s@.len() as int, 8) + enc_chars(s@.take(i as int)),
        decreases n - i,
    {
        let ghost r_old = r@;
        let c = cs[i];
        let mut cb = le_vec(c as u32 as u64, 4);
        proof {
            assert((c as u32 as u64) as int == c as u32 as int);
        }
        r.append(&mut cb);
        i = i + 1;
        proof {
            assert(s@.take(i as int).drop_last() =~= s@.take(i - 1));
            assert(s@.take(i as int) =~= s@.take(i - 1).push(c));
            lemma_enc_chars_push(s@.take(i - 1), c);
            assert(r@ =~= le_bytes(s@.len() as int, 8) + enc_chars(s@.take(i as int)));
        }
    }
    assert(s@.take(n as int) =~= s@);
    r
}

/// The encoding of one abbreviation slot: tag byte, then the string when
/// present.
fn slot_bytes(o: &Option<String>) -> (r: Vec<u8>)
    ensures
        r@ == enc_slot(opt_view(*o)),
        (opt_view(*o) matches Some(a) ==> a.len() < pow256(8)),
{
    let mut r: Vec<u8> = Vec::new();
    match o {
        None => {
            r.push(0u8);
            assert(r@ =~= enc_slot(opt_view(*o)));
        },
        Some(s) => {
            r.push(1u8);
            let mut sb = string_bytes(s);
            r.append(&mut sb);
            assert(r@ =~= seq![1u8] + enc_string(s@));
        },
    }
    r
}

/// The encoding of one record: name, then the three slots in order.
fn record_bytes(j: &Journal) -> (r: Vec<u8>)
    ensures
        r@ == enc_record(j@),
        record_encodable(j@),
{
    let mut r = string_bytes(&j.name);
    let mut s1 = slot_bytes(&j.abbr_1);
    let mut s2 = slot_bytes(&j.abbr_2);
    let mut s3 = slot_bytes(&j.abbr_3);
    r.append(&mut s1);
    r.append(&mut s2);
    r.append(&mut s3);
    assert(r@ =~= enc_record(j@));
    r
}

/// Serializes the record sequence into one self-contained payload: the
/// record count, then each record's encoding in order.
pub fn encode_dataset(ds: &Vec<Journal>) -> (r: Vec<u8>)
    ensures
        r@ == encode_spec(ds.deep_view()),
        encodable(ds.deep_view()),
{
    let ghost dv = ds.deep_view();
    proof {
        lemma_pow256_values();
        assert((ds.len() as u64) as int == ds.len() as int);
    }
    let mut r = le_vec(ds.len() as u64, 8);
    let n: usize = ds.len();
    let mut k: usize = 0;
    while k < n
        invariant
            n == ds@.len(),
            ds.deep_view() == dv,
            k <= n,
            r@ == le_bytes(dv.len() as int, 8) + enc_records(dv.take(k as int)),
            forall|i: int| 0 <= i < k ==> record_encodable(#[trigger] dv[i]),
        decreases n - k,
    {
        let ghost r_old = r@;
        let mut rb = record_bytes(&ds[k]);
        proof {
            assert(ds@[k as int].deep_view() == dv[k as int]);
        }
        r.append(&mut rb);
        k = k + 1;
        proof {
            assert(dv.take(k as int).drop_last() =~= dv.take(k - 1));
            assert(dv.take(k as int) =~= dv.take(k - 1).push(dv[k - 1]));
            lemma_enc_records_push(dv.take(k - 1), dv[k - 1]);
            assert(r@ =~= le_bytes(dv.len() as int, 8) + enc_records(dv.take(k as int)));
        }
    }
    assert(dv.take(n as int) =~= dv);
    r
}

/// A `char` for a scalar value.
///
/// Relies on `char::from_u32`: it returns the character with the given
/// code, and `None` exactly for surrogates and values above the Unicode
/// maximum.
#[verifier::external_body]
fn char_from_u32(u: u32) -> (r: Option<char>)
    ensures
        r is Some <==> is_scalar(u),
        (r matches Some(c) ==> c as u32 == u),
{
    char::from_u32(u)
}

/// Reads the `n`-byte little-endian value at `pos`, and the position after
/// it; `None` when fewer than `n` bytes remain.
fn read_le(bs: &Vec<u8>, pos: usize, n: usize) -> (r: Option<(u64, usize)>)
    requires
        pos <= bs@.len(),
        1 <= n <= 8,
    ensures
        (r matches Some(p) ==> p.1 == pos + n && pos + n <= bs@.len() && p.0 as int == le_value(
            bs@.subrange(pos as int, pos + n),
        )),
        (r is None ==> bs@.len() < pos + n),
{
    if bs.len() - pos < n {
        return None;
    }
    let ghost w = bs@.subrange(pos as int, pos + n);
    let mut v: u64 = 0;
    let mut k: usize = n;
    while k > 0
        invariant
            k <= n <= 8,
            pos + n <= bs@.len(),
            bs@.len() <= usize::MAX,
            w == bs@.subrange(pos as int, pos + n),
            w.len() == n,
            v as int == le_value(w.skip(k as int)),
            (v as int) < pow256((n - k) as nat),
        decreases k,
    {
        let ghost v_old = v as int;
        k = k - 1;
        let b = bs[pos + k];
        proof {
            lemma_pow256_values();
            lemma_pow256_le((n - k - 1) as nat, 7);
            assert(w.skip(k as int).drop_first() =~= w.skip(k + 1));
            assert(w.skip(k as int)[0] == w[k as int]);
            assert(w[k as int] == bs@[pos + k]);
        }
        v = v * 256 + (b as u64);
    }
    assert(w.skip(0) =~= w);
    Some((v, pos + n))
}

/// `is_scalar` in the words of the documentation: not a surrogate, and at
/// most the Unicode maximum.
proof fn lemma_is_scalar_range(u: u32)
    ensures
        is_scalar(u) <==> (u < 0xD800 || (0xE000 <= u && u <= 0x10FFFF)),
{
}

/// Reads the character at `pos`, and the position after it; `None` when
/// fewer than 4 bytes remain or they hold no scalar value.
fn read_char_at(bs: &Vec<u8>, pos: usize) -> (r: Option<(char, usize)>)
    requires
        pos <= bs@.len(),
    ensures
        (r matches Some(p) ==> pos < p.1 <= bs@.len() && dec_char(bs@.skip(pos as int)) == Some(
            (p.0, bs@.skip(p.1 as int)),
        )),
        (r is None ==> dec_char(bs@.skip(pos as int)) is None),
{
    let ghost tail = bs@.skip(pos as int);
    match read_le(bs, pos, 4) {
        None => {
            assert(tail.len() < 4);
            None
        },
        Some((v, p2)) => {
            proof {
                assert(tail.take(4) =~= bs@.subrange(pos as int, pos + 4));
                lemma_le_value_bound(tail.take(4));
                lemma_pow256_values();
            }
            let u = v as u32;
            assert(u as int == le_value(tail.take(4)));
            if u < 0xD800 || (u >= 0xE000 && u <= 0x10FFFF) {
                proof {
                    lemma_is_scalar_range(u);
                }
                match char_from_u32(u) {
                    Some(c) => {
                        proof {
                            vstd::utf8::char_u32_cast(c, u);
                            assert(tail.skip(4) =~= bs@.skip(p2 as int));
                        }
                        Some((c, p2))
                    },
                    None => {
                        // unreachable: the range test matches `is_scalar`
                        assert(false);
                        None
                    },
                }
            } else {
                proof {
                    lemma_is_scalar_range(u);
                }
                None
            }
        },
    }
}

/// Splitting a character count splits the decode at the boundary.
proof fn lemma_dec_chars_split(bs: Seq<u8>, i: nat, j: nat)
    ensures
        dec_chars(bs, i + j) == (match dec_chars(bs, i) {
            Some((s1, r1)) => match dec_chars(r1, j) {
                Some((s2, r2)) => Some((s1 + s2, r2)),
                None => None,
            },
            None => None,
        }),
    decreases i,
{
    if i == 0 {
        match dec_chars(bs, j) {
            Some((s2, r2)) => {
                assert(Seq::<char>::empty() + s2 =~= s2);
            },
            None => {},
        }
    } else {
        match dec_char(bs) {
            Some((c, r1)) => {
                lemma_dec_chars_split(r1, (i - 1) as nat, j);
                match dec_chars(r1, ((i - 1) + j) as nat) {
                    Some((s, r2)) => {
                        match dec_chars(r1, (i - 1) as nat) {
                            Some((s1, rm)) => {
                                match dec_chars(rm, j) {
                                    Some((s2, r3)) => {
                                        assert(seq![c] + (s1 + s2) =~= (seq![c] + s1) + s2);
                                    },
                                    None => {},
                                }
                            },
                            None => {},
                        }
                    },
                    None => {},
                }
            },
            None => {},
        }
    }
}

/// Reads the length-prefixed string at `pos`, and the position after it.
fn read_string_at(bs: &Vec<u8>, pos: usize) -> (r: Option<(String, usize)>)
    requires
        pos <= bs@.len(),
    ensures
        (r matches Some(p) ==> pos <= p.1 <= bs@.len() && dec_string(bs@.skip(pos as int))
            == Some((p.0@, bs@.skip(p.1 as int)))),
        (r is None ==> dec_string(bs@.skip(pos as int)) is None),
{
    let ghost tail = bs@.skip(pos as int);
    match read_le(bs, pos, 8) {
        None => {
            assert(tail.len() < 8);
            None
        },
        Some((nv, start)) => {
            proof {
                assert(tail.take(8) =~= bs@.subrange(pos as int, pos + 8));
                assert(tail.skip(8) =~= bs@.skip(start as int));
            }
            let ghost chars_at = |p: int| bs@.skip(p);
            let mut acc: Vec<char> = Vec::new();
            let mut p: usize = start;
            let mut i: u64 = 0;
            while i < nv
                invariant
                    i <= nv,
                    pos + 8 == start <= p <= bs@.len(),
                    nv as int == le_value(bs@.skip(pos as int).take(8)),
                    dec_chars(bs@.skip(start as int), i as nat) == Some(
                        (acc@, bs@.skip(p as int)),
                    ),
                decreases nv - i,
            {
                let ghost acc_old = acc@;
                let ghost p_old = p as int;
                match read_char_at(bs, p) {
                    Some((c, p2)) => {
                        acc.push(c);
                        p = p2;
                        i = i + 1;
                        proof {
                            lemma_dec_chars_split(bs@.skip(start as int), (i - 1) as nat, 1);
                            assert(dec_chars(bs@.skip(p_old), 1) == Some(
                                (seq![c], bs@.skip(p as int)),
                            )) by {
                                assert(dec_chars(bs@.skip(p as int), 0) == Some(
                                    (Seq::<char>::empty(), bs@.skip(p as int)),
                                ));
                                assert(seq![c] + Seq::<char>::empty() =~= seq![c]);
                            }
                            assert(acc@ =~= acc_old + seq![c]);
                        }
                    },
                    None => {
                        proof {
                            assert(bs@.skip(pos as int).len() >= 8);
                            assert(bs@.skip(pos as int).skip(8) =~= bs@.skip(start as int));
                            lemma_dec_chars_split(
                                bs@.skip(start as int),
                                i as nat,
                                (nv - i) as nat,
                            );
                            assert(dec_chars(bs@.skip(p as int), (nv - i) as nat) is None);
                        }
                        return None;
                    },
                }
            }
            let s = string_from_chars(&acc);
            Some((s, p))
        },
    }
}

/// Reads the abbreviation slot at `pos`, and the position after it.
fn read_slot_at(bs: &Vec<u8>, pos: usize) -> (r: Option<(Option<String>, usize)>)
    requires
        pos <= bs@.len(),
    ensures
        (r matches Some(p) ==> pos <= p.1 <= bs@.len() && dec_slot(bs@.skip(pos as int)) == Some(
            (opt_view(p.0), bs@.skip(p.1 as int)),
        )),
        (r is None ==> dec_slot(bs@.skip(pos as int)) is None),
{
    let ghost tail = bs@.skip(pos as int);
    if pos == bs.len() {
        assert(tail.len() == 0);
        return None;
    }
    let tag = bs[pos];
    assert(tail[0] == tag);
    if tag == 0 {
        assert(tail.drop_first() =~= bs@.skip(pos + 1));
        Some((None, pos + 1))
    } else if tag == 1 {
        assert(tail.drop_first() =~= bs@.skip(pos + 1));
        match read_string_at(bs, pos + 1) {
            Some((s, p2)) => Some((Some(s), p2)),
            None => None,
        }
    } else {
        None
    }
}

/// Reads the record at `pos`, and the position after it.
fn read_record_at(bs: &Vec<u8>, pos: usize) -> (r: Option<(Journal, usize)>)
    requires
        pos <= bs@.len(),
    ensures
        (r matches Some(p) ==> pos <= p.1 <= bs@.len() && dec_record(bs@.skip(pos as int))
            == Some((p.0@, bs@.skip(p.1 as int)))),
        (r is None ==> dec_record(bs@.skip(pos as int)) is None),
{
    match read_string_at(bs, pos) {
        None => None,
        Some((name, p1)) => match read_slot_at(bs, p1) {
            None => None,
            Some((abbr_1, p2)) => match read_slot_at(bs, p2) {
                None => None,
                Some((abbr_2, p3)) => match read_slot_at(bs, p3) {
                    None => None,
                    Some((abbr_3, p4)) => {
                        let j = Journal { name, abbr_1, abbr_2, abbr_3 };
                        Some((j, p4))
                    },
                },
            },
        },
    }
}

/// Splitting a record count splits the decode at the boundary.
proof fn lemma_dec_records_split(bs: Seq<u8>, i: nat, j: nat)
    ensures
        dec_records(bs, i + j) == (match dec_records(bs, i) {
            Some((s1, r1)) => match dec_records(r1, j) {
                Some((s2, r2)) => Some((s1 + s2, r2)),
                None => None,
            },
            None => None,
        }),
    decreases i,
{
    if i == 0 {
        match dec_records(bs, j) {
            Some((s2, r2)) => {
                assert(Seq::<JournalView>::empty() + s2 =~= s2);
            },
            None => {},
        }
    } else {
        match dec_record(bs) {
            Some((c, r1)) => {
                lemma_dec_records_split(r1, (i - 1) as nat, j);
                match dec_records(r1, ((i - 1) + j) as nat) {
                    Some((s, r2)) => {
                        match dec_records(r1, (i - 1) as nat) {
                            Some((s1, rm)) => {
                                match dec_records(rm, j) {
                                    Some((s2, r3)) => {
                                        assert(seq![c] + (s1 + s2) =~= (seq![c] + s1) + s2);
                                    },
                                    None => {},
                                }
                            },
                            None => {},
                        }
                    },
                    None => {},
                }
            },
            None => {},
        }
    }
}

/// Deserializes a payload back into its record sequence: the exact sequence
/// the payload encodes, or a decode failure when the bytes are not exactly
/// one encoded dataset.
pub fn decode_dataset(bs: &Vec<u8>) -> (r: Result<Vec<Journal>, DataError>)
    ensures
        (r matches Ok(v) ==> decode_spec(bs@) == Some(v.deep_view())),
        (r matches Err(e) ==> decode_spec(bs@) is None && e is DecodeFailure),
{
    proof {
        assert(bs@.skip(0) =~= bs@);
    }
    match read_le(bs, 0, 8) {
        None => {
            assert(bs@.len() < 8);
            Err(DataError::DecodeFailure)
        },
        Some((nv, start)) => {
            proof {
                assert(bs@.take(8) =~= bs@.subrange(0, 8));
            }
            let mut out: Vec<Journal> = Vec::new();
            let mut p: usize = start;
            let mut i: u64 = 0;
            while i < nv
                invariant
                    i <= nv,
                    8 == start <= p <= bs@.len(),
                    nv as int == le_value(bs@.take(8)),
                    dec_records(bs@.skip(start as int), i as nat) == Some(
                        (out.deep_view(), bs@.skip(p as int)),
                    ),
                decreases nv - i,
            {
                let ghost out_old = out.deep_view();
                let ghost p_old = p as int;
                match read_record_at(bs, p) {
                    Some((j, p2)) => {
                        let ghost jv = j@;
                        out.push(j);
                        p = p2;
                        i = i + 1;
                        proof {
                            lemma_dec_records_split(bs@.skip(start as int), (i - 1) as nat, 1);
                            assert(dec_records(bs@.skip(p_old), 1) == Some(
                                (seq![jv], bs@.skip(p as int)),
                            )) by {
                                assert(dec_records(bs@.skip(p as int), 0) == Some(
                                    (Seq::<JournalView>::empty(), bs@.skip(p as int)),
                                ));
                                assert(seq![jv] + Seq::<JournalView>::empty() =~= seq![jv]);
                            }
                            assert(out.deep_view() =~~= out_old + seq![jv]);
                        }
                    },
                    None => {
                        proof {
                            assert(bs@.len() >= 8);
                            assert(bs@.skip(8) =~= bs@.skip(start as int));
                            lemma_dec_records_split(
                                bs@.skip(start as int),
                                i as nat,
                                (nv - i) as nat,
                            );
                            assert(dec_records(bs@.skip(p as int), (nv - i) as nat) is None);
                        }
                        return Err(DataError::DecodeFailure);
                    },
                }
            }
            if p == bs.len() {
                assert(bs@.skip(p as int).len() == 0);
                Ok(out)
            } else {
                assert(bs@.skip(p as int).len() != 0);
                Err(DataError::DecodeFailure)
            }
        },
    }
}

} // verus!
