use vstd::prelude::*;

use crate::models::{entries_model, entry_model, ServerConfig};

verus! {

/// Byte that ends one persisted subscription record.
pub const NL_BYTE: u8 = 10;

/// Sign bytes of a persisted follow criterion.
pub const PLUS_BYTE: u8 = 43;

pub const MINUS_BYTE: u8 = 45;

pub open spec fn pow10(n: nat) -> int
    decreases n,
{
    if n == 0 {
        1
    } else {
        10 * pow10((n - 1) as nat)
    }
}

pub proof fn lemma_pow10_pos(n: nat)
    ensures
        pow10(n) >= 1,
    decreases n,
{
    if n > 0 {
        lemma_pow10_pos((n - 1) as nat);
    }
}

pub proof fn lemma_pow10_20()
    ensures
        pow10(20) == 100000000000000000000,
{
    assert(pow10(0) == 1);
    assert(pow10(1) == 10);
    assert(pow10(2) == 100);
    assert(pow10(3) == 1000);
    assert(pow10(4) == 10000);
    assert(pow10(5) == 100000);
    assert(pow10(6) == 1000000);
    assert(pow10(7) == 10000000);
    assert(pow10(8) == 100000000);
    assert(pow10(9) == 1000000000);
    assert(pow10(10) == 10000000000);
    assert(pow10(11) == 100000000000);
    assert(pow10(12) == 1000000000000);
    assert(pow10(13) == 10000000000000);
    assert(pow10(14) == 100000000000000);
    assert(pow10(15) == 1000000000000000);
    assert(pow10(16) == 10000000000000000);
    assert(pow10(17) == 100000000000000000);
    assert(pow10(18) == 1000000000000000000);
    assert(pow10(19) == 10000000000000000000);
    assert(pow10(20) == 100000000000000000000);
}

pub open spec fn is_digit_byte(b: u8) -> bool {
    48 <= b <= 57
}

pub open spec fn all_digit_bytes(s: Seq<u8>) -> bool {
    forall|j: int| 0 <= j < s.len() ==> is_digit_byte(#[trigger] s[j])
}

/// The integer a sequence of decimal digit bytes denotes.
pub open spec fn val_digits(s: Seq<u8>) -> int
    decreases s.len(),
{
    if s.len() == 0 {
        0
    } else {
        val_digits(s.drop_last()) * 10 + (s.last() - 48)
    }
}

/// The `w`-digit zero-padded decimal form of `n`.
pub open spec fn pad_digits(n: int, w: nat) -> Seq<u8>
    decreases w,
{
    if w == 0 {
        Seq::empty()
    } else {
        pad_digits(n / 10, (w - 1) as nat).push((48 + n % 10) as u8)
    }
}

pub proof fn lemma_pad_digits_props(n: int, w: nat)
    requires
        0 <= n < pow10(w),
    ensures
        pad_digits(n, w).len() == w,
        all_digit_bytes(pad_digits(n, w)),
        val_digits(pad_digits(n, w)) == n,
    decreases w,
{
    if w > 0 {
        lemma_pow10_pos((w - 1) as nat);
        assert(n / 10 < pow10((w - 1) as nat));
        lemma_pad_digits_props(n / 10, (w - 1) as nat);
        let p = pad_digits(n, w);
        let q = pad_digits(n / 10, (w - 1) as nat);
        assert(p == q.push((48 + n % 10) as u8));
        assert(p.drop_last() =~= q);
        assert(p.last() == (48 + n % 10) as u8);
        assert(forall|j: int| 0 <= j < p.len() - 1 ==> p[j] == q[j]);
        assert(all_digit_bytes(p));
        assert(val_digits(p) == val_digits(q) * 10 + n % 10);
    }
}

/// Reads `w` decimal digit bytes starting at `pos` as an integer; nothing if
/// the bytes run out, a byte is not a digit, or the value does not fit.
pub open spec fn spec_parse_padded(data: Seq<u8>, pos: int, w: int) -> Option<u64> {
    if pos < 0 || w < 0 || pos + w > data.len() {
        None
    } else {
        let sub = data.subrange(pos, pos + w);
        if all_digit_bytes(sub) && val_digits(sub) <= 0xFFFF_FFFF_FFFF_FFFFu64 {
            Some(val_digits(sub) as u64)
        } else {
            None
        }
    }
}

pub proof fn lemma_parse_padded_of_pad(data: Seq<u8>, pos: int, n: int, w: nat)
    requires
        0 <= n < pow10(w),
        n <= 0xFFFF_FFFF_FFFF_FFFFu64,
        0 <= pos,
        pos + w <= data.len(),
        data.subrange(pos, pos + w) == pad_digits(n, w),
    ensures
        spec_parse_padded(data, pos, w as int) == Some(n as u64),
{
    lemma_pad_digits_props(n, w);
}

/// The magnitude of a criterion, as an unbounded integer.
pub open spec fn abs_mag(v: i64) -> int {
    if v >= 0 {
        v as int
    } else {
        -(v as int)
    }
}

pub open spec fn sign_byte(v: i64) -> u8 {
    if v >= 0 {
        PLUS_BYTE
    } else {
        MINUS_BYTE
    }
}

/// One persisted follow criterion: a sign byte and 20 digits of magnitude.
pub open spec fn spec_encode_id(v: i64) -> Seq<u8> {
    seq![sign_byte(v)] + pad_digits(abs_mag(v), 20)
}

pub open spec fn spec_encode_ids(ids: Seq<i64>) -> Seq<u8>
    decreases ids.len(),
{
    if ids.len() == 0 {
        Seq::empty()
    } else {
        spec_encode_id(ids.first()) + spec_encode_ids(ids.drop_first())
    }
}

/// One persisted subscription record: tenant key and destination channel as
/// 20-digit decimal strings, the criteria, and a final newline.
pub open spec fn spec_encode_entry(e: (u64, u64, Seq<i64>)) -> Seq<u8> {
    pad_digits(e.0 as int, 20) + pad_digits(e.1 as int, 20) + spec_encode_ids(e.2) + seq![NL_BYTE]
}

/// The persisted form of a whole registry: its records in order.
pub open spec fn spec_encode(s: Seq<(u64, u64, Seq<i64>)>) -> Seq<u8>
    decreases s.len(),
{
    if s.len() == 0 {
        Seq::empty()
    } else {
        spec_encode_entry(s.first()) + spec_encode(s.drop_first())
    }
}

/// Reads one persisted criterion at `pos`: a sign byte, then 20 digits whose
/// value must fit the criterion type (a minus sign demands a nonzero
/// magnitude, so each criterion has one persisted form).
pub open spec fn spec_parse_id(data: Seq<u8>, pos: int) -> Option<i64> {
    if pos < 0 || pos + 21 > data.len() {
        None
    } else {
        let sb = data[pos];
        match spec_parse_padded(data, pos + 1, 20) {
            None => None,
            Some(mag) => if sb == PLUS_BYTE {
                if mag <= 0x7FFF_FFFF_FFFF_FFFFu64 {
                    Some(mag as i64)
                } else {
                    None
                }
            } else if sb == MINUS_BYTE {
                if 1 <= mag <= 0x8000_0000_0000_0000u64 {
                    Some((-(mag as int)) as i64)
                } else {
                    None
                }
            } else {
                None
            },
        }
    }
}

/// Reads criteria at `pos` until the record's final newline; nothing if the
/// bytes run out or a criterion is malformed. Returns the criteria and the
/// position just past the newline.
pub open spec fn spec_parse_ids(data: Seq<u8>, pos: int) -> Option<(Seq<i64>, int)>
    decreases data.len() - pos,
{
    if pos < 0 || pos >= data.len() {
        None
    } else if data[pos] == NL_BYTE {
        Some((Seq::empty(), pos + 1))
    } else if pos + 21 > data.len() {
        None
    } else {
        match spec_parse_id(data, pos) {
            None => None,
            Some(v) => match spec_parse_ids(data, pos + 21) {
                None => None,
                Some((rest, next)) => Some((seq![v] + rest, next)),
            },
        }
    }
}

/// A subscription record the load path accepts: tenant key, destination and
/// criteria all parse, and the criteria form a non-empty duplicate-free set.
pub open spec fn spec_parse_entry(data: Seq<u8>, pos: int) -> Option<((u64, u64, Seq<i64>), int)> {
    if pos < 0 || pos + 40 > data.len() {
        None
    } else {
        match (spec_parse_padded(data, pos, 20), spec_parse_padded(data, pos + 20, 20)) {
            (Some(t), Some(c)) => match spec_parse_ids(data, pos + 40) {
                None => None,
                Some((ids, next)) => if ids.len() >= 1 && ids.no_duplicates() {
                    Some(((t, c, ids), next))
                } else {
                    None
                },
            },
            _ => None,
        }
    }
}

/// The position just past the next newline at or after `pos`: where the
/// load path resumes after skipping an unparsable record.
pub open spec fn spec_find_nl(data: Seq<u8>, pos: int) -> int
    decreases data.len() - pos,
{
    if pos < 0 || pos >= data.len() {
        pos
    } else if data[pos] == NL_BYTE {
        pos + 1
    } else {
        spec_find_nl(data, pos + 1)
    }
}

pub proof fn lemma_find_nl_bounds(data: Seq<u8>, pos: int)
    requires
        0 <= pos <= data.len(),
    ensures
        pos <= spec_find_nl(data, pos) <= data.len(),
        pos < data.len() ==> pos < spec_find_nl(data, pos),
    decreases data.len() - pos,
{
    if pos < data.len() && data[pos] != NL_BYTE {
        lemma_find_nl_bounds(data, pos + 1);
    }
}

/// Every record the persisted bytes hold, in order, unparsable records
/// skipped line by line.
pub open spec fn spec_decode_raw(data: Seq<u8>, pos: int) -> Seq<(u64, u64, Seq<i64>)>
    decreases data.len() - pos,
{
    if pos < 0 || pos >= data.len() {
        Seq::empty()
    } else {
        match spec_parse_entry(data, pos) {
            Some((e, next)) => if pos < next <= data.len() {
                seq![e] + spec_decode_raw(data, next)
            } else {
                seq![e]
            },
            None => {
                let nx = spec_find_nl(data, pos);
                if pos < nx <= data.len() {
                    spec_decode_raw(data, nx)
                } else {
                    Seq::empty()
                }
            },
        }
    }
}

/// Keeps the first record of each tenant key, dropping later duplicates, so
/// a loaded registry maps each tenant once.
pub open spec fn dedup_keys(s: Seq<(u64, u64, Seq<i64>)>, seen: Set<u64>) -> Seq<
    (u64, u64, Seq<i64>),
>
    decreases s.len(),
{
    if s.len() == 0 {
        s
    } else if seen.contains(s.first().0) {
        dedup_keys(s.drop_first(), seen)
    } else {
        seq![s.first()] + dedup_keys(s.drop_first(), seen.insert(s.first().0))
    }
}

/// What loading persisted bytes yields: the records in file order, each
/// tenant key kept once.
pub open spec fn spec_decode(data: Seq<u8>) -> Seq<(u64, u64, Seq<i64>)> {
    dedup_keys(spec_decode_raw(data, 0), Set::empty())
}

/// A record the save path will write and the load path must accept: at
/// least one criterion, none repeated.
pub open spec fn valid_entry(e: (u64, u64, Seq<i64>)) -> bool {
    e.2.len() >= 1 && e.2.no_duplicates()
}

pub open spec fn flat_unique(s: Seq<(u64, u64, Seq<i64>)>) -> bool {
    forall|i: int, j: int| 0 <= i < j < s.len() ==> s[i].0 != s[j].0
}

/// The byte length of one persisted record.
pub open spec fn entry_len(e: (u64, u64, Seq<i64>)) -> int {
    41 + 21 * (e.2.len() as int)
}

pub proof fn lemma_pad_digits_len(n: int, w: nat)
    ensures
        pad_digits(n, w).len() == w,
    decreases w,
{
    if w > 0 {
        lemma_pad_digits_len(n / 10, (w - 1) as nat);
    }
}

pub proof fn lemma_encode_ids_len(ids: Seq<i64>)
    ensures
        spec_encode_ids(ids).len() == 21 * ids.len(),
    decreases ids.len(),
{
    if ids.len() > 0 {
        lemma_pad_digits_len(abs_mag(ids.first()), 20);
        lemma_encode_ids_len(ids.drop_first());
    }
}

pub proof fn lemma_encode_entry_len(e: (u64, u64, Seq<i64>))
    ensures
        spec_encode_entry(e).len() == entry_len(e),
{
    lemma_pad_digits_len(e.0 as int, 20);
    lemma_pad_digits_len(e.1 as int, 20);
    lemma_encode_ids_len(e.2);
}

proof fn lemma_parse_id_of_encoded(data: Seq<u8>, pos: int, v: i64)
    requires
        0 <= pos,
        pos + 21 <= data.len(),
        data.subrange(pos, pos + 21) == spec_encode_id(v),
    ensures
        spec_parse_id(data, pos) == Some(v),
{
    lemma_pow10_20();
    lemma_pad_digits_len(abs_mag(v), 20);
    let sub = data.subrange(pos, pos + 21);
    assert(data[pos] == sub[0]);
    assert(sub[0] == sign_byte(v));
    assert(data.subrange(pos + 1, pos + 21) =~= sub.subrange(1, 21));
    assert(sub.subrange(1, 21) =~= pad_digits(abs_mag(v), 20));
    assert(0 <= abs_mag(v) < pow10(20));
    lemma_parse_padded_of_pad(data, pos + 1, abs_mag(v), 20);
    assert(spec_parse_padded(data, pos + 1, 20) == Some(abs_mag(v) as u64));
    if v >= 0 {
        assert(abs_mag(v) <= 0x7FFF_FFFF_FFFF_FFFFu64);
    } else {
        assert(1 <= abs_mag(v) <= 0x8000_0000_0000_0000u64);
        assert((-(abs_mag(v) as u64 as int)) as i64 == v);
    }
}

proof fn lemma_parse_ids_of_encoded(data: Seq<u8>, pos: int, ids: Seq<i64>)
    requires
        0 <= pos,
        pos + 21 * ids.len() + 1 <= data.len(),
        data.subrange(pos, pos + 21 * ids.len()) == spec_encode_ids(ids),
        data[pos + 21 * ids.len()] == NL_BYTE,
    ensures
        spec_parse_ids(data, pos) == Some((ids, pos + 21 * ids.len() + 1)),
    decreases ids.len(),
{
    lemma_encode_ids_len(ids);
    if ids.len() == 0 {
        assert(data[pos] == NL_BYTE);
    } else {
        let head = spec_encode_id(ids.first());
        let tail = spec_encode_ids(ids.drop_first());
        lemma_pad_digits_len(abs_mag(ids.first()), 20);
        assert(head.len() == 21);
        lemma_encode_ids_len(ids.drop_first());
        assert(spec_encode_ids(ids) == head + tail);
        let sub = data.subrange(pos, pos + 21 * ids.len());
        assert(data.subrange(pos, pos + 21) =~= head) by {
            assert(forall|k: int| 0 <= k < 21 ==> data[pos + k] == sub[k] && sub[k] == head[k]);
        }
        lemma_parse_id_of_encoded(data, pos, ids.first());
        assert(data[pos] == head[0]);
        assert(head[0] == sign_byte(ids.first()));
        assert(data[pos] != NL_BYTE);
        assert(data.subrange(pos + 21, pos + 21 + 21 * ids.drop_first().len()) =~= tail) by {
            assert(forall|k: int|
                0 <= k < tail.len() ==> data[pos + 21 + k] == sub[21 + k] && sub[21 + k] == tail[k]);
        }
        assert(data[pos + 21 + 21 * ids.drop_first().len()] == NL_BYTE);
        lemma_parse_ids_of_encoded(data, pos + 21, ids.drop_first());
        assert(seq![ids.first()] + ids.drop_first() =~= ids);
    }
}

proof fn lemma_parse_entry_of_encoded(data: Seq<u8>, pos: int, e: (u64, u64, Seq<i64>))
    requires
        0 <= pos,
        valid_entry(e),
        pos + entry_len(e) <= data.len(),
        data.subrange(pos, pos + entry_len(e)) == spec_encode_entry(e),
    ensures
        spec_parse_entry(data, pos) == Some((e, pos + entry_len(e))),
{
    lemma_pow10_20();
    lemma_encode_entry_len(e);
    let pt = pad_digits(e.0 as int, 20);
    let pc = pad_digits(e.1 as int, 20);
    let pi = spec_encode_ids(e.2);
    lemma_pad_digits_len(e.0 as int, 20);
    lemma_pad_digits_len(e.1 as int, 20);
    lemma_encode_ids_len(e.2);
    let sub = data.subrange(pos, pos + entry_len(e));
    assert(sub == pt + pc + pi + seq![NL_BYTE]);
    assert(data.subrange(pos, pos + 20) =~= pt) by {
        assert(forall|k: int| 0 <= k < 20 ==> data[pos + k] == sub[k] && sub[k] == pt[k]);
    }
    assert(data.subrange(pos + 20, pos + 40) =~= pc) by {
        assert(forall|k: int| 0 <= k < 20 ==> data[pos + 20 + k] == sub[20 + k] && sub[20 + k]
            == pc[k]);
    }
    assert(data.subrange(pos + 40, pos + 40 + 21 * e.2.len()) =~= pi) by {
        assert(forall|k: int|
            0 <= k < pi.len() ==> data[pos + 40 + k] == sub[40 + k] && sub[40 + k] == pi[k]);
    }
    assert(data[pos + 40 + 21 * (e.2.len() as int)] == sub[40 + 21 * (e.2.len() as int)]);
    assert(sub[40 + 21 * (e.2.len() as int)] == NL_BYTE);
    lemma_parse_padded_of_pad(data, pos, e.0 as int, 20);
    lemma_parse_padded_of_pad(data, pos + 20, e.1 as int, 20);
    lemma_parse_ids_of_encoded(data, pos + 40, e.2);
}

proof fn lemma_decode_raw_of_encoded(data: Seq<u8>, pos: int, entries: Seq<(u64, u64, Seq<i64>)>)
    requires
        0 <= pos <= data.len(),
        forall|i: int| 0 <= i < entries.len() ==> valid_entry(#[trigger] entries[i]),
        data.subrange(pos, data.len() as int) == spec_encode(entries),
    ensures
        spec_decode_raw(data, pos) == entries,
    decreases entries.len(),
{
    if entries.len() == 0 {
        assert(data.len() - pos == 0);
        assert(spec_decode_raw(data, pos) =~= entries);
    } else {
        let e = entries.first();
        let head = spec_encode_entry(e);
        let tail = spec_encode(entries.drop_first());
        lemma_encode_entry_len(e);
        let sub = data.subrange(pos, data.len() as int);
        assert(sub == head + tail);
        assert(pos + head.len() + tail.len() == data.len());
        let next = pos + entry_len(e);
        assert(data.subrange(pos, next) =~= head) by {
            assert(forall|k: int|
                0 <= k < head.len() ==> data[pos + k] == sub[k] && sub[k] == head[k]);
        }
        lemma_parse_entry_of_encoded(data, pos, e);
        assert(data.subrange(next, data.len() as int) =~= tail) by {
            assert(forall|k: int|
                0 <= k < tail.len() ==> data[next + k] == sub[head.len() + k] && sub[head.len() + k]
                    == tail[k]);
        }
        assert(forall|i: int|
            0 <= i < entries.drop_first().len() ==> valid_entry(
                #[trigger] entries.drop_first()[i],
            ));
        lemma_decode_raw_of_encoded(data, next, entries.drop_first());
        assert(spec_decode_raw(data, pos) == seq![e] + spec_decode_raw(data, next));
        assert(seq![e] + entries.drop_first() =~= entries);
    }
}

proof fn lemma_dedup_of_unique(s: Seq<(u64, u64, Seq<i64>)>, seen: Set<u64>)
    requires
        flat_unique(s),
        forall|i: int| 0 <= i < s.len() ==> !seen.contains((#[trigger] s[i]).0),
    ensures
        dedup_keys(s, seen) == s,
    decreases s.len(),
{
    if s.len() > 0 {
        let e = s.first();
        assert(!seen.contains(e.0));
        let seen2 = seen.insert(e.0);
        assert(forall|i: int|
            0 <= i < s.drop_first().len() ==> (#[trigger] s.drop_first()[i]) == s[i + 1]);
        assert(forall|i: int|
            0 <= i < s.drop_first().len() ==> !seen2.contains((#[trigger] s.drop_first()[i]).0));
        lemma_dedup_of_unique(s.drop_first(), seen2);
        assert(seq![e] + s.drop_first() =~= s);
    }
}

pub proof fn lemma_pow10_mono(a: nat, b: nat)
    requires
        a <= b,
    ensures
        pow10(a) <= pow10(b),
    decreases b,
{
    if a < b {
        lemma_pow10_mono(a, (b - 1) as nat);
        lemma_pow10_pos((b - 1) as nat);
    }
}

proof fn lemma_encode_ids_snoc(s: Seq<i64>, v: i64)
    ensures
        spec_encode_ids(s.push(v)) == spec_encode_ids(s) + spec_encode_id(v),
    decreases s.len(),
{
    if s.len() == 0 {
        assert(s.push(v).first() == v);
        assert(s.push(v).drop_first() =~= Seq::<i64>::empty());
        assert(spec_encode_ids(Seq::<i64>::empty()) == Seq::<u8>::empty());
        assert(spec_encode_ids(s) + spec_encode_id(v) =~= spec_encode_id(v));
        assert(spec_encode_ids(s.push(v)) =~= spec_encode_id(v));
    } else {
        assert(s.push(v).first() == s.first());
        assert(s.push(v).drop_first() =~= s.drop_first().push(v));
        lemma_encode_ids_snoc(s.drop_first(), v);
        assert(spec_encode_id(s.first()) + (spec_encode_ids(s.drop_first()) + spec_encode_id(v))
            =~= (spec_encode_id(s.first()) + spec_encode_ids(s.drop_first())) + spec_encode_id(v));
    }
}

proof fn lemma_encode_snoc(s: Seq<(u64, u64, Seq<i64>)>, e: (u64, u64, Seq<i64>))
    ensures
        spec_encode(s.push(e)) == spec_encode(s) + spec_encode_entry(e),
    decreases s.len(),
{
    if s.len() == 0 {
        assert(s.push(e).first() == e);
        assert(s.push(e).drop_first() =~= Seq::<(u64, u64, Seq<i64>)>::empty());
        assert(spec_encode(s) + spec_encode_entry(e) =~= spec_encode_entry(e));
        assert(spec_encode(s.push(e)) == spec_encode_entry(e) + spec_encode(
            s.push(e).drop_first(),
        ));
        assert(spec_encode(s.push(e).drop_first()) == Seq::<u8>::empty());
        assert(spec_encode_entry(e) + Seq::<u8>::empty() =~= spec_encode_entry(e));
    } else {
        assert(s.push(e).first() == s.first());
        assert(s.push(e).drop_first() =~= s.drop_first().push(e));
        lemma_encode_snoc(s.drop_first(), e);
        assert(spec_encode_entry(s.first()) + (spec_encode(s.drop_first()) + spec_encode_entry(e))
            =~= (spec_encode_entry(s.first()) + spec_encode(s.drop_first())) + spec_encode_entry(
            e,
        ));
    }
}

/// If a record's criteria parse, the resulting position lies strictly past
/// where parsing began and within the data.
proof fn lemma_parse_ids_bounds(data: Seq<u8>, pos: int)
    requires
        spec_parse_ids(data, pos) is Some,
    ensures
        pos < spec_parse_ids(data, pos)->Some_0.1 <= data.len(),
    decreases data.len() - pos,
{
    if data[pos] == NL_BYTE {
    } else {
        lemma_parse_ids_bounds(data, pos + 21);
    }
}

proof fn lemma_parse_entry_bounds(data: Seq<u8>, pos: int)
    requires
        spec_parse_entry(data, pos) is Some,
    ensures
        pos < spec_parse_entry(data, pos)->Some_0.1 <= data.len(),
{
    lemma_parse_ids_bounds(data, pos + 40);
}

/// The persistence round trip: saving a registry's records and loading them
/// back yields exactly the same records — every tenant keeps its criteria
/// and destination.
pub proof fn lemma_round_trip(entries: Seq<(u64, u64, Seq<i64>)>)
    requires
        flat_unique(entries),
        forall|i: int| 0 <= i < entries.len() ==> valid_entry(#[trigger] entries[i]),
    ensures
        spec_decode(spec_encode(entries)) == entries,
{
    let data = spec_encode(entries);
    assert(data.subrange(0, data.len() as int) =~= data);
    lemma_decode_raw_of_encoded(data, 0, entries);
    lemma_dedup_of_unique(entries, Set::empty());
}

fn push_padded(out: &mut Vec<u8>, n: u64, w: usize)
    requires
        (n as int) < pow10(w as nat),
    ensures
        final(out)@ == old(out)@ + pad_digits(n as int, w as nat),
    decreases w,
{
    if w == 0 {
        proof {
            assert(out@ =~= old(out)@ + pad_digits(n as int, 0));
        }
        return ;
    }
    proof {
        lemma_pow10_pos((w - 1) as nat);
    }
    push_padded(out, n / 10, w - 1);
    out.push(48 + (n % 10) as u8);
    proof {
        assert(out@ =~= old(out)@ + pad_digits(n as int, w as nat));
    }
}

/// The magnitude of a criterion, as the unsigned machine type.
fn mag_u64(v: i64) -> (r: u64)
    ensures
        r as int == abs_mag(v),
{
    if v >= 0 {
        v as u64
    } else {
        (-(v as i128)) as u64
    }
}

fn encode_entry(out: &mut Vec<u8>, tenant: u64, cfg: &ServerConfig)
    ensures
        final(out)@ == old(out)@ + spec_encode_entry((tenant, cfg.channel_id, cfg.follow_ids@)),
{
    proof {
        lemma_pow10_20();
    }
    push_padded(out, tenant, 20);
    push_padded(out, cfg.channel_id, 20);
    let ghost base = out@;
    let mut k: usize = 0;
    proof {
        assert(base + spec_encode_ids(cfg.follow_ids@.take(0)) =~= base);
    }
    while k < cfg.follow_ids.len()
        invariant
            k <= cfg.follow_ids@.len(),
            out@ == base + spec_encode_ids(cfg.follow_ids@.take(k as int)),
        decreases cfg.follow_ids@.len() - k,
    {
        let v = cfg.follow_ids[k];
        let ghost mid = out@;
        if v >= 0 {
            out.push(PLUS_BYTE);
        } else {
            out.push(MINUS_BYTE);
        }
        proof {
            lemma_pow10_20();
        }
        push_padded(out, mag_u64(v), 20);
        proof {
            assert(out@ =~= mid + spec_encode_id(v));
            lemma_encode_ids_snoc(cfg.follow_ids@.take(k as int), v);
            assert(cfg.follow_ids@.take(k as int).push(v) =~= cfg.follow_ids@.take(k + 1));
            assert(out@ =~= base + spec_encode_ids(cfg.follow_ids@.take(k + 1)));
        }
        k = k + 1;
    }
    out.push(NL_BYTE);
    proof {
        assert(cfg.follow_ids@.take(cfg.follow_ids@.len() as int) =~= cfg.follow_ids@);
        assert(out@ =~= old(out)@ + spec_encode_entry((tenant, cfg.channel_id, cfg.follow_ids@)));
    }
}

/// Serializes a full registry snapshot into its persisted byte form.
pub fn encode_entries(entries: &Vec<(u64, ServerConfig)>) -> (r: Vec<u8>)
    ensures
        r@ == spec_encode(entries_model(entries@)),
{
    let mut out: Vec<u8> = Vec::new();
    let mut i: usize = 0;
    proof {
        assert(entries_model(entries@.take(0)) =~= Seq::<(u64, u64, Seq<i64>)>::empty());
    }
    while i < entries.len()
        invariant
            i <= entries@.len(),
            out@ == spec_encode(entries_model(entries@.take(i as int))),
        decreases entries@.len() - i,
    {
        encode_entry(&mut out, entries[i].0, &entries[i].1);
        proof {
            lemma_encode_snoc(
                entries_model(entries@.take(i as int)),
                entry_model(entries@[i as int]),
            );
            assert(entries_model(entries@.take(i as int)).push(entry_model(entries@[i as int]))
                =~= entries_model(entries@.take(i + 1)));
        }
        i = i + 1;
    }
    proof {
        assert(entries@.take(entries@.len() as int) =~= entries@);
        assert(entries_model(entries@.take(entries@.len() as int)) =~= entries_model(entries@));
    }
    out
}

fn parse_padded(data: &Vec<u8>, pos: usize, w: usize) -> (r: Option<u64>)
    requires
        w <= 20,
    ensures
        r == spec_parse_padded(data@, pos as int, w as int),
{
    if pos > data.len() || w > data.len() - pos {
        return None;
    }
    let n = data.len();
    let ghost sub = data@.subrange(pos as int, pos as int + w as int);
    let mut acc: u128 = 0;
    let mut i: usize = 0;
    proof {
        assert(sub.take(0) =~= Seq::<u8>::empty());
    }
    while i < w
        invariant
            n == data@.len(),
            pos + w <= n,
            w <= 20,
            i <= w,
            sub == data@.subrange(pos as int, pos as int + w as int),
            forall|j: int| 0 <= j < i ==> is_digit_byte(#[trigger] sub[j]),
            acc == val_digits(sub.take(i as int)),
            0 <= acc < pow10(i as nat),
        decreases w - i,
    {
        let b = data[pos + i];
        proof {
            assert(sub[i as int] == data@[pos + i]);
        }
        if b < 48 || b > 57 {
            proof {
                assert(!is_digit_byte(sub[i as int]));
                assert(!all_digit_bytes(sub));
            }
            return None;
        }
        proof {
            lemma_pow10_mono((i + 1) as nat, 20);
            lemma_pow10_20();
            assert(sub.take(i + 1).drop_last() =~= sub.take(i as int));
            assert(sub.take(i + 1).last() == sub[i as int]);
        }
        acc = acc * 10 + ((b - 48) as u128);
        i = i + 1;
    }
    proof {
        assert(sub.take(w as int) =~= sub);
        assert(all_digit_bytes(sub));
    }
    if acc > 0xFFFF_FFFF_FFFF_FFFFu128 {
        None
    } else {
        Some(acc as u64)
    }
}

fn parse_id(data: &Vec<u8>, pos: usize) -> (r: Option<i64>)
    ensures
        r == spec_parse_id(data@, pos as int),
{
    if pos > data.len() || data.len() - pos < 21 {
        return None;
    }
    let sb = data[pos];
    match parse_padded(data, pos + 1, 20) {
        None => None,
        Some(mag) => if sb == PLUS_BYTE {
            if mag <= 0x7FFF_FFFF_FFFF_FFFFu64 {
                Some(mag as i64)
            } else {
                None
            }
        } else if sb == MINUS_BYTE {
            if 1 <= mag && mag <= 0x8000_0000_0000_0000u64 {
                if mag == 0x8000_0000_0000_0000u64 {
                    Some(i64::MIN)
                } else {
                    Some(-(mag as i64))
                }
            } else {
                None
            }
        } else {
            None
        },
    }
}

fn parse_ids(data: &Vec<u8>, pos: usize) -> (r: Option<(Vec<i64>, usize)>)
    requires
        pos <= data.len(),
    ensures
        match r {
            Some(pair) => spec_parse_ids(data@, pos as int) == Some((pair.0@, pair.1 as int)),
            None => spec_parse_ids(data@, pos as int) is None,
        },
{
    let mut out: Vec<i64> = Vec::new();
    let mut p: usize = pos;
    while p < data.len()
        invariant
            pos <= p <= data@.len(),
            spec_parse_ids(data@, pos as int) == (match spec_parse_ids(data@, p as int) {
                Some(pair) => Some((out@ + pair.0, pair.1)),
                None => None::<(Seq<i64>, int)>,
            }),
        decreases data@.len() - p,
    {
        if data[p] == NL_BYTE {
            proof {
                assert(spec_parse_ids(data@, p as int) == Some((Seq::<i64>::empty(), p + 1)));
                assert(out@ + Seq::<i64>::empty() =~= out@);
            }
            return Some((out, p + 1));
        }
        if data.len() - p < 21 {
            return None;
        }
        match parse_id(data, p) {
            None => {
                return None;
            },
            Some(v) => {
                let ghost out0 = out@;
                out.push(v);
                proof {
                    assert forall|rest: Seq<i64>| true implies out0 + (seq![v] + rest) =~= out@
                        + rest by {
                        assert(out@ =~= out0.push(v));
                    }
                }
            },
        }
        p = p + 21;
    }
    None
}

fn has_no_dups(ids: &Vec<i64>) -> (r: bool)
    ensures
        r == ids@.no_duplicates(),
{
    let mut i: usize = 0;
    while i < ids.len()
        invariant
            i <= ids@.len(),
            forall|a: int, b: int| 0 <= a < b < i ==> ids@[a] != ids@[b],
        decreases ids@.len() - i,
    {
        let mut j: usize = 0;
        while j < i
            invariant
                j <= i < ids@.len(),
                forall|a: int, b: int| 0 <= a < b < i ==> ids@[a] != ids@[b],
                forall|a: int| 0 <= a < j ==> ids@[a] != ids@[i as int],
            decreases i - j,
        {
            if ids[j] == ids[i] {
                proof {
                    assert(ids@[j as int] == ids@[i as int]);
                }
                return false;
            }
            j = j + 1;
        }
        i = i + 1;
    }
    true
}

fn parse_entry(data: &Vec<u8>, pos: usize) -> (r: Option<((u64, ServerConfig), usize)>)
    ensures
        match r {
            Some(pair) => spec_parse_entry(data@, pos as int) == Some(
                (((pair.0).0, (pair.0).1.channel_id, (pair.0).1.follow_ids@), pair.1 as int),
            ),
            None => spec_parse_entry(data@, pos as int) is None,
        },
{
    if pos > data.len() || data.len() - pos < 40 {
        return None;
    }
    let t = match parse_padded(data, pos, 20) {
        Some(t) => t,
        None => {
            return None;
        },
    };
    let c = match parse_padded(data, pos + 20, 20) {
        Some(c) => c,
        None => {
            return None;
        },
    };
    match parse_ids(data, pos + 40) {
        None => None,
        Some((ids, next)) => {
            if ids.len() == 0 {
                return None;
            }
            if !has_no_dups(&ids) {
                return None;
            }
            Some(((t, ServerConfig { follow_ids: ids, channel_id: c }), next))
        },
    }
}

fn find_nl(data: &Vec<u8>, pos: usize) -> (r: usize)
    requires
        pos <= data.len(),
    ensures
        r as int == spec_find_nl(data@, pos as int),
        pos <= r <= data.len(),
{
    let mut p: usize = pos;
    while p < data.len()
        invariant
            pos <= p <= data@.len(),
            spec_find_nl(data@, pos as int) == spec_find_nl(data@, p as int),
        decreases data@.len() - p,
    {
        if data[p] == NL_BYTE {
            return p + 1;
        }
        p = p + 1;
    }
    p
}

/// The tenant keys a decoded prefix already holds.
pub open spec fn key_set(s: Seq<(u64, u64, Seq<i64>)>) -> Set<u64> {
    Set::new(|t: u64| exists|i: int| 0 <= i < s.len() && s[i].0 == t)
}

proof fn lemma_key_set_push(s: Seq<(u64, u64, Seq<i64>)>, e: (u64, u64, Seq<i64>))
    ensures
        key_set(s.push(e)) =~= key_set(s).insert(e.0),
{
    assert forall|t: u64| #[trigger] key_set(s.push(e)).contains(t) implies key_set(s).insert(
        e.0,
    ).contains(t) by {
        let i = choose|i: int| 0 <= i < s.push(e).len() && s.push(e)[i].0 == t;
        if i < s.len() {
            assert(s[i].0 == t);
            assert(key_set(s).contains(t));
        } else {
            assert(t == e.0);
        }
    }
    assert forall|t: u64| key_set(s).insert(e.0).contains(t) implies #[trigger] key_set(
        s.push(e),
    ).contains(t) by {
        if t == e.0 {
            assert(s.push(e)[s.len() as int].0 == t);
        } else {
            let i = choose|i: int| 0 <= i < s.len() && s[i].0 == t;
            assert(s.push(e)[i].0 == t);
        }
    }
}

fn contains_key(out: &Vec<(u64, ServerConfig)>, t: u64) -> (r: bool)
    ensures
        r == key_set(entries_model(out@)).contains(t),
{
    let mut i: usize = 0;
    while i < out.len()
        invariant
            i <= out@.len(),
            forall|j: int| 0 <= j < i ==> (#[trigger] out@[j]).0 != t,
        decreases out@.len() - i,
    {
        if out[i].0 == t {
            proof {
                assert(entries_model(out@)[i as int].0 == t);
            }
            return true;
        }
        i = i + 1;
    }
    proof {
        assert forall|j: int| 0 <= j < entries_model(out@).len() implies (#[trigger] entries_model(
            out@,
        )[j]).0 != t by {
            assert(entries_model(out@)[j] == entry_model(out@[j]));
        }
    }
    false
}

/// Deserializes persisted bytes into registry entries: records in file
/// order, unparsable records skipped, each tenant key kept once, every
/// record's criteria non-empty and duplicate-free.
pub fn decode_entries(data: &Vec<u8>) -> (r: Vec<(u64, ServerConfig)>)
    ensures
        entries_model(r@) == spec_decode(data@),
        crate::registry::unique_keys(r@),
        forall|i: int|
            0 <= i < r@.len() ==> (#[trigger] r@[i]).1.follow_ids@.len() > 0
                && r@[i].1.follow_ids@.no_duplicates(),
{
    let mut out: Vec<(u64, ServerConfig)> = Vec::new();
    let mut p: usize = 0;
    proof {
        assert(entries_model(out@) =~= Seq::<(u64, u64, Seq<i64>)>::empty());
        assert(key_set(entries_model(out@)) =~= Set::<u64>::empty());
        assert(entries_model(out@) + dedup_keys(
            spec_decode_raw(data@, 0),
            key_set(entries_model(out@)),
        ) =~= dedup_keys(spec_decode_raw(data@, 0), key_set(entries_model(out@))));
    }
    while p < data.len()
        invariant
            p <= data@.len(),
            spec_decode(data@) == entries_model(out@) + dedup_keys(
                spec_decode_raw(data@, p as int),
                key_set(entries_model(out@)),
            ),
            crate::registry::unique_keys(out@),
            forall|i: int|
                0 <= i < out@.len() ==> (#[trigger] out@[i]).1.follow_ids@.len() > 0
                    && out@[i].1.follow_ids@.no_duplicates(),
        decreases data@.len() - p,
    {
        match parse_entry(data, p) {
            Some((te, next)) => {
                let (t, cfg) = te;
                let ghost e = (t, cfg.channel_id, cfg.follow_ids@);
                let ghost raw_p = spec_decode_raw(data@, p as int);
                proof {
                    lemma_parse_entry_bounds(data@, p as int);
                    assert(raw_p == seq![e] + spec_decode_raw(data@, next as int));
                    assert(raw_p.first() == e);
                    assert(raw_p.drop_first() =~= spec_decode_raw(data@, next as int));
                }
                let dup = contains_key(&out, t);
                if dup == false {
                    let ghost out0 = out@;
                    let ghost seen0 = key_set(entries_model(out0));
                    out.push((t, cfg));
                    proof {
                        assert(!seen0.contains(e.0));
                        assert(dedup_keys(raw_p, seen0) == seq![e] + dedup_keys(
                            raw_p.drop_first(),
                            seen0.insert(e.0),
                        ));
                        assert(entries_model(out@) =~= entries_model(out0).push(e));
                        assert(entries_model(out0) + (seq![e] + dedup_keys(
                            spec_decode_raw(data@, next as int),
                            seen0.insert(e.0),
                        )) =~= entries_model(out@) + dedup_keys(
                            spec_decode_raw(data@, next as int),
                            seen0.insert(e.0),
                        ));
                        lemma_key_set_push(entries_model(out0), e);
                        assert(key_set(entries_model(out@)) == seen0.insert(e.0));
                        assert(spec_decode(data@) == entries_model(out@) + dedup_keys(
                            spec_decode_raw(data@, next as int),
                            key_set(entries_model(out@)),
                        ));
                        assert forall|j: int| 0 <= j < out0.len() implies (#[trigger] out0[j]).0
                            != t by {
                            assert(entries_model(out0)[j] == entry_model(out0[j]));
                            if out0[j].0 == t {
                                assert(key_set(entries_model(out0)).contains(t));
                            }
                        }
                        assert(crate::registry::unique_keys(out@)) by {
                            assert(forall|j: int| 0 <= j < out0.len() ==> out@[j] == out0[j]);
                            assert(out@[out0.len() as int].0 == t);
                        }
                    }
                } else {
                    proof {
                        assert(dedup_keys(raw_p, key_set(entries_model(out@))) == dedup_keys(
                            raw_p.drop_first(),
                            key_set(entries_model(out@)),
                        ));
                    }
                }
                p = next;
            },
            None => {
                let ghost raw_p = spec_decode_raw(data@, p as int);
                let nx = find_nl(data, p);
                proof {
                    lemma_find_nl_bounds(data@, p as int);
                    assert(raw_p == spec_decode_raw(data@, nx as int));
                }
                p = nx;
            },
        }
    }
    proof {
        assert(spec_decode_raw(data@, p as int) =~= Seq::<(u64, u64, Seq<i64>)>::empty());
        assert(dedup_keys(
            Seq::<(u64, u64, Seq<i64>)>::empty(),
            key_set(entries_model(out@)),
        ) =~= Seq::<(u64, u64, Seq<i64>)>::empty());
        assert(entries_model(out@) + Seq::<(u64, u64, Seq<i64>)>::empty() =~= entries_model(out@));
    }
    out
}

} // verus!
