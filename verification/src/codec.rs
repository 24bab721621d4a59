use vstd::prelude::*;
use crate::value::SpecValue;

verus! {

// Tag and punctuation bytes of the bencode grammar.
pub const TAG_INT: u8 = 105; // 'i'
pub const TAG_LIST: u8 = 108; // 'l'
pub const TAG_DICT: u8 = 100; // 'd'
pub const TAG_END: u8 = 101; // 'e'
pub const COLON: u8 = 58; // ':'
pub const MINUS: u8 = 45; // '-'

/// Magnitude of the most negative signed 64-bit integer.
pub const I64_MIN_MAGNITUDE: u64 = 9223372036854775808;

pub open spec fn is_ascii_digit(b: u8) -> bool {
    48 <= b <= 57
}

/// Decimal digits of `n`, most significant first.
pub open spec fn dec_digits(n: nat) -> Seq<u8>
    decreases n,
{
    if n < 10 {
        seq![(48 + n) as u8]
    } else {
        dec_digits(n / 10).push((48 + n % 10) as u8)
    }
}

/// Decimal notation of `i`: a minus sign before the digits when negative.
pub open spec fn dec_int(i: int) -> Seq<u8> {
    if i < 0 {
        seq![MINUS] + dec_digits((-i) as nat)
    } else {
        dec_digits(i as nat)
    }
}

/// The number the digit sequence `ds` denotes in decimal.
pub open spec fn digits_val(ds: Seq<u8>) -> int
    decreases ds.len(),
{
    if ds.len() == 0 {
        0
    } else {
        digits_val(ds.drop_last()) * 10 + (ds.last() as int - 48)
    }
}

/// How many leading bytes of `s` are decimal digits.
pub open spec fn digit_prefix_len(s: Seq<u8>) -> nat
    decreases s.len(),
{
    if s.len() == 0 || !is_ascii_digit(s[0]) {
        0
    } else {
        1 + digit_prefix_len(s.drop_first())
    }
}

/// Encoding of a byte string: its length in decimal, a colon, the bytes.
pub open spec fn enc_bytes(b: Seq<u8>) -> Seq<u8> {
    dec_digits(b.len()) + seq![COLON] + b
}

/// Encoding of a term, entries emitted in the order the term holds them;
/// the canonical form is `spec_encode(norm(v))`.
pub open spec fn spec_encode(v: SpecValue) -> Seq<u8>
    decreases v, 0nat,
{
    match v {
        SpecValue::Int(i) => seq![TAG_INT] + dec_int(i) + seq![TAG_END],
        SpecValue::Bytes(b) => enc_bytes(b),
        SpecValue::List(vs) => seq![TAG_LIST] + enc_seq(vs) + seq![TAG_END],
        SpecValue::Dict(es) => seq![TAG_DICT] + enc_entries(es) + seq![TAG_END],
    }
}

pub open spec fn enc_seq(vs: Seq<SpecValue>) -> Seq<u8>
    decreases vs, 1nat,
{
    if vs.len() == 0 {
        Seq::empty()
    } else {
        spec_encode(vs[0]) + enc_seq(vs.drop_first())
    }
}

pub open spec fn enc_entries(es: Seq<(Seq<u8>, SpecValue)>) -> Seq<u8>
    decreases es, 1nat,
{
    if es.len() == 0 {
        Seq::empty()
    } else {
        enc_bytes(es[0].0) + spec_encode(es[0].1) + enc_entries(es.drop_first())
    }
}

/// Lexicographic byte order; `true` when `a` sorts no later than `b`.
pub open spec fn bytes_le(a: Seq<u8>, b: Seq<u8>) -> bool
    decreases a.len(),
{
    if a.len() == 0 {
        true
    } else if b.len() == 0 {
        false
    } else if a[0] < b[0] {
        true
    } else if a[0] > b[0] {
        false
    } else {
        bytes_le(a.drop_first(), b.drop_first())
    }
}

/// Insert entry `e` into `es` before the first entry whose key sorts
/// after (or equal to) `e`'s key.
pub open spec fn insert_entry(
    e: (Seq<u8>, SpecValue),
    es: Seq<(Seq<u8>, SpecValue)>,
) -> Seq<(Seq<u8>, SpecValue)>
    decreases es.len(),
{
    if es.len() == 0 {
        seq![e]
    } else if bytes_le(e.0, es[0].0) {
        seq![e] + es
    } else {
        seq![es[0]] + insert_entry(e, es.drop_first())
    }
}

/// Stable insertion sort of dictionary entries by key, ascending
/// lexicographic byte order.
pub open spec fn sort_entries(es: Seq<(Seq<u8>, SpecValue)>) -> Seq<(Seq<u8>, SpecValue)>
    decreases es.len(),
{
    if es.len() == 0 {
        es
    } else {
        insert_entry(es[0], sort_entries(es.drop_first()))
    }
}

/// The canonical form of a term: every dictionary's entries sorted by key,
/// recursively. Encoding a term always goes through this form.
pub open spec fn norm(v: SpecValue) -> SpecValue
    decreases v, 0nat,
{
    match v {
        SpecValue::Int(_) => v,
        SpecValue::Bytes(_) => v,
        SpecValue::List(vs) => SpecValue::List(norm_seq(vs)),
        SpecValue::Dict(es) => SpecValue::Dict(sort_entries(norm_entries(es))),
    }
}

pub open spec fn norm_seq(vs: Seq<SpecValue>) -> Seq<SpecValue>
    decreases vs, 1nat,
{
    if vs.len() == 0 {
        vs
    } else {
        seq![norm(vs[0])] + norm_seq(vs.drop_first())
    }
}

pub open spec fn norm_entries(es: Seq<(Seq<u8>, SpecValue)>) -> Seq<(Seq<u8>, SpecValue)>
    decreases es, 1nat,
{
    if es.len() == 0 {
        es
    } else {
        seq![(es[0].0, norm(es[0].1))] + norm_entries(es.drop_first())
    }
}

/// Entries stand in ascending lexicographic key order.
pub open spec fn entries_sorted(es: Seq<(Seq<u8>, SpecValue)>) -> bool {
    forall|i: int| 0 <= i < es.len() - 1 ==> bytes_le((#[trigger] es[i]).0, es[i + 1].0)
}

/// A term is canonical when every dictionary in it, at every depth,
/// holds its entries in ascending key order.
pub open spec fn canonical(v: SpecValue) -> bool
    decreases v, 0nat,
{
    match v {
        SpecValue::Int(_) => true,
        SpecValue::Bytes(_) => true,
        SpecValue::List(vs) => forall|i: int| 0 <= i < vs.len() ==> canonical(#[trigger] vs[i]),
        SpecValue::Dict(es) => entries_sorted(es) && forall|i: int|
            0 <= i < es.len() ==> canonical((#[trigger] es[i]).1),
    }
}

/// One decoding step for an integer body: `s` is what follows the `i` tag.
/// Accepts an optional minus sign and at least one digit, terminated by the
/// end marker, with the value in signed 64-bit range.
pub open spec fn dec_int_body(s: Seq<u8>) -> Option<(SpecValue, Seq<u8>)> {
    let neg = s.len() > 0 && s[0] == MINUS;
    let ds_start = if neg {
        s.drop_first()
    } else {
        s
    };
    let k = digit_prefix_len(ds_start);
    if k == 0 {
        None
    } else {
        let val = digits_val(ds_start.take(k as int));
        if ds_start.len() <= k || ds_start[k as int] != TAG_END {
            None
        } else if neg && val <= I64_MIN_MAGNITUDE || !neg && val <= i64::MAX {
            Some(
                (
                    SpecValue::Int(
                        if neg {
                            -val
                        } else {
                            val
                        },
                    ),
                    ds_start.skip(k + 1 as int),
                ),
            )
        } else {
            None
        }
    }
}

/// One decoding step for a byte string: a decimal length, a colon, then
/// exactly that many bytes, which must all be present.
pub open spec fn dec_str(s: Seq<u8>) -> Option<(SpecValue, Seq<u8>)> {
    let k = digit_prefix_len(s);
    if k == 0 {
        None
    } else {
        let len = digits_val(s.take(k as int));
        if s.len() <= k || s[k as int] != COLON {
            None
        } else {
            let body = s.skip(k + 1 as int);
            if body.len() < len {
                None
            } else {
                Some((SpecValue::Bytes(body.take(len as int)), body.skip(len as int)))
            }
        }
    }
}

/// The decoder: one term read from the front of `s`, with the unconsumed
/// remainder. `None` is a decode error: an unknown leading byte, a
/// malformed or out-of-range integer, a string longer than the remaining
/// input, or a list or dictionary not closed by the end marker.
///
/// `f` is recursion fuel; any `f >= s.len()` gives the same result, since
/// a term consumes at least one byte of `s` per unit spent.
pub open spec fn spec_decode(s: Seq<u8>, f: nat) -> Option<(SpecValue, Seq<u8>)>
    decreases f, 0nat,
{
    if s.len() == 0 {
        None
    } else if s[0] == TAG_INT {
        dec_int_body(s.drop_first())
    } else if s[0] == TAG_LIST {
        if f == 0 {
            None
        } else {
            match dec_list(s.drop_first(), (f - 1) as nat) {
                Some((vs, r)) => Some((SpecValue::List(vs), r)),
                None => None,
            }
        }
    } else if s[0] == TAG_DICT {
        if f == 0 {
            None
        } else {
            match dec_entries(s.drop_first(), (f - 1) as nat) {
                Some((es, r)) => Some((SpecValue::Dict(es), r)),
                None => None,
            }
        }
    } else {
        dec_str(s)
    }
}

/// Terms read until the end marker, which is consumed.
pub open spec fn dec_list(s: Seq<u8>, f: nat) -> Option<(Seq<SpecValue>, Seq<u8>)>
    decreases f, 1nat,
{
    if s.len() == 0 {
        None
    } else if s[0] == TAG_END {
        Some((Seq::empty(), s.drop_first()))
    } else if f == 0 {
        None
    } else {
        match spec_decode(s, f) {
            None => None,
            Some((v, r)) => match dec_list(r, (f - 1) as nat) {
                None => None,
                Some((vs, r2)) => Some((seq![v] + vs, r2)),
            },
        }
    }
}

/// Key-value pairs read until the end marker; every key must itself
/// decode to a byte string.
pub open spec fn dec_entries(s: Seq<u8>, f: nat) -> Option<(Seq<(Seq<u8>, SpecValue)>, Seq<u8>)>
    decreases f, 1nat,
{
    if s.len() == 0 {
        None
    } else if s[0] == TAG_END {
        Some((Seq::empty(), s.drop_first()))
    } else if f == 0 {
        None
    } else {
        match spec_decode(s, f) {
            Some((SpecValue::Bytes(k), r1)) => match spec_decode(r1, f) {
                None => None,
                Some((v, r2)) => match dec_entries(r2, (f - 1) as nat) {
                    None => None,
                    Some((es, r3)) => Some((seq![(k, v)] + es, r3)),
                },
            },
            _ => None,
        }
    }
}

/// Decoding at its natural fuel: the input's own length always suffices.
pub open spec fn spec_decode_top(s: Seq<u8>) -> Option<(SpecValue, Seq<u8>)> {
    spec_decode(s, s.len())
}

/// `digit_prefix_len` is `k` exactly when the first `k` bytes are digits
/// and the byte after them (if any) is not.
pub proof fn lemma_digit_prefix_len_is(s: Seq<u8>, k: nat)
    requires
        k <= s.len(),
        forall|j: int| 0 <= j < k ==> is_ascii_digit(#[trigger] s[j]),
        k == s.len() || !is_ascii_digit(s[k as int]),
    ensures
        digit_prefix_len(s) == k,
    decreases k,
{
    if k == 0 {
    } else {
        assert(is_ascii_digit(s[0]));
        assert forall|j: int| 0 <= j < k - 1 implies is_ascii_digit(#[trigger] s.drop_first()[j]) by {
            assert(s.drop_first()[j] == s[j + 1]);
        }
        if k < s.len() {
            assert(s.drop_first()[k - 1] == s[k as int]);
        }
        lemma_digit_prefix_len_is(s.drop_first(), (k - 1) as nat);
    }
}

/// The number a digit run denotes is nonnegative.
pub proof fn lemma_digits_val_nonneg(ds: Seq<u8>)
    requires
        forall|j: int| 0 <= j < ds.len() ==> is_ascii_digit(#[trigger] ds[j]),
    ensures
        digits_val(ds) >= 0,
    decreases ds.len(),
{
    if ds.len() > 0 {
        assert forall|j: int| 0 <= j < ds.drop_last().len() implies is_ascii_digit(
            #[trigger] ds.drop_last()[j],
        ) by {
            assert(ds.drop_last()[j] == ds[j]);
        }
        lemma_digits_val_nonneg(ds.drop_last());
    }
}

/// Appending digits never shrinks the denoted number.
pub proof fn lemma_digits_val_prefix(ds: Seq<u8>, k: int)
    requires
        forall|j: int| 0 <= j < ds.len() ==> is_ascii_digit(#[trigger] ds[j]),
        0 <= k <= ds.len(),
    ensures
        digits_val(ds.take(k)) <= digits_val(ds),
    decreases ds.len() - k,
{
    if k == ds.len() {
        assert(ds.take(k) =~= ds);
    } else {
        let t1 = ds.take(k + 1);
        assert(t1.drop_last() =~= ds.take(k));
        assert forall|j: int| 0 <= j < ds.take(k).len() implies is_ascii_digit(
            #[trigger] ds.take(k)[j],
        ) by {
            assert(ds.take(k)[j] == ds[j]);
        }
        lemma_digits_val_nonneg(ds.take(k));
        assert(digits_val(t1) == digits_val(ds.take(k)) * 10 + (t1.last() as int - 48));
        assert(digits_val(ds.take(k)) <= digits_val(t1));
        lemma_digits_val_prefix(ds, k + 1);
    }
}

/// A decimal numeral is nonempty and made of digits only.
pub proof fn lemma_dec_digits_shape(n: nat)
    ensures
        dec_digits(n).len() >= 1,
        forall|j: int| 0 <= j < dec_digits(n).len() ==> is_ascii_digit(#[trigger] dec_digits(n)[j]),
    decreases n,
{
    if n < 10 {
    } else {
        lemma_dec_digits_shape(n / 10);
        let pre = dec_digits(n / 10);
        assert forall|j: int| 0 <= j < dec_digits(n).len() implies is_ascii_digit(
            #[trigger] dec_digits(n)[j],
        ) by {
            if j < pre.len() {
                assert(dec_digits(n)[j] == pre[j]);
            } else {
                assert(dec_digits(n)[j] == (48 + n % 10) as u8);
            }
        }
    }
}

/// Reading a number's own numeral gives the number back.
pub proof fn lemma_digits_val_of_dec(n: nat)
    ensures
        digits_val(dec_digits(n)) == n,
    decreases n,
{
    if n < 10 {
        reveal_with_fuel(digits_val, 2);
        assert(dec_digits(n).drop_last() =~= Seq::<u8>::empty());
    } else {
        lemma_digits_val_of_dec(n / 10);
        let whole = dec_digits(n);
        assert(whole.drop_last() =~= dec_digits(n / 10));
        assert(whole.last() == (48 + n % 10) as u8);
        vstd::arithmetic::div_mod::lemma_fundamental_div_mod(n as int, 10);
        assert(digits_val(whole) == (n / 10) * 10 + (n % 10));
    }
}

/// Every encoding is at least two bytes, and its first byte is a tag or
/// a digit — never the end marker, a minus sign, or a colon.
pub proof fn lemma_enc_shape(v: SpecValue)
    ensures
        spec_encode(v).len() >= 2,
        spec_encode(v)[0] == TAG_INT || spec_encode(v)[0] == TAG_LIST || spec_encode(v)[0]
            == TAG_DICT || is_ascii_digit(spec_encode(v)[0]),
{
    match v {
        SpecValue::Int(_) => {}
        SpecValue::Bytes(b) => {
            lemma_dec_digits_shape(b.len());
            assert(spec_encode(v)[0] == dec_digits(b.len())[0]);
        }
        SpecValue::List(_) => {}
        SpecValue::Dict(_) => {}
    }
}

/// The encoding of a byte string is at least two bytes and starts with a
/// digit.
pub proof fn lemma_enc_bytes_shape(b: Seq<u8>)
    ensures
        enc_bytes(b).len() >= 2 + b.len(),
        is_ascii_digit(enc_bytes(b)[0]),
{
    lemma_dec_digits_shape(b.len());
    assert(enc_bytes(b)[0] == dec_digits(b.len())[0]);
}

} // verus!
