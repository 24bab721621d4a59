use vstd::prelude::*;
use crate::value::{SpecValue, Value, wf_val, lemma_deep_wf};
use crate::codec::{
    spec_decode, spec_decode_top, dec_list, dec_entries, dec_int_body, dec_str,
    digits_val, is_ascii_digit, spec_encode, enc_seq, enc_entries, enc_bytes, dec_digits,
    norm, norm_seq, norm_entries, sort_entries, insert_entry, TAG_INT, TAG_LIST, TAG_DICT,
    TAG_END, COLON, MINUS, entries_sorted, canonical, bytes_le, lemma_digit_prefix_len_is, lemma_digits_val_of_dec,
    lemma_dec_digits_shape, lemma_enc_shape, lemma_enc_bytes_shape,
};

verus! {

/// A byte-string encoding placed before any remainder decodes to exactly
/// that byte string, leaving the remainder.
proof fn lemma_decode_bytes(b: Seq<u8>, rest: Seq<u8>, f: nat)
    ensures
        spec_decode(enc_bytes(b) + rest, f) == Some((SpecValue::Bytes(b), rest)),
{
    let s = enc_bytes(b) + rest;
    let nd = dec_digits(b.len());
    lemma_dec_digits_shape(b.len());
    assert(s[0] == nd[0]);
    assert(is_ascii_digit(s[0]));
    assert(s[0] != TAG_INT && s[0] != TAG_LIST && s[0] != TAG_DICT);
    // The digit prefix is exactly the length numeral.
    assert forall|j: int| 0 <= j < nd.len() implies is_ascii_digit(#[trigger] s[j]) by {
        assert(s[j] == nd[j]);
    }
    assert(s[nd.len() as int] == COLON);
    lemma_digit_prefix_len_is(s, nd.len());
    let k = nd.len() as int;
    assert(s.take(k) =~= nd);
    lemma_digits_val_of_dec(b.len());
    assert(digits_val(s.take(k)) == b.len());
    let body = s.skip(k + 1);
    assert(body =~= b + rest);
    assert(body.len() >= b.len());
    assert(body.take(b.len() as int) =~= b);
    assert(body.skip(b.len() as int) =~= rest);
    assert(dec_str(s) == Some((SpecValue::Bytes(b), rest)));
}

/// An integer encoding placed before any remainder decodes back to the
/// integer, leaving the remainder.
proof fn lemma_decode_int(i: int, rest: Seq<u8>, f: nat)
    requires
        i64::MIN <= i <= i64::MAX,
    ensures
        spec_decode(spec_encode(SpecValue::Int(i)) + rest, f) == Some((SpecValue::Int(i), rest)),
{
    let s = spec_encode(SpecValue::Int(i)) + rest;
    let mag: nat = if i < 0 {
        (-i) as nat
    } else {
        i as nat
    };
    let nd = dec_digits(mag);
    lemma_dec_digits_shape(mag);
    lemma_digits_val_of_dec(mag);
    assert(s[0] == TAG_INT);
    let s1 = s.drop_first();
    if i < 0 {
        assert(s1 =~= seq![MINUS] + nd + seq![TAG_END] + rest);
        assert(s1[0] == MINUS);
        let ds = s1.drop_first();
        assert(ds =~= nd + seq![TAG_END] + rest);
        assert forall|j: int| 0 <= j < nd.len() implies is_ascii_digit(#[trigger] ds[j]) by {
            assert(ds[j] == nd[j]);
        }
        assert(ds[nd.len() as int] == TAG_END);
        assert(!is_ascii_digit(TAG_END));
        lemma_digit_prefix_len_is(ds, nd.len());
        let k = nd.len() as int;
        assert(ds.take(k) =~= nd);
        assert(digits_val(ds.take(k)) == mag);
        assert(ds.skip(k + 1) =~= rest);
        assert(dec_int_body(s1) == Some((SpecValue::Int(i), rest)));
    } else {
        assert(s1 =~= nd + seq![TAG_END] + rest);
        assert(is_ascii_digit(nd[0]));
        assert(s1[0] == nd[0]);
        assert(s1[0] != MINUS);
        assert forall|j: int| 0 <= j < nd.len() implies is_ascii_digit(#[trigger] s1[j]) by {
            assert(s1[j] == nd[j]);
        }
        assert(s1[nd.len() as int] == TAG_END);
        lemma_digit_prefix_len_is(s1, nd.len());
        let k = nd.len() as int;
        assert(s1.take(k) =~= nd);
        assert(digits_val(s1.take(k)) == mag);
        assert(s1.skip(k + 1) =~= rest);
        assert(dec_int_body(s1) == Some((SpecValue::Int(i), rest)));
    }
}

/// Decoding inverts encoding: a well-formed term's encoding, placed
/// before any remainder, decodes to exactly that term and remainder,
/// whenever the fuel covers the input.
pub proof fn lemma_decode_encode(u: SpecValue, rest: Seq<u8>, f: nat)
    requires
        wf_val(u),
        f >= spec_encode(u).len() + rest.len(),
    ensures
        spec_decode(spec_encode(u) + rest, f) == Some((u, rest)),
    decreases u, 0nat,
{
    let s = spec_encode(u) + rest;
    match u {
        SpecValue::Int(i) => {
            lemma_decode_int(i, rest, f);
        },
        SpecValue::Bytes(b) => {
            assert(s =~= enc_bytes(b) + rest);
            lemma_decode_bytes(b, rest, f);
        },
        SpecValue::List(vs) => {
            assert(s[0] == TAG_LIST);
            let inner = enc_seq(vs) + seq![TAG_END] + rest;
            assert(s.drop_first() =~= inner);
            assert(s.len() == 1 + inner.len());
            lemma_decode_encode_list(vs, rest, (f - 1) as nat);
            assert(dec_list(inner, (f - 1) as nat) == Some((vs, rest)));
        },
        SpecValue::Dict(es) => {
            assert(s[0] == TAG_DICT);
            let inner = enc_entries(es) + seq![TAG_END] + rest;
            assert(s.drop_first() =~= inner);
            assert(s.len() == 1 + inner.len());
            lemma_decode_encode_entries(es, rest, (f - 1) as nat);
            assert(dec_entries(inner, (f - 1) as nat) == Some((es, rest)));
        },
    }
}

/// Decoding inverts encoding for the elements of a list body.
proof fn lemma_decode_encode_list(vs: Seq<SpecValue>, rest: Seq<u8>, f: nat)
    requires
        forall|i: int| 0 <= i < vs.len() ==> wf_val(#[trigger] vs[i]),
        f >= enc_seq(vs).len() + 1 + rest.len(),
    ensures
        dec_list(enc_seq(vs) + seq![TAG_END] + rest, f) == Some((vs, rest)),
    decreases vs, 1nat,
{
    let s = enc_seq(vs) + seq![TAG_END] + rest;
    if vs.len() == 0 {
        assert(s[0] == TAG_END);
        assert(s.drop_first() =~= rest);
        assert(vs =~= Seq::<SpecValue>::empty());
    } else {
        let head = vs[0];
        let tail = vs.drop_first();
        let rest1 = enc_seq(tail) + seq![TAG_END] + rest;
        assert(s =~= spec_encode(head) + rest1);
        lemma_enc_shape(head);
        assert(s[0] == spec_encode(head)[0]);
        assert(s[0] != TAG_END);
        assert(s.len() >= 1);
        lemma_decode_encode(head, rest1, f);
        assert(spec_decode(s, f) == Some((head, rest1)));
        assert forall|i: int| 0 <= i < tail.len() implies wf_val(#[trigger] tail[i]) by {
            assert(tail[i] == vs[i + 1]);
        }
        lemma_decode_encode_list(tail, rest, (f - 1) as nat);
        assert(dec_list(rest1, (f - 1) as nat) == Some((tail, rest)));
        assert(seq![head] + tail =~= vs);
    }
}

/// Decoding inverts encoding for the entries of a dictionary body.
proof fn lemma_decode_encode_entries(es: Seq<(Seq<u8>, SpecValue)>, rest: Seq<u8>, f: nat)
    requires
        forall|i: int| 0 <= i < es.len() ==> wf_val(#[trigger] es[i].1),
        f >= enc_entries(es).len() + 1 + rest.len(),
    ensures
        dec_entries(enc_entries(es) + seq![TAG_END] + rest, f) == Some((es, rest)),
    decreases es, 1nat,
{
    let s = enc_entries(es) + seq![TAG_END] + rest;
    if es.len() == 0 {
        assert(s[0] == TAG_END);
        assert(s.drop_first() =~= rest);
        assert(es =~= Seq::<(Seq<u8>, SpecValue)>::empty());
    } else {
        let key = es[0].0;
        let val = es[0].1;
        let tail = es.drop_first();
        let rest2 = enc_entries(tail) + seq![TAG_END] + rest;
        let rest1 = spec_encode(val) + rest2;
        assert(s =~= enc_bytes(key) + rest1);
        lemma_enc_bytes_shape(key);
        assert(s[0] == enc_bytes(key)[0]);
        assert(s[0] != TAG_END);
        lemma_decode_bytes(key, rest1, f);
        assert(spec_decode(s, f) == Some((SpecValue::Bytes(key), rest1)));
        lemma_enc_shape(val);
        lemma_decode_encode(val, rest2, f);
        assert(spec_decode(rest1, f) == Some((val, rest2)));
        assert forall|i: int| 0 <= i < tail.len() implies wf_val(#[trigger] tail[i].1) by {
            assert(tail[i] == es[i + 1]);
        }
        lemma_decode_encode_entries(tail, rest, (f - 1) as nat);
        assert(dec_entries(rest2, (f - 1) as nat) == Some((tail, rest)));
        assert(seq![(key, val)] + tail =~= es);
    }
}

/// Normalization keeps elements well formed.
pub proof fn lemma_norm_wf(v: SpecValue)
    requires
        wf_val(v),
    ensures
        wf_val(norm(v)),
    decreases v, 0nat,
{
    match v {
        SpecValue::Int(_) => {},
        SpecValue::Bytes(_) => {},
        SpecValue::List(vs) => {
            lemma_norm_seq_wf(vs);
        },
        SpecValue::Dict(es) => {
            lemma_norm_entries_wf(es);
            lemma_sort_entries_wf(norm_entries(es));
        },
    }
}

proof fn lemma_norm_seq_wf(vs: Seq<SpecValue>)
    requires
        forall|i: int| 0 <= i < vs.len() ==> wf_val(#[trigger] vs[i]),
    ensures
        norm_seq(vs).len() == vs.len(),
        forall|i: int| 0 <= i < vs.len() ==> wf_val(#[trigger] norm_seq(vs)[i]),
    decreases vs, 1nat,
{
    if vs.len() > 0 {
        lemma_norm_wf(vs[0]);
        let tail = vs.drop_first();
        assert forall|i: int| 0 <= i < tail.len() implies wf_val(#[trigger] tail[i]) by {
            assert(tail[i] == vs[i + 1]);
        }
        lemma_norm_seq_wf(tail);
        assert forall|i: int| 0 <= i < vs.len() implies wf_val(#[trigger] norm_seq(vs)[i]) by {
            if i == 0 {
                assert(norm_seq(vs)[0] == norm(vs[0]));
            } else {
                assert(norm_seq(vs)[i] == norm_seq(tail)[i - 1]);
            }
        }
    }
}

proof fn lemma_norm_entries_wf(es: Seq<(Seq<u8>, SpecValue)>)
    requires
        forall|i: int| 0 <= i < es.len() ==> wf_val(#[trigger] es[i].1),
    ensures
        norm_entries(es).len() == es.len(),
        forall|i: int| 0 <= i < es.len() ==> wf_val(#[trigger] norm_entries(es)[i].1),
    decreases es, 1nat,
{
    if es.len() > 0 {
        lemma_norm_wf(es[0].1);
        let tail = es.drop_first();
        assert forall|i: int| 0 <= i < tail.len() implies wf_val(#[trigger] tail[i].1) by {
            assert(tail[i] == es[i + 1]);
        }
        lemma_norm_entries_wf(tail);
        assert forall|i: int| 0 <= i < es.len() implies wf_val(
            #[trigger] norm_entries(es)[i].1,
        ) by {
            if i == 0 {
                assert(norm_entries(es)[0] == (es[0].0, norm(es[0].1)));
            } else {
                assert(norm_entries(es)[i] == norm_entries(tail)[i - 1]);
            }
        }
    }
}

proof fn lemma_insert_entry_wf(e: (Seq<u8>, SpecValue), es: Seq<(Seq<u8>, SpecValue)>)
    requires
        wf_val(e.1),
        forall|i: int| 0 <= i < es.len() ==> wf_val(#[trigger] es[i].1),
    ensures
        insert_entry(e, es).len() == es.len() + 1,
        forall|i: int| 0 <= i < insert_entry(e, es).len() ==> wf_val(
            #[trigger] insert_entry(e, es)[i].1,
        ),
    decreases es.len(),
{
    if es.len() == 0 {
    } else if crate::codec::bytes_le(e.0, es[0].0) {
    } else {
        let tail = es.drop_first();
        assert forall|i: int| 0 <= i < tail.len() implies wf_val(#[trigger] tail[i].1) by {
            assert(tail[i] == es[i + 1]);
        }
        lemma_insert_entry_wf(e, tail);
        let r = insert_entry(e, es);
        assert forall|i: int| 0 <= i < r.len() implies wf_val(#[trigger] r[i].1) by {
            if i == 0 {
                assert(r[0] == es[0]);
            } else {
                assert(r[i] == insert_entry(e, tail)[i - 1]);
            }
        }
    }
}

proof fn lemma_sort_entries_wf(es: Seq<(Seq<u8>, SpecValue)>)
    requires
        forall|i: int| 0 <= i < es.len() ==> wf_val(#[trigger] es[i].1),
    ensures
        sort_entries(es).len() == es.len(),
        forall|i: int| 0 <= i < sort_entries(es).len() ==> wf_val(#[trigger] sort_entries(es)[i].1),
    decreases es.len(),
{
    if es.len() > 0 {
        let tail = es.drop_first();
        assert forall|i: int| 0 <= i < tail.len() implies wf_val(#[trigger] tail[i].1) by {
            assert(tail[i] == es[i + 1]);
        }
        lemma_sort_entries_wf(tail);
        lemma_insert_entry_wf(es[0], sort_entries(tail));
    }
}

/// The round-trip law: the canonical encoding of any well-formed term
/// decodes, with nothing left over, to the term's normal form — the same
/// term up to dictionary entries standing in sorted key order.
pub proof fn lemma_round_trip(v: SpecValue)
    requires
        wf_val(v),
    ensures
        spec_decode_top(spec_encode(norm(v))) == Some((norm(v), Seq::<u8>::empty())),
{
    lemma_norm_wf(v);
    let enc = spec_encode(norm(v));
    assert(enc + Seq::<u8>::empty() =~= enc);
    lemma_decode_encode(norm(v), Seq::<u8>::empty(), enc.len());
}

/// Lexicographic byte order is total.
pub proof fn lemma_bytes_le_total(a: Seq<u8>, b: Seq<u8>)
    ensures
        bytes_le(a, b) || bytes_le(b, a),
    decreases a.len(),
{
    if a.len() == 0 {
    } else if b.len() == 0 {
    } else if a[0] == b[0] {
        lemma_bytes_le_total(a.drop_first(), b.drop_first());
    }
}

proof fn lemma_insert_entry_sorted(e: (Seq<u8>, SpecValue), es: Seq<(Seq<u8>, SpecValue)>)
    requires
        entries_sorted(es),
    ensures
        entries_sorted(insert_entry(e, es)),
    decreases es.len(),
{
    let r = insert_entry(e, es);
    if es.len() == 0 {
    } else if bytes_le(e.0, es[0].0) {
        assert forall|i: int| 0 <= i < r.len() - 1 implies bytes_le(
            (#[trigger] r[i]).0,
            r[i + 1].0,
        ) by {
            if i > 0 {
                assert(r[i] == es[i - 1] && r[i + 1] == es[i]);
            }
        }
    } else {
        let tail = es.drop_first();
        assert forall|i: int| 0 <= i < tail.len() - 1 implies bytes_le(
            (#[trigger] tail[i]).0,
            tail[i + 1].0,
        ) by {
            assert(tail[i] == es[i + 1] && tail[i + 1] == es[i + 2]);
        }
        lemma_insert_entry_sorted(e, tail);
        let it = insert_entry(e, tail);
        lemma_bytes_le_total(e.0, es[0].0);
        assert forall|i: int| 0 <= i < r.len() - 1 implies bytes_le(
            (#[trigger] r[i]).0,
            r[i + 1].0,
        ) by {
            if i == 0 {
                assert(r[1] == it[0]);
                if tail.len() == 0 || bytes_le(e.0, tail[0].0) {
                    assert(it[0] == e);
                } else {
                    assert(it[0] == tail[0]);
                    assert(bytes_le(es[0].0, es[1].0));
                }
            } else {
                assert(r[i] == it[i - 1] && r[i + 1] == it[i]);
            }
        }
    }
}

proof fn lemma_sort_entries_sorted(es: Seq<(Seq<u8>, SpecValue)>)
    ensures
        entries_sorted(sort_entries(es)),
    decreases es.len(),
{
    if es.len() > 0 {
        lemma_sort_entries_sorted(es.drop_first());
        lemma_insert_entry_sorted(es[0], sort_entries(es.drop_first()));
    }
}

proof fn lemma_insert_entry_canonical(e: (Seq<u8>, SpecValue), es: Seq<(Seq<u8>, SpecValue)>)
    requires
        canonical(e.1),
        forall|i: int| 0 <= i < es.len() ==> canonical((#[trigger] es[i]).1),
    ensures
        insert_entry(e, es).len() == es.len() + 1,
        forall|i: int|
            0 <= i < insert_entry(e, es).len() ==> canonical((#[trigger] insert_entry(e, es)[i]).1),
    decreases es.len(),
{
    if es.len() == 0 {
    } else if bytes_le(e.0, es[0].0) {
    } else {
        let tail = es.drop_first();
        assert forall|i: int| 0 <= i < tail.len() implies canonical((#[trigger] tail[i]).1) by {
            assert(tail[i] == es[i + 1]);
        }
        lemma_insert_entry_canonical(e, tail);
        let r = insert_entry(e, es);
        assert forall|i: int| 0 <= i < r.len() implies canonical((#[trigger] r[i]).1) by {
            if i == 0 {
                assert(r[0] == es[0]);
            } else {
                assert(r[i] == insert_entry(e, tail)[i - 1]);
            }
        }
    }
}

proof fn lemma_sort_entries_canonical(es: Seq<(Seq<u8>, SpecValue)>)
    requires
        forall|i: int| 0 <= i < es.len() ==> canonical((#[trigger] es[i]).1),
    ensures
        sort_entries(es).len() == es.len(),
        forall|i: int|
            0 <= i < sort_entries(es).len() ==> canonical((#[trigger] sort_entries(es)[i]).1),
    decreases es.len(),
{
    if es.len() > 0 {
        let tail = es.drop_first();
        assert forall|i: int| 0 <= i < tail.len() implies canonical((#[trigger] tail[i]).1) by {
            assert(tail[i] == es[i + 1]);
        }
        lemma_sort_entries_canonical(tail);
        lemma_insert_entry_canonical(es[0], sort_entries(tail));
    }
}

/// Normalization sorts: the normal form of any term is canonical, with
/// every dictionary's keys in ascending order at every depth.
pub proof fn lemma_norm_canonical(v: SpecValue)
    ensures
        canonical(norm(v)),
    decreases v, 0nat,
{
    match v {
        SpecValue::Int(_) => {},
        SpecValue::Bytes(_) => {},
        SpecValue::List(vs) => {
            lemma_norm_seq_canonical(vs);
        },
        SpecValue::Dict(es) => {
            lemma_norm_entries_canonical(es);
            lemma_sort_entries_canonical(norm_entries(es));
            lemma_sort_entries_sorted(norm_entries(es));
        },
    }
}

proof fn lemma_norm_seq_canonical(vs: Seq<SpecValue>)
    ensures
        norm_seq(vs).len() == vs.len(),
        forall|i: int| 0 <= i < vs.len() ==> canonical(#[trigger] norm_seq(vs)[i]),
    decreases vs, 1nat,
{
    if vs.len() > 0 {
        lemma_norm_canonical(vs[0]);
        lemma_norm_seq_canonical(vs.drop_first());
        assert forall|i: int| 0 <= i < vs.len() implies canonical(#[trigger] norm_seq(vs)[i]) by {
            if i == 0 {
                assert(norm_seq(vs)[0] == norm(vs[0]));
            } else {
                assert(norm_seq(vs)[i] == norm_seq(vs.drop_first())[i - 1]);
            }
        }
    }
}

proof fn lemma_norm_entries_canonical(es: Seq<(Seq<u8>, SpecValue)>)
    ensures
        norm_entries(es).len() == es.len(),
        forall|i: int| 0 <= i < es.len() ==> canonical((#[trigger] norm_entries(es)[i]).1),
    decreases es, 1nat,
{
    if es.len() > 0 {
        lemma_norm_canonical(es[0].1);
        lemma_norm_entries_canonical(es.drop_first());
        assert forall|i: int| 0 <= i < es.len() implies canonical(
            (#[trigger] norm_entries(es)[i]).1,
        ) by {
            if i == 0 {
                assert(norm_entries(es)[0] == (es[0].0, norm(es[0].1)));
            } else {
                assert(norm_entries(es)[i] == norm_entries(es.drop_first())[i - 1]);
            }
        }
    }
}

proof fn lemma_sort_entries_id(es: Seq<(Seq<u8>, SpecValue)>)
    requires
        entries_sorted(es),
    ensures
        sort_entries(es) == es,
    decreases es.len(),
{
    if es.len() > 0 {
        let tail = es.drop_first();
        assert forall|i: int| 0 <= i < tail.len() - 1 implies bytes_le(
            (#[trigger] tail[i]).0,
            tail[i + 1].0,
        ) by {
            assert(tail[i] == es[i + 1] && tail[i + 1] == es[i + 2]);
        }
        lemma_sort_entries_id(tail);
        if tail.len() == 0 {
            assert(insert_entry(es[0], tail) =~= es);
        } else {
            assert(bytes_le(es[0].0, tail[0].0));
            assert(seq![es[0]] + tail =~= es);
        }
    }
}

/// Normalization changes nothing but dictionary order: on a term that is
/// already canonical it is the identity.
pub proof fn lemma_norm_id(v: SpecValue)
    requires
        canonical(v),
    ensures
        norm(v) == v,
    decreases v, 0nat,
{
    match v {
        SpecValue::Int(_) => {},
        SpecValue::Bytes(_) => {},
        SpecValue::List(vs) => {
            lemma_norm_seq_id(vs);
        },
        SpecValue::Dict(es) => {
            lemma_norm_entries_id(es);
            lemma_sort_entries_id(es);
        },
    }
}

proof fn lemma_norm_seq_id(vs: Seq<SpecValue>)
    requires
        forall|i: int| 0 <= i < vs.len() ==> canonical(#[trigger] vs[i]),
    ensures
        norm_seq(vs) == vs,
    decreases vs, 1nat,
{
    if vs.len() > 0 {
        lemma_norm_id(vs[0]);
        let tail = vs.drop_first();
        assert forall|i: int| 0 <= i < tail.len() implies canonical(#[trigger] tail[i]) by {
            assert(tail[i] == vs[i + 1]);
        }
        lemma_norm_seq_id(tail);
        assert(seq![vs[0]] + tail =~= vs);
    }
}

proof fn lemma_norm_entries_id(es: Seq<(Seq<u8>, SpecValue)>)
    requires
        forall|i: int| 0 <= i < es.len() ==> canonical((#[trigger] es[i]).1),
    ensures
        norm_entries(es) == es,
    decreases es, 1nat,
{
    if es.len() > 0 {
        lemma_norm_id(es[0].1);
        let tail = es.drop_first();
        assert forall|i: int| 0 <= i < tail.len() implies canonical((#[trigger] tail[i]).1) by {
            assert(tail[i] == es[i + 1]);
        }
        lemma_norm_entries_id(tail);
        assert((es[0].0, es[0].1) == es[0]);
        assert(seq![es[0]] + tail =~= es);
    }
}

/// Canonical encoding separates content: two well-formed terms encode
/// to the same bytes only when they are the same term up to dictionary
/// order. Decoding is a function of the bytes, so equal encodings force
/// equal normal forms.
pub proof fn lemma_encode_injective(a: SpecValue, b: SpecValue)
    requires
        wf_val(a),
        wf_val(b),
        spec_encode(norm(a)) == spec_encode(norm(b)),
    ensures
        norm(a) == norm(b),
{
    lemma_round_trip(a);
    lemma_round_trip(b);
}

/// The round-trip law for every value the library can hold: the
/// canonical encoding of any `Value` decodes, with nothing left over, to
/// the value's normal form, which is canonical; and a value already in
/// canonical order comes back exactly as it went in.
pub proof fn lemma_value_round_trip(v: Value)
    ensures
        spec_decode_top(spec_encode(norm(v@))) == Some((norm(v@), Seq::<u8>::empty())),
        canonical(norm(v@)),
        canonical(v@) ==> norm(v@) == v@,
{
    lemma_deep_wf(v);
    lemma_round_trip(v@);
    lemma_norm_canonical(v@);
    if canonical(v@) {
        lemma_norm_id(v@);
    }
}

} // verus!
