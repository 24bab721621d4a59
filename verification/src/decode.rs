use vstd::prelude::*;
use crate::value::{SpecValue, Value, deep_seq, deep_entries};
use crate::codec::{
    spec_decode, spec_decode_top, dec_list, dec_entries, dec_int_body, dec_str, digit_prefix_len,
    digits_val, is_ascii_digit, TAG_INT, TAG_LIST, TAG_DICT, TAG_END, COLON, MINUS,
    I64_MIN_MAGNITUDE, lemma_digit_prefix_len_is, lemma_digits_val_nonneg, lemma_digits_val_prefix,
};

verus! {

/// Why a bencode decode failed: the input was malformed at the reported
/// point. Every failure of the decoder is one of these; a well-formed
/// input never produces one.
#[derive(Clone, Copy, Debug, PartialEq, Eq, Structural)]
pub enum DecodeError {
    /// The input ended before the term did.
    Truncated,
    /// A leading byte that is no tag and no digit.
    UnknownTag,
    /// An integer with no digits, no end marker, or out of 64-bit range.
    BadInteger,
    /// A string length prefix with no colon after it.
    BadLength,
}

/// Scan the run of decimal digits that starts at `from`.
fn digit_run(input: &[u8], from: usize) -> (end: usize)
    requires
        from <= input@.len(),
    ensures
        from <= end <= input@.len(),
        end - from == digit_prefix_len(input@.skip(from as int)),
        forall|j: int| from <= j < end ==> is_ascii_digit(#[trigger] input@[j]),
{
    let len = input.len();
    let mut end = from;
    while end < len && 48 <= input[end] && input[end] <= 57
        invariant
            from <= end <= len == input@.len(),
            forall|j: int| from <= j < end ==> is_ascii_digit(#[trigger] input@[j]),
        decreases len - end,
    {
        end = end + 1;
    }
    proof {
        let s = input@.skip(from as int);
        assert forall|j: int| 0 <= j < end - from implies is_ascii_digit(#[trigger] s[j]) by {
            assert(s[j] == input@[from + j]);
        }
        if (end - from) < s.len() {
            assert(s[end - from] == input@[end as int]);
        }
        lemma_digit_prefix_len_is(s, (end - from) as nat);
    }
    end
}

/// The number denoted by the digits `input[from..end]`, unless it
/// overflows an unsigned 64-bit word.
fn digits_value_u64(input: &[u8], from: usize, end: usize) -> (r: Option<u64>)
    requires
        from <= end <= input@.len(),
        forall|j: int| from <= j < end ==> is_ascii_digit(#[trigger] input@[j]),
    ensures
        match r {
            Some(n) => n == digits_val(input@.subrange(from as int, end as int)),
            None => digits_val(input@.subrange(from as int, end as int)) > u64::MAX,
        },
{
    let ghost whole = input@.subrange(from as int, end as int);
    proof {
        assert forall|j: int| 0 <= j < whole.len() implies is_ascii_digit(#[trigger] whole[j]) by {
            assert(whole[j] == input@[from + j]);
        }
    }
    let mut acc: u64 = 0;
    let mut i = from;
    while i < end
        invariant
            from <= i <= end <= input@.len(),
            forall|j: int| from <= j < end ==> is_ascii_digit(#[trigger] input@[j]),
            whole == input@.subrange(from as int, end as int),
            forall|j: int| 0 <= j < whole.len() ==> is_ascii_digit(#[trigger] whole[j]),
            acc == digits_val(input@.subrange(from as int, i as int)),
        decreases end - i,
    {
        let d = input[i] - 48;
        proof {
            let cur = input@.subrange(from as int, i as int);
            let nxt = input@.subrange(from as int, i + 1);
            assert(nxt.drop_last() =~= cur);
            assert(nxt.last() == input@[i as int]);
        }
        if acc > (u64::MAX - d as u64) / 10 {
            proof {
                let nxt = input@.subrange(from as int, i + 1);
                assert(digits_val(nxt) > u64::MAX) by {
                    assert(digits_val(nxt) == acc * 10 + (input@[i as int] as int - 48));
                    assert(acc as int * 10 + d as int > u64::MAX) by (nonlinear_arith)
                        requires
                            acc > (u64::MAX - d as u64) / 10,
                            0 <= d <= 9,
                    ;
                }
                assert(whole.take(i + 1 - from) =~= nxt);
                lemma_digits_val_prefix(whole, i + 1 - from);
            }
            return None;
        }
        acc = acc * 10 + d as u64;
        i = i + 1;
    }
    proof {
        assert(input@.subrange(from as int, i as int) =~= whole);
    }
    Some(acc)
}

/// Decode the integer term whose `i` tag stands at `from`.
fn decode_int_at(input: &[u8], from: usize) -> (r: Result<(Value, usize), DecodeError>)
    requires
        from < input@.len(),
        input@[from as int] == TAG_INT,
    ensures
        match r {
            Ok((v, end)) => {
                &&& from < end <= input@.len()
                &&& dec_int_body(input@.skip(from + 1)) == Some(
                    (v@, input@.skip(end as int)),
                )
            },
            Err(_) => dec_int_body(input@.skip(from + 1)) is None,
        },
{
    let ghost s1 = input@.skip(from + 1);
    let len = input.len();
    let mut p = from + 1;
    let neg = p < len && input[p] == MINUS;
    proof {
        assert(s1.len() == len - (from + 1));
        if p < len {
            assert(s1[0] == input@[p as int]);
        }
    }
    if neg {
        p = p + 1;
        proof {
            assert(s1.drop_first() =~= input@.skip(p as int));
        }
    } else {
        proof {
            assert(s1 =~= input@.skip(p as int));
        }
    }
    let ghost ds_start = input@.skip(p as int);
    let dend = digit_run(input, p);
    if dend == p {
        return Err(DecodeError::BadInteger);
    }
    let ghost k = digit_prefix_len(ds_start) as int;
    proof {
        assert(k == dend - p);
        assert(ds_start.take(k) =~= input@.subrange(p as int, dend as int));
    }
    match digits_value_u64(input, p, dend) {
        None => {
            proof {
                lemma_digits_val_nonneg(input@.subrange(p as int, dend as int));
            }
            Err(DecodeError::BadInteger)
        },
        Some(val) => {
            if dend == len || input[dend] != TAG_END {
                proof {
                    if dend < len {
                        assert(ds_start[k] == input@[dend as int]);
                    }
                }
                return Err(DecodeError::BadInteger);
            }
            proof {
                assert(ds_start[k] == input@[dend as int]);
                assert(ds_start.skip(k + 1) =~= input@.skip(dend + 1));
            }
            if neg {
                if val > I64_MIN_MAGNITUDE {
                    return Err(DecodeError::BadInteger);
                }
                let i: i64 = if val == I64_MIN_MAGNITUDE {
                    i64::MIN
                } else {
                    -(val as i64)
                };
                Ok((Value::Int(i), dend + 1))
            } else {
                if val > i64::MAX as u64 {
                    return Err(DecodeError::BadInteger);
                }
                Ok((Value::Int(val as i64), dend + 1))
            }
        },
    }
}

/// Decode the byte-string term whose length prefix stands at `from`.
fn decode_str_at(input: &[u8], from: usize) -> (r: Result<(Value, usize), DecodeError>)
    requires
        from < input@.len(),
        input@[from as int] != TAG_INT,
        input@[from as int] != TAG_LIST,
        input@[from as int] != TAG_DICT,
    ensures
        match r {
            Ok((v, end)) => {
                &&& from < end <= input@.len()
                &&& dec_str(input@.skip(from as int)) == Some((v@, input@.skip(end as int)))
            },
            Err(_) => dec_str(input@.skip(from as int)) is None,
        },
{
    let ghost s = input@.skip(from as int);
    let len = input.len();
    let b = input[from];
    proof {
        assert(s[0] == input@[from as int]);
    }
    if !(48 <= b && b <= 57) {
        return Err(DecodeError::UnknownTag);
    }
    let dend = digit_run(input, from);
    let ghost k = digit_prefix_len(s) as int;
    proof {
        assert(digit_prefix_len(input@.skip(from as int)) == dend - from);
        assert(s.take(k) =~= input@.subrange(from as int, dend as int));
    }
    match digits_value_u64(input, from, dend) {
        None => {
            // A length too large for a 64-bit word certainly exceeds the
            // remaining input, so the spec refuses this input too.
            proof {
                if dend < len {
                    assert(s[k] == input@[dend as int]);
                    assert(s.skip(k + 1).len() <= u64::MAX);
                }
            }
            Err(DecodeError::BadLength)
        },
        Some(val) => {
            if dend == len || input[dend] != COLON {
                proof {
                    if dend < len {
                        assert(s[k] == input@[dend as int]);
                    }
                }
                return Err(DecodeError::BadLength);
            }
            proof {
                assert(s[k] == input@[dend as int]);
                assert(s.skip(k + 1) =~= input@.skip(dend + 1));
                lemma_digits_val_nonneg(input@.subrange(from as int, dend as int));
            }
            let body_start = dend + 1;
            let remaining = len - body_start;
            if val > remaining as u64 {
                return Err(DecodeError::Truncated);
            }
            let n = val as usize;
            let content = vstd::slice::slice_to_vec(
                vstd::slice::slice_subrange(input, body_start, body_start + n),
            );
            proof {
                let body = s.skip(k + 1);
                assert(body.take(val as int) =~= input@.subrange(
                    body_start as int,
                    body_start + n,
                ));
                assert(body.skip(val as int) =~= input@.skip(body_start + n));
            }
            Ok((Value::Bytes(content), body_start + n))
        },
    }
}

/// Decode one term at `from`; `end` is where the remainder begins.
pub fn decode_at(input: &[u8], from: usize) -> (r: Result<(Value, usize), DecodeError>)
    requires
        from <= input@.len(),
    ensures
        match r {
            Ok((v, end)) => {
                &&& from < end <= input@.len()
                &&& forall|f: nat|
                    f >= input@.len() - from ==> spec_decode(input@.skip(from as int), f)
                        == Some((v@, input@.skip(end as int)))
            },
            Err(_) => forall|f: nat|
                f >= input@.len() - from ==> spec_decode(input@.skip(from as int), f) is None,
        },
    decreases input@.len() - from, 0nat,
{
    let ghost s = input@.skip(from as int);
    if from == input.len() {
        return Err(DecodeError::Truncated);
    }
    proof {
        assert(s[0] == input@[from as int]);
        assert(s.drop_first() =~= input@.skip(from + 1));
    }
    let b = input[from];
    if b == TAG_INT {
        match decode_int_at(input, from) {
            Ok((v, end)) => Ok((v, end)),
            Err(e) => Err(e),
        }
    } else if b == TAG_LIST {
        match decode_list_at(input, from + 1) {
            Ok((vs, end)) => {
                proof {
                    assert forall|f: nat| f >= input@.len() - from implies spec_decode(s, f)
                        == Some((Value::List(vs)@, input@.skip(end as int))) by {
                        assert(dec_list(input@.skip(from + 1), (f - 1) as nat) == Some(
                            (deep_seq(vs@), input@.skip(end as int)),
                        ));
                    }
                }
                Ok((Value::List(vs), end))
            },
            Err(e) => {
                proof {
                    assert forall|f: nat| f >= input@.len() - from implies spec_decode(s, f)
                        is None by {
                        assert(dec_list(input@.skip(from + 1), (f - 1) as nat) is None);
                    }
                }
                Err(e)
            },
        }
    } else if b == TAG_DICT {
        match decode_entries_at(input, from + 1) {
            Ok((es, end)) => {
                proof {
                    assert forall|f: nat| f >= input@.len() - from implies spec_decode(s, f)
                        == Some((Value::Dict(es)@, input@.skip(end as int))) by {
                        assert(dec_entries(input@.skip(from + 1), (f - 1) as nat) == Some(
                            (deep_entries(es@), input@.skip(end as int)),
                        ));
                    }
                }
                Ok((Value::Dict(es), end))
            },
            Err(e) => {
                proof {
                    assert forall|f: nat| f >= input@.len() - from implies spec_decode(s, f)
                        is None by {
                        assert(dec_entries(input@.skip(from + 1), (f - 1) as nat) is None);
                    }
                }
                Err(e)
            },
        }
    } else {
        match decode_str_at(input, from) {
            Ok((v, end)) => Ok((v, end)),
            Err(e) => Err(e),
        }
    }
}

/// Decode list elements from `from` up to and through the end marker.
fn decode_list_at(input: &[u8], from: usize) -> (r: Result<(Vec<Value>, usize), DecodeError>)
    requires
        from <= input@.len(),
    ensures
        match r {
            Ok((vs, end)) => {
                &&& from < end <= input@.len()
                &&& forall|f: nat|
                    f >= input@.len() - from ==> dec_list(input@.skip(from as int), f) == Some(
                        (deep_seq(vs@), input@.skip(end as int)),
                    )
            },
            Err(_) => forall|f: nat|
                f >= input@.len() - from ==> dec_list(input@.skip(from as int), f) is None,
        },
    decreases input@.len() - from, 1nat,
{
    let ghost s = input@.skip(from as int);
    if from == input.len() {
        return Err(DecodeError::Truncated);
    }
    proof {
        assert(s[0] == input@[from as int]);
    }
    if input[from] == TAG_END {
        let vs: Vec<Value> = Vec::new();
        proof {
            assert(s.drop_first() =~= input@.skip(from + 1));
            assert(deep_seq(vs@) =~= Seq::<SpecValue>::empty());
        }
        return Ok((vs, from + 1));
    }
    match decode_at(input, from) {
        Err(e) => {
            proof {
                assert forall|f: nat| f >= input@.len() - from implies dec_list(s, f) is None by {
                    assert(spec_decode(s, f) is None);
                }
            }
            Err(e)
        },
        Ok((v, mid)) => match decode_list_at(input, mid) {
            Err(e) => {
                proof {
                    assert forall|f: nat| f >= input@.len() - from implies dec_list(s, f)
                        is None by {
                        assert(spec_decode(s, f) == Some((v@, input@.skip(mid as int))));
                        assert(dec_list(input@.skip(mid as int), (f - 1) as nat) is None);
                    }
                }
                Err(e)
            },
            Ok((vs, end)) => {
                let mut vs = vs;
                let ghost tail = vs@;
                vs.insert(0, v);
                proof {
                    assert(vs@ =~= seq![v].add(tail));
                    assert(vs@.drop_first() =~= tail);
                    assert(deep_seq(vs@) =~= seq![v@] + deep_seq(tail));
                    assert forall|f: nat| f >= input@.len() - from implies dec_list(s, f)
                        == Some((deep_seq(vs@), input@.skip(end as int))) by {
                        assert(spec_decode(s, f) == Some((v@, input@.skip(mid as int))));
                        assert(dec_list(input@.skip(mid as int), (f - 1) as nat) == Some(
                            (deep_seq(tail), input@.skip(end as int)),
                        ));
                    }
                }
                Ok((vs, end))
            },
        },
    }
}

/// Decode dictionary entries from `from` up to and through the end marker.
fn decode_entries_at(input: &[u8], from: usize) -> (r: Result<
    (Vec<(Vec<u8>, Value)>, usize),
    DecodeError,
>)
    requires
        from <= input@.len(),
    ensures
        match r {
            Ok((es, end)) => {
                &&& from < end <= input@.len()
                &&& forall|f: nat|
                    f >= input@.len() - from ==> dec_entries(input@.skip(from as int), f) == Some(
                        (deep_entries(es@), input@.skip(end as int)),
                    )
            },
            Err(_) => forall|f: nat|
                f >= input@.len() - from ==> dec_entries(input@.skip(from as int), f) is None,
        },
    decreases input@.len() - from, 1nat,
{
    let ghost s = input@.skip(from as int);
    if from == input.len() {
        return Err(DecodeError::Truncated);
    }
    proof {
        assert(s[0] == input@[from as int]);
    }
    if input[from] == TAG_END {
        let es: Vec<(Vec<u8>, Value)> = Vec::new();
        proof {
            assert(s.drop_first() =~= input@.skip(from + 1));
            assert(deep_entries(es@) =~= Seq::<(Seq<u8>, SpecValue)>::empty());
        }
        return Ok((es, from + 1));
    }
    match decode_at(input, from) {
        Err(e) => {
            proof {
                assert forall|f: nat| f >= input@.len() - from implies dec_entries(s, f)
                    is None by {
                    assert(spec_decode(s, f) is None);
                }
            }
            Err(e)
        },
        Ok((kv, mid1)) => match kv {
            Value::Bytes(kb) => match decode_at(input, mid1) {
                Err(e) => {
                    proof {
                        assert forall|f: nat| f >= input@.len() - from implies dec_entries(s, f)
                            is None by {
                            assert(spec_decode(s, f) == Some(
                                (SpecValue::Bytes(kb@), input@.skip(mid1 as int)),
                            ));
                            assert(spec_decode(input@.skip(mid1 as int), f) is None);
                        }
                    }
                    Err(e)
                },
                Ok((v, mid2)) => match decode_entries_at(input, mid2) {
                    Err(e) => {
                        proof {
                            assert forall|f: nat| f >= input@.len() - from implies dec_entries(
                                s,
                                f,
                            ) is None by {
                                assert(spec_decode(s, f) == Some(
                                    (SpecValue::Bytes(kb@), input@.skip(mid1 as int)),
                                ));
                                assert(spec_decode(input@.skip(mid1 as int), f) == Some(
                                    (v@, input@.skip(mid2 as int)),
                                ));
                                assert(dec_entries(input@.skip(mid2 as int), (f - 1) as nat)
                                    is None);
                            }
                        }
                        Err(e)
                    },
                    Ok((es, end)) => {
                        let mut es = es;
                        let ghost tail = es@;
                        let ghost kd = kb@;
                        let ghost vd = v@;
                        es.insert(0, (kb, v));
                        proof {
                            assert(es@ =~= seq![(es@[0].0, es@[0].1)].add(tail));
                            assert(es@.drop_first() =~= tail);
                            assert(deep_entries(es@) =~= seq![(kd, vd)] + deep_entries(tail));
                            assert forall|f: nat| f >= input@.len() - from implies dec_entries(
                                s,
                                f,
                            ) == Some((deep_entries(es@), input@.skip(end as int))) by {
                                assert(spec_decode(s, f) == Some(
                                    (SpecValue::Bytes(kd), input@.skip(mid1 as int)),
                                ));
                                assert(spec_decode(input@.skip(mid1 as int), f) == Some(
                                    (vd, input@.skip(mid2 as int)),
                                ));
                                assert(dec_entries(input@.skip(mid2 as int), (f - 1) as nat)
                                    == Some((deep_entries(tail), input@.skip(end as int))));
                            }
                        }
                        Ok((es, end))
                    },
                },
            },
            kv2 => {
                proof {
                    assert forall|f: nat| f >= input@.len() - from implies dec_entries(s, f)
                        is None by {
                        assert(spec_decode(s, f) == Some((kv2@, input@.skip(mid1 as int))));
                        assert(!(kv2@ is Bytes));
                    }
                }
                Err(DecodeError::UnknownTag)
            },
        },
    }
}

/// Decode one bencode term from the front of `input`. On success the
/// result is the term and the index where the unconsumed remainder
/// begins; it fails exactly when no term can be read from the front of
/// the input.
pub fn decode_bencoded_value(input: &[u8]) -> (r: Result<(Value, usize), DecodeError>)
    ensures
        match r {
            Ok((v, end)) => {
                &&& 0 < end <= input@.len()
                &&& spec_decode_top(input@) == Some((v@, input@.skip(end as int)))
            },
            Err(_) => spec_decode_top(input@) is None,
        },
{
    let r = decode_at(input, 0);
    proof {
        assert(input@.skip(0) =~= input@);
    }
    r
}

} // verus!
