use vstd::prelude::*;
use crate::value::{SpecValue, Value, deep_seq, deep_entries};
use crate::codec::{
    spec_encode, enc_seq, enc_entries, dec_digits, dec_int, bytes_le, insert_entry,
    sort_entries, norm, norm_seq, norm_entries, TAG_INT, TAG_LIST, TAG_DICT, TAG_END, COLON,
    MINUS, I64_MIN_MAGNITUDE,
};

verus! {

/// Entries selected out of `d` by a sequence of indices, in that order.
pub open spec fn sel_entries(d: Seq<(Seq<u8>, SpecValue)>, order: Seq<usize>) -> Seq<
    (Seq<u8>, SpecValue),
> {
    Seq::new(
        order.len(),
        |j: int|
            if 0 <= j < order.len() && order[j] < d.len() {
                d[order[j] as int]
            } else {
                (Seq::empty(), SpecValue::Int(0))
            },
    )
}

/// Normalizing values first and then sorting by key is the same as
/// sorting first and then normalizing: the sort compares keys only, and
/// normalization keeps every key.
pub proof fn lemma_insert_norm_commute(e: (Seq<u8>, SpecValue), es: Seq<(Seq<u8>, SpecValue)>)
    ensures
        insert_entry((e.0, norm(e.1)), norm_entries(es)) == norm_entries(insert_entry(e, es)),
    decreases es.len(),
{
    if es.len() == 0 {
        reveal_with_fuel(norm_entries, 3);
        let one = insert_entry(e, es);
        assert(one == seq![e]);
        assert(one[0] == e);
        assert(one.drop_first() =~= Seq::<(Seq<u8>, SpecValue)>::empty());
        assert(norm_entries(one) =~= seq![(e.0, norm(e.1))]);
        assert(insert_entry((e.0, norm(e.1)), norm_entries(es)) =~= seq![(e.0, norm(e.1))]);
    } else {
        let ne = (e.0, norm(e.1));
        let nes = norm_entries(es);
        assert(nes[0] == (es[0].0, norm(es[0].1)));
        assert(nes.drop_first() =~= norm_entries(es.drop_first()));
        if bytes_le(e.0, es[0].0) {
            assert(insert_entry(e, es) == seq![e] + es);
            assert(norm_entries(seq![e] + es) =~= seq![ne] + nes) by {
                assert((seq![e] + es)[0] == e);
                assert((seq![e] + es).drop_first() =~= es);
            }
            assert(insert_entry(ne, nes) == seq![ne] + nes);
        } else {
            lemma_insert_norm_commute(e, es.drop_first());
            let tail = insert_entry(e, es.drop_first());
            assert(insert_entry(e, es) == seq![es[0]] + tail);
            assert(insert_entry(ne, nes) == seq![nes[0]] + insert_entry(ne, nes.drop_first()));
            assert(norm_entries(seq![es[0]] + tail) =~= seq![nes[0]] + norm_entries(tail)) by {
                assert((seq![es[0]] + tail)[0] == es[0]);
                assert((seq![es[0]] + tail).drop_first() =~= tail);
            }
        }
    }
}

/// `sort` and entry-wise normalization commute.
pub proof fn lemma_sort_norm_commute(es: Seq<(Seq<u8>, SpecValue)>)
    ensures
        sort_entries(norm_entries(es)) == norm_entries(sort_entries(es)),
    decreases es.len(),
{
    if es.len() == 0 {
        assert(norm_entries(es).len() == 0);
    } else {
        let nes = norm_entries(es);
        assert(nes[0] == (es[0].0, norm(es[0].1)));
        assert(nes.drop_first() =~= norm_entries(es.drop_first()));
        lemma_sort_norm_commute(es.drop_first());
        lemma_insert_norm_commute(es[0], sort_entries(es.drop_first()));
    }
}

/// Where `insert_entry` puts the new entry: right before position `p`,
/// the first whose key does not sort strictly earlier.
proof fn lemma_insert_entry_at(e: (Seq<u8>, SpecValue), es: Seq<(Seq<u8>, SpecValue)>, p: int)
    requires
        0 <= p <= es.len(),
        forall|q: int| 0 <= q < p ==> !bytes_le(e.0, #[trigger] es[q].0),
        p == es.len() || bytes_le(e.0, es[p].0),
    ensures
        insert_entry(e, es) == es.take(p) + seq![e] + es.skip(p),
    decreases p,
{
    if p == 0 {
        if es.len() == 0 {
            assert(insert_entry(e, es) =~= es.take(0) + seq![e] + es.skip(0));
        } else {
            assert(insert_entry(e, es) == seq![e] + es);
            assert(seq![e] + es =~= es.take(0) + seq![e] + es.skip(0));
        }
    } else {
        assert(!bytes_le(e.0, es[0].0));
        assert forall|q: int| 0 <= q < p - 1 implies !bytes_le(
            e.0,
            #[trigger] es.drop_first()[q].0,
        ) by {
            assert(es.drop_first()[q] == es[q + 1]);
        }
        if p - 1 < es.drop_first().len() {
            assert(es.drop_first()[p - 1] == es[p]);
        }
        lemma_insert_entry_at(e, es.drop_first(), p - 1);
        assert(seq![es[0]] + (es.drop_first().take(p - 1) + seq![e] + es.drop_first().skip(p - 1))
            =~= es.take(p) + seq![e] + es.skip(p));
    }
}

/// Whether `a` sorts no later than `b`, from position `i` on.
fn bytes_le_from(a: &Vec<u8>, b: &Vec<u8>, i: usize) -> (r: bool)
    requires
        i <= a@.len(),
        i <= b@.len(),
    ensures
        r == bytes_le(a@.skip(i as int), b@.skip(i as int)),
    decreases a@.len() - i,
{
    proof {
        if i < a@.len() {
            assert(a@.skip(i as int)[0] == a@[i as int]);
        }
        if i < b@.len() {
            assert(b@.skip(i as int)[0] == b@[i as int]);
        }
        assert(a@.skip(i as int).len() == a@.len() - i);
        assert(b@.skip(i as int).len() == b@.len() - i);
    }
    if i == a.len() {
        true
    } else if i == b.len() {
        false
    } else if a[i] < b[i] {
        true
    } else if a[i] > b[i] {
        false
    } else {
        let r = bytes_le_from(a, b, i + 1);
        proof {
            assert(a@.skip(i as int).drop_first() =~= a@.skip(i + 1));
            assert(b@.skip(i as int).drop_first() =~= b@.skip(i + 1));
        }
        r
    }
}

/// Whether `a` sorts no later than `b` in lexicographic byte order.
fn bytes_le_exec(a: &Vec<u8>, b: &Vec<u8>) -> (r: bool)
    ensures
        r == bytes_le(a@, b@),
{
    let r = bytes_le_from(a, b, 0);
    proof {
        assert(a@.skip(0) =~= a@);
        assert(b@.skip(0) =~= b@);
    }
    r
}

/// First position in `rest` (at `p` or after) whose entry's key does not
/// sort strictly before that of entry `key_idx`.
fn find_pos(
    es: &Vec<(Vec<u8>, Value)>,
    key_idx: usize,
    rest: &Vec<usize>,
    p: usize,
) -> (q: usize)
    requires
        key_idx < es@.len(),
        p <= rest@.len(),
        forall|t: int| 0 <= t < rest@.len() ==> #[trigger] rest@[t] < es@.len(),
        forall|t: int|
            0 <= t < p ==> !bytes_le(es@[key_idx as int].0@, #[trigger] es@[rest@[t] as int].0@),
    ensures
        p <= q <= rest@.len(),
        forall|t: int|
            0 <= t < q ==> !bytes_le(es@[key_idx as int].0@, #[trigger] es@[rest@[t] as int].0@),
        q < rest@.len() ==> bytes_le(es@[key_idx as int].0@, es@[rest@[q as int] as int].0@),
    decreases rest@.len() - p,
{
    if p == rest.len() {
        p
    } else if bytes_le_exec(&es[key_idx].0, &es[rest[p]].0) {
        p
    } else {
        find_pos(es, key_idx, rest, p + 1)
    }
}

/// Indices of the entries `es[i..]`, ordered so that the selected entries
/// are their stable insertion sort by key.
fn sorted_order_from(es: &Vec<(Vec<u8>, Value)>, i: usize) -> (r: Vec<usize>)
    requires
        i <= es@.len(),
    ensures
        forall|t: int| 0 <= t < r@.len() ==> #[trigger] r@[t] < es@.len(),
        sel_entries(deep_entries(es@), r@) == sort_entries(deep_entries(es@).skip(i as int)),
    decreases es@.len() - i,
{
    let ghost d = deep_entries(es@);
    if i == es.len() {
        let r: Vec<usize> = Vec::new();
        proof {
            assert(sel_entries(d, r@) =~= sort_entries(d.skip(i as int)));
        }
        r
    } else {
        let rest = sorted_order_from(es, i + 1);
        let p = find_pos(es, i, &rest, 0);
        let ghost rest0 = rest@;
        let mut r = rest;
        r.insert(p, i);
        proof {
            let sel_rest = sel_entries(d, rest0);
            // The entry sequence the new order selects is the old
            // selection with this entry put in at position p.
            assert(sel_entries(d, r@) =~= sel_rest.take(p as int) + seq![d[i as int]]
                + sel_rest.skip(p as int));
            assert forall|t: int| 0 <= t < p implies !bytes_le(
                d[i as int].0,
                #[trigger] sel_rest[t].0,
            ) by {
                assert(sel_rest[t] == d[rest0[t] as int]);
            }
            if p < rest0.len() {
                assert(sel_rest[p as int] == d[rest0[p as int] as int]);
            }
            lemma_insert_entry_at(d[i as int], sel_rest, p as int);
            assert(d.skip(i as int)[0] == d[i as int]);
            assert(d.skip(i as int).drop_first() =~= d.skip(i + 1));
        }
        r
    }
}

/// Append the bytes of `b` to `out`.
pub(crate) fn push_bytes(out: &mut Vec<u8>, b: &Vec<u8>)
    ensures
        final(out)@ == old(out)@ + b@,
{
    let mut i: usize = 0;
    while i < b.len()
        invariant
            i <= b@.len(),
            out@ == old(out)@ + b@.take(i as int),
        decreases b@.len() - i,
    {
        out.push(b[i]);
        proof {
            assert(out@ =~= old(out)@ + b@.take(i + 1));
        }
        i = i + 1;
    }
    proof {
        assert(b@.take(b@.len() as int) =~= b@);
    }
}

/// Append the decimal digits of `n`, most significant first.
pub(crate) fn push_u64_dec(out: &mut Vec<u8>, n: u64)
    ensures
        final(out)@ == old(out)@ + dec_digits(n as nat),
    decreases n,
{
    if n < 10 {
        out.push(48 + (n as u8));
        proof {
            assert(out@ =~= old(out)@ + dec_digits(n as nat));
        }
    } else {
        push_u64_dec(out, n / 10);
        out.push(48 + ((n % 10) as u8));
        proof {
            assert(out@ =~= old(out)@ + dec_digits(n as nat));
        }
    }
}

/// Append the decimal notation of `i`, minus sign first when negative.
fn push_i64_dec(out: &mut Vec<u8>, i: i64)
    ensures
        final(out)@ == old(out)@ + dec_int(i as int),
{
    if i >= 0 {
        push_u64_dec(out, i as u64);
    } else {
        out.push(MINUS);
        let mag: u64 = if i == i64::MIN {
            I64_MIN_MAGNITUDE
        } else {
            (-i) as u64
        };
        push_u64_dec(out, mag);
        proof {
            assert(out@ =~= old(out)@ + dec_int(i as int));
        }
    }
}

/// Append the canonical encoding of `v`: dictionaries at every depth are
/// emitted with their keys in ascending lexicographic byte order.
pub fn encode_value(v: &Value, out: &mut Vec<u8>)
    ensures
        final(out)@ == old(out)@ + spec_encode(norm(v@)),
    decreases v, 0nat, 0nat,
{
    match v {
        Value::Int(i) => {
            out.push(TAG_INT);
            push_i64_dec(out, *i);
            out.push(TAG_END);
            proof {
                assert(out@ =~= old(out)@ + spec_encode(norm(v@)));
            }
        },
        Value::Bytes(b) => {
            push_u64_dec(out, b.len() as u64);
            out.push(COLON);
            push_bytes(out, b);
            proof {
                assert(out@ =~= old(out)@ + spec_encode(norm(v@)));
            }
        },
        Value::List(vs) => {
            out.push(TAG_LIST);
            encode_list_from(vs, 0, out);
            out.push(TAG_END);
            proof {
                assert(deep_seq(vs@).skip(0) =~= deep_seq(vs@));
                assert(out@ =~= old(out)@ + spec_encode(norm(v@)));
            }
        },
        Value::Dict(es) => {
            out.push(TAG_DICT);
            let order = sorted_order_from(es, 0);
            encode_entries_ord(es, &order, 0, out);
            out.push(TAG_END);
            proof {
                let d = deep_entries(es@);
                assert(d.skip(0) =~= d);
                assert(sel_entries(d, order@).skip(0) =~= sel_entries(d, order@));
                lemma_sort_norm_commute(d);
                assert(out@ =~= old(out)@ + spec_encode(norm(v@)));
            }
        },
    }
}

/// Append the canonical encodings of the elements `vs[i..]`, in order.
fn encode_list_from(vs: &Vec<Value>, i: usize, out: &mut Vec<u8>)
    requires
        i <= vs@.len(),
    ensures
        final(out)@ == old(out)@ + enc_seq(norm_seq(deep_seq(vs@).skip(i as int))),
    decreases vs, 1nat, vs@.len() - i,
{
    let ghost ds = deep_seq(vs@);
    if i == vs.len() {
        proof {
            assert(enc_seq(norm_seq(ds.skip(i as int))) =~= Seq::<u8>::empty());
            assert(out@ =~= old(out)@ + enc_seq(norm_seq(ds.skip(i as int))));
        }
    } else {
        encode_value(&vs[i], out);
        encode_list_from(vs, i + 1, out);
        proof {
            let s = ds.skip(i as int);
            assert(s[0] == ds[i as int]);
            assert(s.drop_first() =~= ds.skip(i + 1));
            let x = norm(s[0]);
            let rest = norm_seq(ds.skip(i + 1));
            assert((seq![x] + rest)[0] == x);
            assert((seq![x] + rest).drop_first() =~= rest);
            assert(norm_seq(s) == seq![x] + rest);
            assert(out@ =~= old(out)@ + enc_seq(norm_seq(s)));
        }
    }
}

/// Append the canonical encodings of the entries that `order[j..]`
/// selects out of `es`, keys first, in that order.
fn encode_entries_ord(
    es: &Vec<(Vec<u8>, Value)>,
    order: &Vec<usize>,
    j: usize,
    out: &mut Vec<u8>,
)
    requires
        j <= order@.len(),
        forall|t: int| 0 <= t < order@.len() ==> #[trigger] order@[t] < es@.len(),
    ensures
        final(out)@ == old(out)@ + enc_entries(
            norm_entries(sel_entries(deep_entries(es@), order@).skip(j as int)),
        ),
    decreases es, 1nat, order@.len() - j,
{
    let ghost d = deep_entries(es@);
    let ghost ss = sel_entries(d, order@);
    if j == order.len() {
        proof {
            assert(enc_entries(norm_entries(ss.skip(j as int))) =~= Seq::<u8>::empty());
            assert(out@ =~= old(out)@ + enc_entries(norm_entries(ss.skip(j as int))));
        }
    } else {
        let idx = order[j];
        let e = &es[idx];
        push_u64_dec(out, e.0.len() as u64);
        out.push(COLON);
        push_bytes(out, &e.0);
        encode_value(&e.1, out);
        encode_entries_ord(es, order, j + 1, out);
        proof {
            let s = ss.skip(j as int);
            assert(ss[j as int] == d[order@[j as int] as int]);
            assert(s[0] == ss[j as int]);
            assert(s.drop_first() =~= ss.skip(j + 1));
            let ne = (s[0].0, norm(s[0].1));
            let rest = norm_entries(ss.skip(j + 1));
            assert((seq![ne] + rest)[0] == ne);
            assert((seq![ne] + rest).drop_first() =~= rest);
            assert(norm_entries(s) == seq![ne] + rest);
            assert(out@ =~= old(out)@ + enc_entries(norm_entries(s)));
        }
    }
}

/// Canonical bencode encoding of `v`: total, and the same whatever order
/// `v`'s dictionaries hold their entries in.
pub fn encode_bencoded_value(v: &Value) -> (r: Vec<u8>)
    ensures
        r@ == spec_encode(norm(v@)),
{
    let mut out: Vec<u8> = Vec::new();
    encode_value(v, &mut out);
    proof {
        assert(out@ =~= spec_encode(norm(v@)));
    }
    out
}

} // verus!
