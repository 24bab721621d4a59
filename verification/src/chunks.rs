use vstd::prelude::*;

verus! {

/// Error of the fixed-chunk codec: the input's byte count is not a
/// multiple of the chunk size.
#[derive(Clone, Copy, Debug, PartialEq, Eq, Structural)]
pub struct LengthError {
    /// The offending byte count.
    pub len: usize,
    /// The chunk size it had to divide into.
    pub chunk: usize,
}

/// The records a flat byte string splits into: `s.len() / n` chunks of
/// exactly `n` bytes, in order.
pub open spec fn spec_chunks(s: Seq<u8>, n: nat) -> Seq<Seq<u8>> {
    Seq::new(s.len() / n, |i: int| s.subrange(i * n, (i + 1) * n))
}

/// The flat byte string a record sequence concatenates back into.
pub open spec fn spec_concat(cs: Seq<Seq<u8>>) -> Seq<u8>
    decreases cs.len(),
{
    if cs.len() == 0 {
        Seq::empty()
    } else {
        cs[0] + spec_concat(cs.drop_first())
    }
}

/// Splitting and re-concatenating is the identity on every byte string
/// whose length the chunk size divides.
pub proof fn lemma_chunks_concat(s: Seq<u8>, n: nat)
    requires
        n >= 1,
        s.len() % n == 0,
    ensures
        spec_concat(spec_chunks(s, n)) == s,
    decreases s.len(),
{
    let cs = spec_chunks(s, n);
    if s.len() == 0 {
        assert(s.len() / n == 0);
        assert(cs.len() == 0);
        assert(spec_concat(cs) =~= s);
    } else {
        if s.len() < n {
            vstd::arithmetic::div_mod::lemma_small_mod(s.len(), n);
        }
        assert(s.len() >= n);
        let tail = s.skip(n as int);
        assert(tail.len() == s.len() - n);
        vstd::arithmetic::div_mod::lemma_mod_sub_multiples_vanish(s.len() as int, n as int);
        assert(tail.len() % n == 0);
        lemma_chunks_concat(tail, n);
        let ct = spec_chunks(tail, n);
        let q = s.len() / n;
        let tq = tail.len() / n;
        vstd::arithmetic::div_mod::lemma_fundamental_div_mod(s.len() as int, n as int);
        assert(s.len() == n * q);
        vstd::arithmetic::div_mod::lemma_fundamental_div_mod(tail.len() as int, n as int);
        assert(tail.len() == n * tq);
        vstd::arithmetic::div_mod::lemma_hoist_over_denominator(tail.len() as int, 1, n);
        assert(tq + 1 == q);
        assert(cs.len() == ct.len() + 1);
        assert(cs =~= seq![s.subrange(0, n as int)] + ct) by {
            assert forall|i: int| 0 <= i < cs.len() implies cs[i] == (seq![
                s.subrange(0, n as int),
            ] + ct)[i] by {
                if i > 0 {
                    let j = i - 1;
                    assert(j < tq);
                    vstd::arithmetic::mul::lemma_mul_inequality(j + 1, tq as int, n as int);
                    assert((j + 1) * (n as int) <= tq * n);
                    assert(tq * n == n * tq) by (nonlinear_arith);
                    assert((j + 1) * (n as int) <= tail.len());
                    assert(ct[j] == tail.subrange(j * n, (j + 1) * n));
                    assert(j * (n as int) + n == i * n) by (nonlinear_arith)
                        requires
                            j == i - 1,
                    ;
                    assert((j + 1) * (n as int) + n == (i + 1) * n) by (nonlinear_arith)
                        requires
                            j == i - 1,
                    ;
                    assert(tail.subrange(j * n, (j + 1) * n) =~= s.subrange(i * n, (i + 1) * n));
                }
            }
        }
        let head = s.subrange(0, n as int);
        assert((seq![head] + ct)[0] == head);
        assert((seq![head] + ct).drop_first() =~= ct);
        assert(spec_concat(seq![head] + ct) == head + spec_concat(ct));
        assert(head + tail =~= s);
    }
}

/// Split `bytes` into records of exactly `n` bytes each; the input's
/// length must be a multiple of `n`, else the split is refused.
pub fn decode_chunks(bytes: &[u8], n: usize) -> (r: Result<Vec<Vec<u8>>, LengthError>)
    requires
        n >= 1,
    ensures
        match r {
            Ok(cs) => {
                &&& bytes@.len() % (n as nat) == 0
                &&& cs@.map_values(|c: Vec<u8>| c@) == spec_chunks(bytes@, n as nat)
            },
            Err(e) => {
                &&& bytes@.len() % (n as nat) != 0
                &&& e.len == bytes@.len()
                &&& e.chunk == n
            },
        },
{
    let len = bytes.len();
    if len % n != 0 {
        return Err(LengthError { len, chunk: n });
    }
    let count = len / n;
    proof {
        vstd::arithmetic::div_mod::lemma_fundamental_div_mod(len as int, n as int);
        assert(count * n == n * count) by (nonlinear_arith);
        assert(count * n == len);
    }
    let mut cs: Vec<Vec<u8>> = Vec::new();
    let mut i: usize = 0;
    while i < count
        invariant
            n >= 1,
            count == bytes@.len() / (n as nat),
            count * n == bytes@.len(),
            bytes@.len() <= usize::MAX,
            i <= count,
            cs@.len() == i,
            forall|j: int|
                0 <= j < i ==> #[trigger] cs@[j]@ == bytes@.subrange(j * (n as int), (j + 1) * (
                n as int)),
        decreases count - i,
    {
        proof {
            assert((i + 1) * n <= count * n) by (nonlinear_arith)
                requires
                    i < count,
                    n >= 1,
            ;
            assert(i * n <= (i + 1) * n) by (nonlinear_arith)
                requires
                    n >= 1,
                    i >= 0,
            ;
            assert((i + 1) * n == i * n + n) by (nonlinear_arith);
        }
        let start = i * n;
        let chunk = vstd::slice::slice_to_vec(vstd::slice::slice_subrange(bytes, start, start + n));
        cs.push(chunk);
        i = i + 1;
    }
    proof {
        assert(cs@.map_values(|c: Vec<u8>| c@) =~= spec_chunks(bytes@, n as nat));
    }
    Ok(cs)
}

/// Concatenate records back into one flat byte string, in order.
pub fn encode_chunks(chunks: &Vec<Vec<u8>>) -> (r: Vec<u8>)
    ensures
        r@ == spec_concat(chunks@.map_values(|c: Vec<u8>| c@)),
{
    let mut out: Vec<u8> = Vec::new();
    encode_chunks_from(chunks, 0, &mut out);
    proof {
        let m = chunks@.map_values(|c: Vec<u8>| c@);
        assert(m.skip(0) =~= m);
        assert(out@ =~= spec_concat(m));
    }
    out
}

/// Append the records `chunks[i..]` to `out`, in order.
fn encode_chunks_from(chunks: &Vec<Vec<u8>>, i: usize, out: &mut Vec<u8>)
    requires
        i <= chunks@.len(),
    ensures
        final(out)@ == old(out)@ + spec_concat(chunks@.map_values(|c: Vec<u8>| c@).skip(i as int)),
    decreases chunks@.len() - i,
{
    let ghost m = chunks@.map_values(|c: Vec<u8>| c@);
    if i == chunks.len() {
        proof {
            assert(spec_concat(m.skip(i as int)) =~= Seq::<u8>::empty());
            assert(out@ =~= old(out)@ + spec_concat(m.skip(i as int)));
        }
    } else {
        crate::encode::push_bytes(out, &chunks[i]);
        encode_chunks_from(chunks, i + 1, out);
        proof {
            let s = m.skip(i as int);
            assert(s[0] == m[i as int]);
            assert(m[i as int] == chunks@[i as int]@);
            assert(s.drop_first() =~= m.skip(i + 1));
            assert(out@ =~= old(out)@ + spec_concat(s));
        }
    }
}

} // verus!
