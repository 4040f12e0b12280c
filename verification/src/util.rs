//! Vector chunking for fan-in batches.

use vstd::prelude::*;

verus! {

/// Splits a vector into batches of at most `n` items, drawing from the tail;
/// the concatenation of the batches is the reverse of the input.
pub fn into_chunks<T>(input: Vec<T>, n: usize) -> (r: Vec<Vec<T>>)
    requires
        n >= 1,
    ensures
        r@.map_values(|c: Vec<T>| c@).flatten() == input@.reverse(),
        forall|i: int| 0 <= i < r@.len() ==> 1 <= (#[trigger] r@[i])@.len() <= n,
        forall|i: int| 0 <= i < r@.len() - 1 ==> (#[trigger] r@[i])@.len() == n,
        input@.len() == 0 ==> r@.len() == 0,
        input@.len() > 0 ==> r@.len() >= 1,
        r@.len() <= input@.len(),
        r@.len() >= 1 ==> (r@.len() - 1) * n + 1 <= input@.len(),
        r@.len() * n >= input@.len(),
        n >= 2 && input@.len() >= 2 ==> r@.len() < input@.len(),
{
    let mut input = input;
    let mut chunks: Vec<Vec<T>> = Vec::new();
    let ghost input0 = input@;
    proof {
        assert(chunks@.map_values(|c: Vec<T>| c@).flatten() =~= Seq::<T>::empty());
        assert(input0.skip(input0.len() as int).reverse() =~= Seq::<T>::empty());
        assert(input@ =~= input0.take(input@.len() as int));
    }
    while input.len() > 0
        invariant
            n >= 1,
            input@ == input0.take(input@.len() as int),
            input@.len() <= input0.len(),
            chunks@.map_values(|c: Vec<T>| c@).flatten() == input0.skip(
                input@.len() as int,
            ).reverse(),
            forall|i: int| 0 <= i < chunks@.len() ==> 1 <= (#[trigger] chunks@[i])@.len() <= n,
            forall|i: int| 0 <= i < chunks@.len() - 1 ==> (#[trigger] chunks@[i])@.len() == n,
            chunks@.len() >= 1 && input@.len() > 0 ==> chunks@.last()@.len() == n,
            chunks@.len() <= input0.len() - input@.len(),
            input@.len() > 0 ==> chunks@.len() * n <= input0.len() - input@.len(),
            chunks@.len() >= 1 ==> (chunks@.len() - 1) * n + 1 <= input0.len() - input@.len(),
            input0.len() - input@.len() <= chunks@.len() * n,
        decreases input@.len(),
    {
        let mut chunk: Vec<T> = Vec::new();
        let ghost len_before = input@.len() as int;
        let ghost nchunks0 = chunks@.len() as int;
        let mut k: usize = 0;
        let take = if n <= input.len() {
            n
        } else {
            input.len()
        };
        while k < take
            invariant
                k <= take,
                take <= len_before <= input0.len(),
                take >= 1,
                input@ == input0.take(len_before - k),
                input@.len() == len_before - k,
                chunk@ == input0.subrange(len_before - k, len_before).reverse(),
            decreases take - k,
        {
            let v = input.pop().unwrap();
            chunk.push(v);
            k = k + 1;
            proof {
                assert(input@ =~= input0.take(len_before - k));
                assert(chunk@ =~= input0.subrange(len_before - k, len_before).reverse());
            }
        }
        let ghost chunks0 = chunks@;
        let ghost piece = input0.subrange(len_before - take, len_before).reverse();
        chunks.push(chunk);
        proof {
            let f = |c: Vec<T>| c@;
            assert(chunks@.drop_last() =~= chunks0);
            assert(chunks@.last() == chunk);
            assert(chunk@ == piece);
            assert(chunks@.map_values(f).drop_last() =~= chunks0.map_values(f));
            assert(chunks@.map_values(f).last() == piece);
            chunks@.map_values(f).lemma_flatten_and_flatten_alt_are_equivalent();
            chunks0.map_values(f).lemma_flatten_and_flatten_alt_are_equivalent();
            assert(chunks@.map_values(f).flatten_alt() == chunks@.map_values(
                f,
            ).drop_last().flatten_alt().add(chunks@.map_values(f).last()));
            assert(chunks0.map_values(f).flatten() == input0.skip(len_before).reverse());
            assert(input0.skip(len_before - take) =~= input0.subrange(
                len_before - take,
                len_before,
            ) + input0.skip(len_before));
            assert(input0.skip(len_before).reverse() + piece =~= input0.skip(
                len_before - take,
            ).reverse());
            assert(chunks@.map_values(f).flatten() == input0.skip(
                input@.len() as int,
            ).reverse());
            // batch counting
            assert((nchunks0 + 1) * n == nchunks0 * n + n) by (nonlinear_arith);
            if input@.len() > 0 {
                assert(take == n);
            }
        }
    }
    proof {
        assert(input0.skip(0).reverse() =~= input0.reverse());
        assert(input@ =~= Seq::<T>::empty());
        if chunks@.len() >= 1 && n >= 2 && input0.len() >= 2 && chunks@.len() >= input0.len() {
            assert((chunks@.len() - 1) * n >= (chunks@.len() - 1) * 2) by (nonlinear_arith)
                requires
                    n >= 2,
                    chunks@.len() >= 1,
            ;
            assert(false);
        }
    }
    chunks
}

} // verus!
