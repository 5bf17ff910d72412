//! The boundary to the embedding provider: how requests are batched, and
//! the check that a response has the shape of its request.

use vstd::prelude::*;

verus! {

/// The largest number of texts sent to the provider in one request.
pub const EMBEDDING_BATCH_SIZE: usize = 100;

/// The `index`-th of the consecutive ranges of width `batch` that cover
/// `0..count`; the last range may be narrower.
pub open spec fn batch_at(count: nat, batch: nat, index: nat) -> (nat, nat) {
    (index * batch, if (index + 1) * batch < count {
        (index + 1) * batch
    } else {
        count
    })
}

/// The number of batches that cover `count` texts.
pub open spec fn batch_count(count: nat, batch: nat) -> nat {
    if batch == 0 {
        0
    } else {
        ((count + batch - 1) / batch as int) as nat
    }
}

/// The models of a sequence of ranges.
pub open spec fn range_models(ranges: Seq<(usize, usize)>) -> Seq<(nat, nat)> {
    Seq::new(ranges.len(), |i: int| (ranges[i].0 as nat, ranges[i].1 as nat))
}

/// Cuts `0..count` into consecutive ranges of `batch` positions, the last
/// one holding what is left; no range is empty.
pub fn batch_ranges(count: usize, batch: usize) -> (ranges: Vec<(usize, usize)>)
    requires
        batch > 0,
    ensures
        ranges.len() == batch_count(count as nat, batch as nat),
        forall|i: int|
            0 <= i < ranges.len() ==> #[trigger] range_models(ranges@)[i] == batch_at(
                count as nat,
                batch as nat,
                i as nat,
            ),
        forall|i: int|
            0 <= i < ranges.len() ==> (#[trigger] ranges@[i]).0 < ranges@[i].1 <= count
                && ranges@[i].1 - ranges@[i].0 <= batch,
{
    let mut ranges: Vec<(usize, usize)> = Vec::new();
    let mut start: usize = 0;
    proof {
        assert(0 * batch == 0) by (nonlinear_arith);
        if count == 0 {
            assert((batch - 1) / batch as int == 0) by (nonlinear_arith)
                requires
                    batch > 0,
            ;
        }
    }
    while start < count
        invariant
            batch > 0,
            start <= count,
            start == count ==> ranges.len() == batch_count(count as nat, batch as nat),
            start < count ==> ranges.len() * batch == start,
            forall|i: int|
                0 <= i < ranges.len() ==> #[trigger] range_models(ranges@)[i] == batch_at(
                    count as nat,
                    batch as nat,
                    i as nat,
                ),
            forall|i: int|
                0 <= i < ranges.len() ==> (#[trigger] ranges@[i]).0 < ranges@[i].1 <= count
                    && ranges@[i].1 - ranges@[i].0 <= batch,
        decreases count - start,
    {
        let end: usize = if count - start > batch {
            start + batch
        } else {
            count
        };
        let ghost index = ranges.len() as nat;
        let ghost before = ranges@;
        proof {
            assert((index + 1) * batch == index * batch + batch) by (nonlinear_arith);
            if end == count {
                lemma_last_batch(count as nat, batch as nat, index);
            }
        }
        ranges.push((start, end));
        assert forall|i: int| 0 <= i < ranges.len() implies #[trigger] range_models(ranges@)[i]
            == batch_at(count as nat, batch as nat, i as nat) by {
            if i < before.len() {
                assert(range_models(before)[i] == batch_at(count as nat, batch as nat, i as nat));
            }
        }
        assert forall|i: int| 0 <= i < ranges.len() implies (#[trigger] ranges@[i]).0
            < ranges@[i].1 <= count && ranges@[i].1 - ranges@[i].0 <= batch by {
            if i < before.len() {
                assert(before[i].0 < before[i].1);
            }
        }
        start = end;
    }
    ranges
}

/// The batch that reaches the end is the last.
proof fn lemma_last_batch(count: nat, batch: nat, index: nat)
    requires
        batch > 0,
        index * batch < count <= (index + 1) * batch,
    ensures
        batch_count(count, batch) == index + 1,
{
    let total = count + batch - 1;
    assert(total >= (index + 1) * batch) by (nonlinear_arith)
        requires
            index * batch < count,
            total == count + batch - 1,
    ;
    assert(total < (index + 2) * batch) by (nonlinear_arith)
        requires
            count <= (index + 1) * batch,
            total == count + batch - 1,
            batch > 0,
    ;
    vstd::arithmetic::div_mod::lemma_div_multiples_vanish_fancy(
        (index + 1) as int,
        (total - (index + 1) * batch) as int,
        batch as int,
    );
    assert((index + 1) * batch + (total - (index + 1) * batch) == total);
}

/// How a response of the embedding provider fails to match its request.
#[derive(Clone, Copy, Debug, PartialEq, Eq, Structural)]
pub enum EmbeddingMismatch {
    /// The response holds `actual` vectors for `expected` texts.
    Count { expected: usize, actual: usize },
    /// The vector at `index` has `actual` components where the first vector
    /// has `expected`.
    Dimension { index: usize, expected: usize, actual: usize },
}

/// The first position whose dimension differs from that of position 0.
pub open spec fn first_odd_dimension(dimensions: Seq<usize>) -> Option<int>
    decreases dimensions.len(),
{
    if dimensions.len() == 0 {
        None
    } else {
        match first_odd_dimension(dimensions.drop_last()) {
            Some(index) => Some(index),
            None => if dimensions.last() != dimensions[0] {
                Some(dimensions.len() - 1)
            } else {
                None
            },
        }
    }
}

/// What the check of a response with the vector lengths `dimensions`
/// against a request for `requested` texts gives.
pub open spec fn embedding_check(requested: usize, dimensions: Seq<usize>) -> Result<
    (),
    EmbeddingMismatch,
> {
    if dimensions.len() != requested {
        Err(EmbeddingMismatch::Count { expected: requested, actual: dimensions.len() as usize })
    } else {
        match first_odd_dimension(dimensions) {
            Some(index) => Err(
                EmbeddingMismatch::Dimension {
                    index: index as usize,
                    expected: dimensions[0],
                    actual: dimensions[index],
                },
            ),
            None => Ok(()),
        }
    }
}

/// A response passes when it has one vector for each text and all vectors
/// have one length.
pub proof fn lemma_embedding_check_passes(requested: usize, dimensions: Seq<usize>)
    ensures
        embedding_check(requested, dimensions) is Ok <==> dimensions.len() == requested && forall|
            i: int,
        |
            0 <= i < dimensions.len() ==> #[trigger] dimensions[i] == dimensions[0],
    decreases dimensions.len(),
{
    lemma_first_odd_dimension(dimensions);
}

/// `first_odd_dimension` finds the least position that differs, if any.
proof fn lemma_first_odd_dimension(dimensions: Seq<usize>)
    ensures
        match first_odd_dimension(dimensions) {
            Some(index) => 0 <= index < dimensions.len() && dimensions[index] != dimensions[0]
                && forall|i: int| 0 <= i < index ==> #[trigger] dimensions[i] == dimensions[0],
            None => forall|i: int|
                0 <= i < dimensions.len() ==> #[trigger] dimensions[i] == dimensions[0],
        },
    decreases dimensions.len(),
{
    if dimensions.len() > 0 {
        let shorter = dimensions.drop_last();
        lemma_first_odd_dimension(shorter);
        if shorter.len() > 0 {
            assert(shorter[0] == dimensions[0]);
        }
        match first_odd_dimension(shorter) {
            Some(index) => {
                assert(shorter[index] == dimensions[index]);
                assert forall|i: int| 0 <= i < index implies #[trigger] dimensions[i]
                    == dimensions[0] by {
                    assert(shorter[i] == dimensions[i]);
                }
            },
            None => {
                assert forall|i: int| 0 <= i < dimensions.len() - 1 implies #[trigger] dimensions[i]
                    == dimensions[0] by {
                    assert(shorter[i] == dimensions[i]);
                }
            },
        }
    }
}

/// Checks that a response with vectors of the lengths `dimensions` answers
/// a request for `requested` texts: as many vectors as texts, all of one
/// length. Nothing is cut or filled up.
pub fn check_embeddings(requested: usize, dimensions: &Vec<usize>) -> (outcome: Result<
    (),
    EmbeddingMismatch,
>)
    ensures
        outcome == embedding_check(requested, dimensions@),
{
    if dimensions.len() != requested {
        return Err(EmbeddingMismatch::Count { expected: requested, actual: dimensions.len() });
    }
    let mut i: usize = 0;
    while i < dimensions.len()
        invariant
            i <= dimensions.len(),
            dimensions.len() == requested,
            first_odd_dimension(dimensions@.take(i as int)) is None,
        decreases dimensions.len() - i,
    {
        proof {
            assert(dimensions@.take(i + 1).drop_last() =~= dimensions@.take(i as int));
            assert(dimensions@.take(i + 1)[0] == dimensions@[0]);
        }
        if dimensions[i] != dimensions[0] {
            proof {
                lemma_odd_dimension_stays(dimensions@, i + 1);
            }
            return Err(
                EmbeddingMismatch::Dimension {
                    index: i,
                    expected: dimensions[0],
                    actual: dimensions[i],
                },
            );
        }
        i += 1;
    }
    assert(dimensions@.take(i as int) =~= dimensions@);
    Ok(())
}

/// A differing position found in a prefix is the first of the whole.
proof fn lemma_odd_dimension_stays(dimensions: Seq<usize>, n: int)
    requires
        1 <= n <= dimensions.len(),
        first_odd_dimension(dimensions.take(n)) is Some,
    ensures
        first_odd_dimension(dimensions) == first_odd_dimension(dimensions.take(n)),
    decreases dimensions.len() - n,
{
    if n < dimensions.len() {
        assert(dimensions.take(n + 1).drop_last() =~= dimensions.take(n));
        assert(dimensions.take(n + 1)[0] == dimensions.take(n)[0]);
        lemma_odd_dimension_stays(dimensions, n + 1);
    } else {
        assert(dimensions.take(n) =~= dimensions);
    }
}

} // verus!
