//! Ranker ordering: positions sorted by descending score, ties kept in
//! discovery order.

use vstd::prelude::*;

verus! {

/// `order` with position `x` inserted behind every entry whose key is at
/// least `keys[x]`, so that an earlier position stays ahead on a tie.
pub open spec fn insert_ranked(order: Seq<int>, keys: Seq<u64>, x: int) -> Seq<int>
    decreases order.len(),
{
    if order.len() == 0 {
        seq![x]
    } else if keys[order.last()] >= keys[x] {
        order.push(x)
    } else {
        insert_ranked(order.drop_last(), keys, x).push(order.last())
    }
}

/// The first `n` positions of `keys` in rank order: descending key, and
/// ascending position among equal keys.
pub open spec fn ranking_of(keys: Seq<u64>, n: nat) -> Seq<int>
    decreases n,
{
    if n == 0 {
        Seq::empty()
    } else {
        insert_ranked(ranking_of(keys, (n - 1) as nat), keys, n - 1)
    }
}

/// All positions of `keys` in rank order.
pub open spec fn ranking(keys: Seq<u64>) -> Seq<int> {
    ranking_of(keys, keys.len())
}

/// Whether position `a` ranks strictly ahead of position `b`.
pub open spec fn ranks_before(keys: Seq<u64>, a: int, b: int) -> bool {
    keys[a] > keys[b] || (keys[a] == keys[b] && a < b)
}

/// Whether `order` lists each of the positions `0..n` once, every entry
/// ranking ahead of those behind it.
pub open spec fn is_ranked(order: Seq<int>, keys: Seq<u64>, n: nat) -> bool {
    &&& order.len() == n
    &&& forall|i: int| 0 <= i < order.len() ==> 0 <= #[trigger] order[i] < n
    &&& forall|p: int| 0 <= p < n ==> order.contains(p)
    &&& forall|i: int, j: int|
        0 <= i < j < order.len() ==> ranks_before(keys, #[trigger] order[i], #[trigger] order[j])
}

/// `as_ints(v)[i]` is `v[i]`.
pub open spec fn as_ints(v: Seq<usize>) -> Seq<int> {
    Seq::new(v.len(), |i: int| v[i] as int)
}

/// Inserting at the boundary between the keys at least `keys[x]` and the
/// smaller ones is what `insert_ranked` does.
proof fn lemma_insert_at(order: Seq<int>, keys: Seq<u64>, x: int, p: int)
    requires
        0 <= p <= order.len(),
        forall|i: int| p <= i < order.len() ==> keys[#[trigger] order[i]] < keys[x],
        p > 0 ==> keys[order[p - 1]] >= keys[x],
    ensures
        insert_ranked(order, keys, x) == order.take(p) + seq![x] + order.skip(p),
    decreases order.len(),
{
    if order.len() == 0 {
        assert(order.take(p) + seq![x] + order.skip(p) =~= seq![x]);
    } else if p == order.len() {
        assert(order.take(p) + seq![x] + order.skip(p) =~= order.push(x));
    } else {
        let shorter = order.drop_last();
        assert(keys[order[order.len() - 1]] < keys[x]);
        assert forall|i: int| p <= i < shorter.len() implies keys[#[trigger] shorter[i]]
            < keys[x] by {
            assert(shorter[i] == order[i]);
        }
        lemma_insert_at(shorter, keys, x, p);
        assert(shorter.take(p) =~= order.take(p));
        assert((order.take(p) + seq![x] + shorter.skip(p)).push(order.last()) =~= order.take(p)
            + seq![x] + order.skip(p));
    }
}

/// Rank order is a permutation of the positions in which every entry ranks
/// ahead of those behind it: scores descend, and equal scores keep their
/// discovery order.
pub proof fn lemma_ranking_is_ranked(keys: Seq<u64>, n: nat)
    requires
        n <= keys.len(),
    ensures
        is_ranked(ranking_of(keys, n), keys, n),
    decreases n,
{
    if n > 0 {
        let m = (n - 1) as nat;
        let before = ranking_of(keys, m);
        lemma_ranking_is_ranked(keys, m);
        lemma_insert_keeps_ranked(before, keys, m);
    }
}

/// Inserting the next position into a ranked order keeps it ranked.
proof fn lemma_insert_keeps_ranked(order: Seq<int>, keys: Seq<u64>, m: nat)
    requires
        m < keys.len(),
        is_ranked(order, keys, m),
    ensures
        is_ranked(insert_ranked(order, keys, m as int), keys, m + 1),
{
    let p = boundary(order, keys, m as int);
    lemma_boundary(order, keys, m as int);
    lemma_insert_at(order, keys, m as int, p);
    let out = order.take(p) + seq![m as int] + order.skip(p);
    assert forall|q: int| 0 <= q < m + 1 implies out.contains(q) by {
        if q == m {
            assert(out[p] == q);
        } else {
            assert(order.contains(q));
            let i = choose|i: int| 0 <= i < order.len() && order[i] == q;
            if i < p {
                assert(out[i] == q);
            } else {
                assert(out[i + 1] == q);
            }
        }
    }
    assert forall|i: int, j: int| 0 <= i < j < out.len() implies ranks_before(
        keys,
        #[trigger] out[i],
        #[trigger] out[j],
    ) by {
        let a = if i < p { i } else { i - 1 };
        let b = if j < p { j } else { j - 1 };
        if i == p {
            assert(out[j] == order[b]);
        } else if j == p {
            assert(out[i] == order[a]);
            lemma_keys_before_boundary(order, keys, m, p, a);
        } else {
            assert(out[i] == order[a]);
            assert(out[j] == order[b]);
        }
    }
    assert forall|i: int| 0 <= i < out.len() implies 0 <= #[trigger] out[i] < m + 1 by {
        if i < p {
            assert(out[i] == order[i]);
        } else if i > p {
            assert(out[i] == order[i - 1]);
        }
    }
}

/// In a ranked order, every entry ahead of one whose key is at least `key`
/// has a key at least `key` too.
proof fn lemma_keys_before_boundary(order: Seq<int>, keys: Seq<u64>, m: nat, p: int, a: int)
    requires
        is_ranked(order, keys, m),
        0 <= a < p <= order.len(),
        keys[order[p - 1]] >= keys[m as int],
    ensures
        keys[order[a]] >= keys[m as int],
{
    if a < p - 1 {
        assert(ranks_before(keys, order[a], order[p - 1]));
    }
}

/// The number of entries of `order` that stay ahead of position `x`.
pub open spec fn boundary(order: Seq<int>, keys: Seq<u64>, x: int) -> int
    decreases order.len(),
{
    if order.len() == 0 || keys[order.last()] >= keys[x] {
        order.len() as int
    } else {
        boundary(order.drop_last(), keys, x)
    }
}

proof fn lemma_boundary(order: Seq<int>, keys: Seq<u64>, x: int)
    ensures
        0 <= boundary(order, keys, x) <= order.len(),
        forall|i: int|
            boundary(order, keys, x) <= i < order.len() ==> keys[#[trigger] order[i]] < keys[x],
        boundary(order, keys, x) > 0 ==> keys[order[boundary(order, keys, x) - 1]] >= keys[x],
    decreases order.len(),
{
    if order.len() == 0 || keys[order.last()] >= keys[x] {
    } else {
        let shorter = order.drop_last();
        lemma_boundary(shorter, keys, x);
        let p = boundary(shorter, keys, x);
        assert forall|i: int| p <= i < order.len() implies keys[#[trigger] order[i]]
            < keys[x] by {
            if i < shorter.len() {
                assert(shorter[i] == order[i]);
            }
        }
        if p > 0 {
            assert(shorter[p - 1] == order[p - 1]);
        }
    }
}

/// Orders the positions of `keys` by descending key; positions with equal
/// keys keep their relative order.
pub fn rank_descending(keys: &Vec<u64>) -> (order: Vec<usize>)
    ensures
        as_ints(order@) == ranking(keys@),
        is_ranked(as_ints(order@), keys@, keys@.len()),
{
    let mut order: Vec<usize> = Vec::new();
    let mut n: usize = 0;
    assert(as_ints(order@) =~= ranking_of(keys@, 0));
    while n < keys.len()
        invariant
            n <= keys.len(),
            as_ints(order@) == ranking_of(keys@, n as nat),
        decreases keys.len() - n,
    {
        proof {
            lemma_ranking_is_ranked(keys@, n as nat);
            assert forall|i: int| 0 <= i < order.len() implies #[trigger] order@[i] < n by {
                assert(as_ints(order@)[i] == order@[i]);
            }
        }
        let mut p: usize = order.len();
        while p > 0 && keys[order[p - 1]] < keys[n]
            invariant
                p <= order.len(),
                order.len() == n,
                n < keys.len(),
                is_ranked(as_ints(order@), keys@, n as nat),
                forall|i: int| 0 <= i < order.len() ==> #[trigger] order@[i] < n,
                forall|i: int|
                    p <= i < order.len() ==> keys@[#[trigger] as_ints(order@)[i]] < keys@[n as int],
            decreases p,
        {
            assert(0 <= as_ints(order@)[p - 1] < n);
            p -= 1;
        }
        proof {
            if p > 0 {
                assert(0 <= as_ints(order@)[p - 1] < n);
            }
            lemma_insert_at(as_ints(order@), keys@, n as int, p as int);
        }
        let ghost before = as_ints(order@);
        order.insert(p, n);
        assert(as_ints(order@) =~= before.take(p as int) + seq![n as int] + before.skip(p as int));
        n += 1;
    }
    proof {
        lemma_ranking_is_ranked(keys@, keys@.len());
    }
    order
}

/// The bits of a single-precision pattern without its sign.
pub open spec fn magnitude(bits: u32) -> u32 {
    bits & 0x7fff_ffff
}

/// Whether the sign bit of a single-precision pattern is set.
pub open spec fn sign_set(bits: u32) -> bool {
    bits & 0x8000_0000 != 0
}

/// Whether a single-precision pattern is not a number: all exponent bits
/// set, and a fraction that is not zero.
pub open spec fn is_nan(bits: u32) -> bool {
    magnitude(bits) > 0x7f80_0000
}

/// Whether the number with the pattern `a` is less than the one with the
/// pattern `b`, neither being not a number: the two zeros are equal, a
/// negative number is less than one that is not, and of two numbers of one
/// sign the magnitudes decide.
pub open spec fn score_lt(a: u32, b: u32) -> bool {
    if magnitude(a) == 0 && magnitude(b) == 0 {
        false
    } else if sign_set(a) {
        if sign_set(b) {
            magnitude(a) > magnitude(b)
        } else {
            true
        }
    } else {
        if sign_set(b) {
            false
        } else {
            magnitude(a) < magnitude(b)
        }
    }
}

/// The key by which a single-precision pattern is ranked: keys are ordered
/// as the numbers are.
pub open spec fn rank_key(bits: u32) -> u32 {
    if magnitude(bits) == 0 {
        0x8000_0000
    } else if sign_set(bits) {
        !bits
    } else {
        bits | 0x8000_0000
    }
}

/// Keys are ordered as the numbers of their patterns are.
pub proof fn lemma_rank_key_orders(a: u32, b: u32)
    ensures
        score_lt(a, b) <==> rank_key(a) < rank_key(b),
        rank_key(a) == rank_key(b) <==> !score_lt(a, b) && !score_lt(b, a),
{
    assert({
        let ma = a & 0x7fff_ffffu32;
        let mb = b & 0x7fff_ffffu32;
        let na = (a & 0x8000_0000u32) != 0;
        let nb = (b & 0x8000_0000u32) != 0;
        let ka = if ma == 0 {
            0x8000_0000u32
        } else if na {
            !a
        } else {
            a | 0x8000_0000u32
        };
        let kb = if mb == 0 {
            0x8000_0000u32
        } else if nb {
            !b
        } else {
            b | 0x8000_0000u32
        };
        let lt = if ma == 0 && mb == 0 {
            false
        } else if na {
            if nb {
                ma > mb
            } else {
                true
            }
        } else {
            if nb {
                false
            } else {
                ma < mb
            }
        };
        let gt = if mb == 0 && ma == 0 {
            false
        } else if nb {
            if na {
                mb > ma
            } else {
                true
            }
        } else {
            if na {
                false
            } else {
                mb < ma
            }
        };
        (lt <==> ka < kb) && (ka == kb <==> !lt && !gt)
    }) by (bit_vector);
}

/// Computes the rank key of a single-precision pattern.
pub fn score_key(bits: u32) -> (key: u32)
    ensures
        key == rank_key(bits),
{
    if bits & 0x7fff_ffff == 0 {
        0x8000_0000
    } else if bits & 0x8000_0000 != 0 {
        !bits
    } else {
        bits | 0x8000_0000
    }
}

/// Tells whether a single-precision pattern is not a number.
pub fn score_is_nan(bits: u32) -> (nan: bool)
    ensures
        nan == is_nan(bits),
{
    bits & 0x7fff_ffff > 0x7f80_0000
}

} // verus!
