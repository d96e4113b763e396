//! Byte-frequency counter: tallies how often each byte value occurs in a
//! text and lists the tallies most frequent first.
//!
//! Ties are broken deterministically by ascending byte value, a
//! strengthening of the looser requirement that ties may come in any
//! order.
use vstd::prelude::*;

verus! {

/// How many times a byte value occurs in a sequence.
pub open spec fn count_of(s: Seq<u8>, b: u8) -> nat
    decreases s.len(),
{
    if s.len() == 0 {
        0
    } else {
        count_of(s.drop_last(), b) + if s.last() == b {
            1nat
        } else {
            0nat
        }
    }
}

/// The output order: strictly greater count first, ties by ascending byte.
pub open spec fn freq_before(x: (u8, u64), y: (u8, u64)) -> bool {
    x.1 > y.1 || (x.1 == y.1 && x.0 < y.0)
}

/// A byte occurs at most as often as the sequence is long.
proof fn lemma_count_le_len(s: Seq<u8>, b: u8)
    ensures
        count_of(s, b) <= s.len(),
    decreases s.len(),
{
    if s.len() > 0 {
        lemma_count_le_len(s.drop_last(), b);
    }
}

/// Two entries with different bytes are ordered one way or the other.
proof fn lemma_freq_total(x: (u8, u64), y: (u8, u64))
    requires
        x.0 != y.0,
        !freq_before(x, y),
    ensures
        freq_before(y, x),
{
}

/// Compares two tallies in output order: greater count first, ties by
/// ascending byte.
fn comes_before(x: (u8, u64), y: (u8, u64)) -> (r: bool)
    ensures
        r == freq_before(x, y),
{
    x.1 > y.1 || (x.1 == y.1 && x.0 < y.0)
}

/// Tallies the occurrences of each byte value in `text`, most frequent
/// first, ties by ascending byte value.
///
/// Every returned pair carries a byte's exact occurrence count; only bytes
/// that occur are listed, each exactly once, and every byte that occurs is
/// listed.
pub fn byte_frequencies(text: &Vec<u8>) -> (r: Vec<(u8, u64)>)
    ensures
        forall|k: int|
            0 <= k < r@.len() ==> (#[trigger] r@[k]).1 == count_of(text@, r@[k].0) && r@[k].1 > 0,
        forall|b: u8| count_of(text@, b) > 0 ==> exists|k: int| 0 <= k < r@.len() && r@[k].0 == b,
        forall|p: int, q: int| 0 <= p < q < r@.len() ==> freq_before(r@[p], r@[q]),
{
    let mut counts: Vec<u64> = Vec::new();
    let mut k: usize = 0;
    while k < 256
        invariant
            counts@.len() == k,
            k <= 256,
            forall|j: int| 0 <= j < k ==> counts@[j] == 0,
        decreases 256 - k,
    {
        counts.push(0);
        k += 1;
    }
    let n = text.len();
    let mut i: usize = 0;
    proof {
        assert(text@.take(0) =~= Seq::<u8>::empty());
    }
    while i < n
        invariant
            counts@.len() == 256,
            n == text@.len(),
            i <= n,
            forall|v: u8| #[trigger] counts@[v as int] == count_of(text@.take(i as int), v),
        decreases n - i,
    {
        let b = text[i];
        let c = counts[b as usize];
        proof {
            lemma_count_le_len(text@.take(i as int), b);
        }
        counts[b as usize] = c + 1;
        proof {
            let ghost pre = text@.take(i as int);
            let ghost post = text@.take(i as int + 1);
            assert(post.drop_last() =~= pre);
            assert(post.last() == text@[i as int]);
            assert forall|v: u8| #[trigger] counts@[v as int] == count_of(post, v) by {
                assert(count_of(post, v) == count_of(pre, v) + if text@[i as int] == v {
                    1nat
                } else {
                    0nat
                });
            }
        }
        i += 1;
    }
    proof {
        assert(text@.take(n as int) =~= text@);
    }
    let mut pairs: Vec<(u8, u64)> = Vec::new();
    let mut v: usize = 0;
    while v < 256
        invariant
            counts@.len() == 256,
            v <= 256,
            forall|b: u8| #[trigger] counts@[b as int] == count_of(text@, b),
            forall|k: int|
                0 <= k < pairs@.len() ==> (#[trigger] pairs@[k]).1 == count_of(text@, pairs@[k].0)
                    && pairs@[k].1 > 0 && (pairs@[k].0 as int) < v,
            forall|p: int, q: int| 0 <= p < q < pairs@.len() ==> pairs@[p].0 < pairs@[q].0,
            forall|b: u8|
                (b as int) < v && count_of(text@, b) > 0 ==> exists|k: int|
                    0 <= k < pairs@.len() && pairs@[k].0 == b,
        decreases 256 - v,
    {
        let ghost old_pairs = pairs@;
        let c = counts[v];
        if c > 0 {
            pairs.push((v as u8, c));
        }
        proof {
            assert forall|b: u8| (b as int) < v + 1 && count_of(text@, b) > 0 implies exists|k: int|
                0 <= k < pairs@.len() && pairs@[k].0 == b by {
                if (b as int) == v as int {
                    assert(counts@[b as int] == count_of(text@, b));
                    assert(pairs@[pairs@.len() - 1].0 == b);
                } else {
                    let w = choose|w: int| 0 <= w < old_pairs.len() && old_pairs[w].0 == b;
                    assert(pairs@[w].0 == b);
                }
            }
        }
        v += 1;
    }
    let m = pairs.len();
    let mut idx: usize = 1;
    while idx < m
        invariant
            m == pairs@.len(),
            1 <= idx,
            idx <= m || m == 0,
            forall|k: int|
                0 <= k < pairs@.len() ==> (#[trigger] pairs@[k]).1 == count_of(text@, pairs@[k].0)
                    && pairs@[k].1 > 0,
            forall|p: int, q: int| 0 <= p < q < pairs@.len() ==> pairs@[p].0 != pairs@[q].0,
            forall|b: u8|
                count_of(text@, b) > 0 ==> exists|k: int| 0 <= k < pairs@.len() && pairs@[k].0 == b,
            forall|p: int, q: int| 0 <= p < q < idx && q < m ==> freq_before(pairs@[p], pairs@[q]),
        decreases m - idx,
    {
        let mut j: usize = idx;
        while j > 0 && comes_before(pairs[j], pairs[j - 1])
            invariant
                m == pairs@.len(),
                0 <= j <= idx,
                idx < m,
                forall|k: int|
                    0 <= k < pairs@.len() ==> (#[trigger] pairs@[k]).1 == count_of(
                        text@,
                        pairs@[k].0,
                    ) && pairs@[k].1 > 0,
                forall|p: int, q: int| 0 <= p < q < pairs@.len() ==> pairs@[p].0 != pairs@[q].0,
                forall|b: u8|
                    count_of(text@, b) > 0 ==> exists|k: int|
                        0 <= k < pairs@.len() && pairs@[k].0 == b,
                forall|p: int, q: int|
                    0 <= p < q <= idx && p != j && q != j ==> freq_before(pairs@[p], pairs@[q]),
                forall|q: int| j < q <= idx ==> freq_before(pairs@[j as int], pairs@[q]),
            decreases j,
        {
            let a = pairs[j - 1];
            let b = pairs[j];
            let ghost pre = pairs@;
            pairs[j - 1] = b;
            pairs[j] = a;
            proof {
                let jj = j as int;
                assert(pairs@[jj - 1] == b && pairs@[jj] == a);
                assert(forall|k: int| 0 <= k < m && k != jj - 1 && k != jj ==> pairs@[k] == pre[k]);
                assert forall|bb: u8| count_of(text@, bb) > 0 implies exists|k: int|
                    0 <= k < pairs@.len() && pairs@[k].0 == bb by {
                    let w = choose|w: int| 0 <= w < pre.len() && pre[w].0 == bb;
                    if w == jj - 1 {
                        assert(pairs@[jj].0 == bb);
                    } else if w == jj {
                        assert(pairs@[jj - 1].0 == bb);
                    } else {
                        assert(pairs@[w].0 == bb);
                    }
                }
            }
            j -= 1;
        }
        proof {
            let jj = j as int;
            if jj > 0 {
                let x = pairs@[jj];
                let y = pairs@[jj - 1];
                assert(x.0 != y.0);
                lemma_freq_total(x, y);
                assert forall|p: int| 0 <= p < jj implies freq_before(pairs@[p], x) by {
                    if p < jj - 1 {
                        assert(freq_before(pairs@[p], y));
                    }
                }
            }
            assert forall|p: int, q: int| 0 <= p < q < idx + 1 implies freq_before(
                pairs@[p],
                pairs@[q],
            ) by {
                if q == jj {
                } else if p == jj {
                }
            }
        }
        idx += 1;
    }
    pairs
}

} // verus!
