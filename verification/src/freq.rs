//! The frequency model: how often each byte value occurs in the input, and
//! the working set of leaves (one per byte value that occurs) that tree
//! construction starts from.
use crate::tree::{sum_nats, ws_freqs, Node};
use vstd::prelude::*;

verus! {

/// Occurrences of `b` in `s`.
pub open spec fn count_of(s: Seq<u8>, b: u8) -> nat
    decreases s.len(),
{
    if s.len() == 0 {
        0
    } else {
        count_of(s.drop_last(), b) + (if s.last() == b {
            1nat
        } else {
            0nat
        })
    }
}

pub proof fn lemma_count_le_len(s: Seq<u8>, b: u8)
    ensures
        count_of(s, b) <= s.len(),
    decreases s.len(),
{
    if s.len() > 0 {
        lemma_count_le_len(s.drop_last(), b);
    }
}

/// A byte value that occurs in `s` has a positive count.
pub proof fn lemma_count_present(s: Seq<u8>, i: int)
    requires
        0 <= i < s.len(),
    ensures
        count_of(s, s[i]) > 0,
    decreases s.len(),
{
    if i == s.len() - 1 {
    } else {
        lemma_count_present(s.drop_last(), i);
    }
}

/// The counts of all byte values below `n`, summed.
pub open spec fn count_upto(s: Seq<u8>, n: nat) -> nat
    decreases n,
{
    if n == 0 {
        0
    } else {
        count_upto(s, (n - 1) as nat) + count_of(s, (n - 1) as u8)
    }
}

proof fn lemma_count_upto_empty(n: nat)
    ensures
        count_upto(Seq::empty(), n) == 0,
    decreases n,
{
    if n > 0 {
        lemma_count_upto_empty((n - 1) as nat);
    }
}

proof fn lemma_count_upto_snoc(s: Seq<u8>, x: u8, n: nat)
    requires
        n <= 256,
    ensures
        count_upto(s.push(x), n) == count_upto(s, n) + (if (x as nat) < n {
            1nat
        } else {
            0nat
        }),
    decreases n,
{
    if n > 0 {
        lemma_count_upto_snoc(s, x, (n - 1) as nat);
        assert(s.push(x).drop_last() =~= s);
    }
}

/// Every byte of `s` is counted exactly once over all 256 byte values.
pub proof fn lemma_total_count(s: Seq<u8>)
    ensures
        count_upto(s, 256) == s.len(),
    decreases s.len(),
{
    if s.len() == 0 {
        lemma_count_upto_empty(256);
        assert(s =~= Seq::<u8>::empty());
    } else {
        lemma_total_count(s.drop_last());
        lemma_count_upto_snoc(s.drop_last(), s.last(), 256);
        assert(s.drop_last().push(s.last()) =~= s);
    }
}

/// One working-set leaf per byte value below `n` that occurs in `s`, in
/// ascending byte-value order, carrying its count.
pub open spec fn leaves_upto(s: Seq<u8>, n: nat) -> Seq<(nat, Node)>
    decreases n,
{
    if n == 0 {
        Seq::empty()
    } else {
        let t = leaves_upto(s, (n - 1) as nat);
        if count_of(s, (n - 1) as u8) > 0 {
            t.push((count_of(s, (n - 1) as u8), Node::Leaf((n - 1) as u8)))
        } else {
            t
        }
    }
}

/// The working set all tree construction starts from.
pub open spec fn leaves_of(s: Seq<u8>) -> Seq<(nat, Node)> {
    leaves_upto(s, 256)
}

pub proof fn lemma_leaves_upto_len(s: Seq<u8>, n: nat)
    ensures
        leaves_upto(s, n).len() <= n,
    decreases n,
{
    if n > 0 {
        lemma_leaves_upto_len(s, (n - 1) as nat);
    }
}

/// Every working-set entry is a leaf that carries the exact count of its
/// byte value, and that count is positive.
pub proof fn lemma_leaves_upto_shape(s: Seq<u8>, n: nat)
    ensures
        forall|k: int|
            0 <= k < leaves_upto(s, n).len() ==> {
                let e = #[trigger] leaves_upto(s, n)[k];
                e.1 is Leaf && e.0 == count_of(s, e.1->Leaf_0) && e.0 > 0 && (e.1->Leaf_0 as nat)
                    < n
            },
    decreases n,
{
    if n > 0 {
        lemma_leaves_upto_shape(s, (n - 1) as nat);
    }
}

/// The working-set frequencies sum to the counts of all byte values
/// below `n`.
pub proof fn lemma_leaves_upto_freq_sum(s: Seq<u8>, n: nat)
    ensures
        sum_nats(ws_freqs(leaves_upto(s, n))) == count_upto(s, n),
    decreases n,
{
    if n > 0 {
        lemma_leaves_upto_freq_sum(s, (n - 1) as nat);
        let t = leaves_upto(s, (n - 1) as nat);
        let c = count_of(s, (n - 1) as u8);
        if c > 0 {
            assert(ws_freqs(t.push((c, Node::Leaf((n - 1) as u8)))) =~= ws_freqs(t).push(c));
            assert(ws_freqs(t).push(c).drop_last() =~= ws_freqs(t));
        }
    } else {
        assert(ws_freqs(leaves_upto(s, 0)) =~= Seq::<nat>::empty());
    }
}

/// A byte value with a positive count has its leaf in the working set.
pub proof fn lemma_leaves_upto_has(s: Seq<u8>, b: u8, n: nat)
    requires
        count_of(s, b) > 0,
        (b as nat) < n,
    ensures
        exists|k: int|
            0 <= k < leaves_upto(s, n).len() && #[trigger] leaves_upto(s, n)[k] == (
                count_of(s, b),
                Node::Leaf(b),
            ),
    decreases n,
{
    let t = leaves_upto(s, (n - 1) as nat);
    if b as nat == n - 1 {
        assert(leaves_upto(s, n)[t.len() as int] == (count_of(s, b), Node::Leaf(b)));
    } else {
        lemma_leaves_upto_has(s, b, (n - 1) as nat);
        let k = choose|k: int|
            0 <= k < t.len() && #[trigger] t[k] == (count_of(s, b), Node::Leaf(b));
        assert(leaves_upto(s, n)[k] == (count_of(s, b), Node::Leaf(b)));
    }
}

} // verus!
