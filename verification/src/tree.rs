//! The code tree: a binary tree whose leaves are byte values. The code of a
//! leaf is the path from the root, `false` for left and `true` for right,
//! and the codes of distinct leaves are never prefixes of one another.
use crate::bits::{is_prefix_of, lemma_is_prefix_push, lemma_prefix_index, lemma_prefix_trans};
use crate::table::prefix_free;
use vstd::prelude::*;

verus! {

/// A node of the code tree: a leaf holds a byte value, an internal node
/// owns exactly two children (left, then right).
pub enum Node {
    Leaf(u8),
    Internal(Box<Node>, Box<Node>),
}

pub open spec fn num_leaves(t: Node) -> nat
    decreases t,
{
    match t {
        Node::Leaf(_) => 1,
        Node::Internal(l, r) => num_leaves(*l) + num_leaves(*r),
    }
}

/// The byte values at the leaves, left to right.
pub open spec fn leaf_syms(t: Node) -> Seq<u8>
    decreases t,
{
    match t {
        Node::Leaf(b) => seq![b],
        Node::Internal(l, r) => leaf_syms(*l) + leaf_syms(*r),
    }
}

/// The code assigned to every leaf below `t`, reached along a path that
/// starts with `prefix`: one `(byte value, code)` pair per leaf, left to
/// right.
pub open spec fn codes_of(t: Node, prefix: Seq<bool>) -> Seq<(u8, Seq<bool>)>
    decreases t,
{
    match t {
        Node::Leaf(b) => seq![(b, prefix)],
        Node::Internal(l, r) => codes_of(*l, prefix.push(false)) + codes_of(*r, prefix.push(true)),
    }
}

/// What the walk from `prefix` over `t` guarantees: one entry per leaf in
/// leaf order, every code an extension of `prefix` (a strict one under an
/// internal node) of bounded length, and the whole table prefix-free.
pub proof fn lemma_codes_of(t: Node, prefix: Seq<bool>)
    ensures
        num_leaves(t) >= 1,
        leaf_syms(t).len() == num_leaves(t),
        codes_of(t, prefix).len() == num_leaves(t),
        forall|i: int|
            0 <= i < codes_of(t, prefix).len() ==> (#[trigger] codes_of(t, prefix)[i]).0
                == leaf_syms(t)[i],
        forall|i: int|
            0 <= i < codes_of(t, prefix).len() ==> is_prefix_of(
                prefix,
                (#[trigger] codes_of(t, prefix)[i]).1,
            ),
        forall|i: int|
            0 <= i < codes_of(t, prefix).len() ==> (#[trigger] codes_of(t, prefix)[i]).1.len()
                <= prefix.len() + num_leaves(t) - 1,
        t is Internal ==> forall|i: int|
            0 <= i < codes_of(t, prefix).len() ==> (#[trigger] codes_of(t, prefix)[i]).1.len()
                > prefix.len(),
        prefix_free(codes_of(t, prefix)),
    decreases t,
{
    match t {
        Node::Leaf(b) => {
            assert(codes_of(t, prefix) =~= seq![(b, prefix)]);
            assert(prefix.take(prefix.len() as int) =~= prefix);
        },
        Node::Internal(l, r) => {
            let pl = prefix.push(false);
            let pr = prefix.push(true);
            let cl = codes_of(*l, pl);
            let cr = codes_of(*r, pr);
            let cs = codes_of(t, prefix);
            lemma_codes_of(*l, pl);
            lemma_codes_of(*r, pr);
            assert(cs =~= cl + cr);
            lemma_is_prefix_push(prefix, false);
            lemma_is_prefix_push(prefix, true);
            assert forall|i: int| 0 <= i < cs.len() implies is_prefix_of(
                prefix,
                (#[trigger] cs[i]).1,
            ) by {
                if i < cl.len() {
                    lemma_prefix_trans(prefix, pl, cl[i].1);
                } else {
                    lemma_prefix_trans(prefix, pr, cr[i - cl.len()].1);
                }
            }
            assert forall|i: int| 0 <= i < cs.len() implies (#[trigger] cs[i]).1.len()
                > prefix.len() by {
                if i < cl.len() {
                    assert(is_prefix_of(pl, cl[i].1));
                } else {
                    assert(is_prefix_of(pr, cr[i - cl.len()].1));
                }
            }
            assert forall|i: int, j: int|
                0 <= i < cs.len() && 0 <= j < cs.len() && i != j implies !is_prefix_of(
                (#[trigger] cs[i]).1,
                (#[trigger] cs[j]).1,
            ) by {
                if i < cl.len() && j < cl.len() {
                    assert(!is_prefix_of(cl[i].1, cl[j].1));
                } else if i >= cl.len() && j >= cl.len() {
                    assert(!is_prefix_of(cr[i - cl.len()].1, cr[j - cl.len()].1));
                } else {
                    let ci = cs[i].1;
                    let cj = cs[j].1;
                    let k = prefix.len() as int;
                    if i < cl.len() {
                        lemma_prefix_index(pl, ci, k);
                        lemma_prefix_index(pr, cj, k);
                    } else {
                        lemma_prefix_index(pr, ci, k);
                        lemma_prefix_index(pl, cj, k);
                    }
                    assert(ci[k] != cj[k]);
                    if is_prefix_of(ci, cj) {
                        lemma_prefix_index(ci, cj, k);
                    }
                }
            }
        },
    }
}

/// The index of the first working-set entry with the smallest frequency:
/// the deterministic tie-break that makes output reproducible.
pub open spec fn min_fidx(ns: Seq<(nat, Node)>) -> int
    decreases ns.len(),
{
    if ns.len() <= 1 {
        0
    } else {
        let m = min_fidx(ns.drop_last());
        if ns.last().0 < ns[m].0 {
            ns.len() - 1
        } else {
            m
        }
    }
}

pub proof fn lemma_min_fidx_bounds(ns: Seq<(nat, Node)>)
    requires
        ns.len() >= 1,
    ensures
        0 <= min_fidx(ns) < ns.len(),
    decreases ns.len(),
{
    if ns.len() > 1 {
        lemma_min_fidx_bounds(ns.drop_last());
    }
}

/// One construction step: take out the two lowest-frequency entries (the
/// earliest ones on a tie, lowest first), and append an internal node over
/// them (first out on the left) carrying the summed frequency.
pub open spec fn merge_once(ns: Seq<(nat, Node)>) -> Seq<(nat, Node)> {
    let i = min_fidx(ns);
    let a = ns[i];
    let ns1 = ns.remove(i);
    let j = min_fidx(ns1);
    let b = ns1[j];
    ns1.remove(j).push(((a.0 + b.0) as nat, Node::Internal(Box::new(a.1), Box::new(b.1))))
}

/// Repeated merging down to a single node: the root of the code tree.
pub open spec fn build_tree(ns: Seq<(nat, Node)>) -> Node
    decreases ns.len(),
    via build_tree_decreases
{
    if ns.len() == 0 {
        Node::Leaf(0)
    } else if ns.len() == 1 {
        ns[0].1
    } else {
        build_tree(merge_once(ns))
    }
}

#[via_fn]
proof fn build_tree_decreases(ns: Seq<(nat, Node)>) {
    if ns.len() >= 2 {
        lemma_min_fidx_bounds(ns);
        lemma_min_fidx_bounds(ns.remove(min_fidx(ns)));
        assert(merge_once(ns).len() == ns.len() - 1);
    }
}

pub open spec fn sum_nats(s: Seq<nat>) -> nat
    decreases s.len(),
{
    if s.len() == 0 {
        0
    } else {
        sum_nats(s.drop_last()) + s.last()
    }
}

pub proof fn lemma_sum_nats_remove(s: Seq<nat>, i: int)
    requires
        0 <= i < s.len(),
    ensures
        sum_nats(s.remove(i)) + s[i] == sum_nats(s),
    decreases s.len(),
{
    if i == s.len() - 1 {
        assert(s.remove(i) =~= s.drop_last());
    } else {
        assert(s.remove(i).drop_last() =~= s.drop_last().remove(i));
        assert(s.remove(i).last() == s.last());
        lemma_sum_nats_remove(s.drop_last(), i);
    }
}

/// The working set as the spec sees it: frequencies as mathematical
/// naturals.
pub open spec fn wview(ns: Seq<(u64, Node)>) -> Seq<(nat, Node)> {
    ns.map_values(|p: (u64, Node)| (p.0 as nat, p.1))
}

pub proof fn lemma_sum_nats_all_ones(s: Seq<nat>)
    requires
        forall|k: int| 0 <= k < s.len() ==> #[trigger] s[k] == 1,
    ensures
        sum_nats(s) == s.len(),
    decreases s.len(),
{
    if s.len() > 0 {
        lemma_sum_nats_all_ones(s.drop_last());
    }
}

/// The frequencies of a working set.
pub open spec fn ws_freqs(ns: Seq<(nat, Node)>) -> Seq<nat> {
    ns.map_values(|p: (nat, Node)| p.0)
}

/// The leaf counts of a working set.
pub open spec fn ws_nleaves(ns: Seq<(nat, Node)>) -> Seq<nat> {
    ns.map_values(|p: (nat, Node)| num_leaves(p.1))
}

/// Some entry of the working set has a leaf for byte value `b`.
pub open spec fn ws_has_sym(ns: Seq<(nat, Node)>, b: u8) -> bool {
    exists|k: int| 0 <= k < ns.len() && leaf_syms((#[trigger] ns[k]).1).contains(b)
}

/// One merge step keeps the total frequency, keeps the total leaf count,
/// and keeps every byte value that some entry had a leaf for.
pub proof fn lemma_merge_once_preserves(ns: Seq<(nat, Node)>)
    requires
        ns.len() >= 2,
    ensures
        merge_once(ns).len() == ns.len() - 1,
        sum_nats(ws_freqs(merge_once(ns))) == sum_nats(ws_freqs(ns)),
        sum_nats(ws_nleaves(merge_once(ns))) == sum_nats(ws_nleaves(ns)),
        forall|b: u8| ws_has_sym(ns, b) ==> ws_has_sym(merge_once(ns), b),
{
    let i = min_fidx(ns);
    lemma_min_fidx_bounds(ns);
    let a = ns[i];
    let ns1 = ns.remove(i);
    let j = min_fidx(ns1);
    lemma_min_fidx_bounds(ns1);
    let b = ns1[j];
    let ns2 = ns1.remove(j);
    let merged = ((a.0 + b.0) as nat, Node::Internal(Box::new(a.1), Box::new(b.1)));
    let res = ns2.push(merged);
    assert(merge_once(ns) == res);
    assert(num_leaves(merged.1) == num_leaves(a.1) + num_leaves(b.1));
    assert(leaf_syms(merged.1) == leaf_syms(a.1) + leaf_syms(b.1));

    assert(ws_freqs(ns1) =~= ws_freqs(ns).remove(i));
    assert(ws_freqs(ns2) =~= ws_freqs(ns1).remove(j));
    assert(ws_freqs(res) =~= ws_freqs(ns2).push(merged.0));
    lemma_sum_nats_remove(ws_freqs(ns), i);
    lemma_sum_nats_remove(ws_freqs(ns1), j);
    assert(ws_freqs(res).drop_last() =~= ws_freqs(ns2));

    assert(ws_nleaves(ns1) =~= ws_nleaves(ns).remove(i));
    assert(ws_nleaves(ns2) =~= ws_nleaves(ns1).remove(j));
    assert(ws_nleaves(res) =~= ws_nleaves(ns2).push(num_leaves(merged.1)));
    lemma_sum_nats_remove(ws_nleaves(ns), i);
    lemma_sum_nats_remove(ws_nleaves(ns1), j);
    assert(ws_nleaves(res).drop_last() =~= ws_nleaves(ns2));

    assert forall|bb: u8| ws_has_sym(ns, bb) implies ws_has_sym(res, bb) by {
        let k = choose|k: int| 0 <= k < ns.len() && leaf_syms((#[trigger] ns[k]).1).contains(bb);
        if k == i {
            assert(leaf_syms(merged.1).contains(bb)) by {
                let q = choose|q: int|
                    0 <= q < leaf_syms(a.1).len() && leaf_syms(a.1)[q] == bb;
                assert(leaf_syms(merged.1)[q] == bb);
            }
            assert(leaf_syms(res[res.len() - 1].1).contains(bb));
        } else {
            let k1: int = if k < i {
                k
            } else {
                k - 1
            };
            assert(ns1[k1] == ns[k]);
            if k1 == j {
                assert(leaf_syms(merged.1).contains(bb)) by {
                    let q = choose|q: int|
                        0 <= q < leaf_syms(b.1).len() && leaf_syms(b.1)[q] == bb;
                    assert(leaf_syms(merged.1)[leaf_syms(a.1).len() + q] == bb);
                }
                assert(leaf_syms(res[res.len() - 1].1).contains(bb));
            } else {
                let k2: int = if k1 < j {
                    k1
                } else {
                    k1 - 1
                };
                assert(ns2[k2] == ns1[k1]);
                assert(leaf_syms(res[k2].1).contains(bb));
            }
        }
    }
}

/// The root that repeated merging yields has exactly the leaves the working
/// set held: as many, and with a leaf for every byte value the set had one
/// for.
pub proof fn lemma_build_tree_props(ns: Seq<(nat, Node)>)
    requires
        ns.len() >= 1,
    ensures
        num_leaves(build_tree(ns)) == sum_nats(ws_nleaves(ns)),
        forall|b: u8| ws_has_sym(ns, b) ==> leaf_syms(build_tree(ns)).contains(b),
    decreases ns.len(),
{
    if ns.len() == 1 {
        assert(ws_nleaves(ns).len() == 1);
        assert(ws_nleaves(ns).last() == num_leaves(ns[0].1));
        assert(ws_nleaves(ns).drop_last() =~= Seq::<nat>::empty());
        assert(sum_nats(Seq::<nat>::empty()) == 0);
        assert(sum_nats(ws_nleaves(ns)) == num_leaves(ns[0].1));
        assert forall|b: u8| ws_has_sym(ns, b) implies leaf_syms(build_tree(ns)).contains(b) by {
            let k = choose|k: int|
                0 <= k < ns.len() && leaf_syms((#[trigger] ns[k]).1).contains(b);
            assert(k == 0);
        }
    } else {
        lemma_merge_once_preserves(ns);
        lemma_build_tree_props(merge_once(ns));
    }
}

} // verus!
