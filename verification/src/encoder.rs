//! The compressor: counts byte frequencies, builds the code tree by
//! repeatedly merging the two lowest-frequency nodes, walks the tree into a
//! code table, and emits the serialized table followed by the bit-packed
//! body, zero-padded to a byte boundary. The whole pipeline is a function
//! of the input bytes alone, so compressing the same input twice yields
//! byte-identical output.
use crate::bits::{bits_val_u8, bytes_of, pack_bytes, pack_bytes_from, write_be32, zeros};
use crate::freq::{
    count_of, leaves_of, leaves_upto, lemma_count_le_len, lemma_count_present,
    lemma_leaves_upto_freq_sum, lemma_leaves_upto_has, lemma_leaves_upto_len,
    lemma_leaves_upto_shape, lemma_total_count,
};
use crate::pack::{pack_bits, pack_input};
use crate::table::{
    entry_wf, lemma_lookup_sym_exists, lemma_ser_entries_snoc, lookup_sym, magic,
    prefix_free, ser_code, ser_entries, ser_entry, ser_table, table_wf, tview, CodeEntry,
};
use crate::tree::{
    build_tree, codes_of, leaf_syms, lemma_build_tree_props, lemma_codes_of,
    lemma_merge_once_preserves, lemma_min_fidx_bounds, lemma_sum_nats_all_ones,
    lemma_sum_nats_remove, merge_once, min_fidx, num_leaves, sum_nats, ws_freqs, ws_nleaves, wview,
    Node,
};
use crate::CodecError;
use vstd::prelude::*;

verus! {

/// The code table of an input: one entry per occurring byte value. With
/// several distinct values it is the walk of the merge-built tree; a single
/// distinct value gets the one-bit code `1` explicitly, since an empty code
/// could never be decoded.
pub open spec fn spec_table(s: Seq<u8>) -> Seq<(u8, Seq<bool>)> {
    let ns = leaves_of(s);
    if ns.len() == 1 {
        seq![(ns[0].1->Leaf_0, seq![true])]
    } else {
        codes_of(build_tree(ns), Seq::empty())
    }
}

/// How many zero bits bring a bit string of length `n` to a byte boundary.
pub open spec fn pad_len(n: nat) -> nat {
    ((8 - (n % 8)) % 8) as nat
}

/// What compression returns: the serialized code table followed by the
/// packed, zero-padded body; or the error for an empty input.
pub open spec fn spec_compress(s: Seq<u8>) -> Result<Seq<u8>, CodecError> {
    if s.len() == 0 {
        Err(CodecError::EmptyInputError)
    } else {
        let es = spec_table(s);
        let body = pack_bits(es, s);
        Ok(ser_table(es) + pack_bytes(body + zeros(pad_len(body.len()))))
    }
}

/// The code table of a non-empty input is well formed for the wire format,
/// prefix-free, and covers exactly the byte values that occur: every
/// occurring value has a (non-empty) code.
pub proof fn lemma_spec_table_props(s: Seq<u8>)
    requires
        s.len() >= 1,
    ensures
        1 <= spec_table(s).len() <= 256,
        table_wf(spec_table(s)),
        prefix_free(spec_table(s)),
        forall|k: int| 0 <= k < spec_table(s).len() ==> (#[trigger] spec_table(s)[k]).1.len() >= 1,
        forall|b: u8| count_of(s, b) > 0 ==> lookup_sym(spec_table(s), b) is Some,
{
    let ns = leaves_of(s);
    let es = spec_table(s);
    lemma_count_present(s, 0);
    lemma_leaves_upto_has(s, s[0], 256);
    lemma_leaves_upto_len(s, 256);
    lemma_leaves_upto_shape(s, 256);
    assert(ns.len() >= 1);
    if ns.len() == 1 {
        let b0 = ns[0].1->Leaf_0;
        assert(es =~= seq![(b0, seq![true])]);
        assert(entry_wf(es[0]));
        assert forall|b: u8| count_of(s, b) > 0 implies lookup_sym(es, b) is Some by {
            lemma_leaves_upto_has(s, b, 256);
            let k = choose|k: int|
                0 <= k < ns.len() && #[trigger] ns[k] == (count_of(s, b), Node::Leaf(b));
            assert(k == 0);
            assert(b == b0);
        }
    } else {
        let root = build_tree(ns);
        lemma_build_tree_props(ns);
        assert(forall|k: int|
            0 <= k < ws_nleaves(ns).len() ==> #[trigger] ws_nleaves(ns)[k] == 1) by {
            assert(forall|k: int|
                0 <= k < ns.len() ==> num_leaves((#[trigger] ns[k]).1) == 1);
        }
        lemma_sum_nats_all_ones(ws_nleaves(ns));
        assert(num_leaves(root) == ns.len());
        assert(2 <= num_leaves(root) <= 256);
        assert(root is Internal) by {
            if root is Leaf {
                assert(num_leaves(root) == 1);
            }
        }
        lemma_codes_of(root, Seq::empty());
        assert(es.len() == num_leaves(root));
        assert forall|k: int| 0 <= k < es.len() implies entry_wf(#[trigger] es[k]) by {
            assert(es[k].1.len() <= num_leaves(root) - 1);
            assert(es[k].1.len() > 0);
        }
        assert forall|b: u8| count_of(s, b) > 0 implies lookup_sym(es, b) is Some by {
            lemma_leaves_upto_has(s, b, 256);
            let k = choose|k: int|
                0 <= k < ns.len() && #[trigger] ns[k] == (count_of(s, b), Node::Leaf(b));
            assert(leaf_syms(ns[k].1) == seq![b]);
            assert(leaf_syms(ns[k].1).contains(b)) by {
                assert(leaf_syms(ns[k].1)[0] == b);
            }
            assert(crate::tree::ws_has_sym(ns, b));
            assert(leaf_syms(root).contains(b));
            let q = choose|q: int| 0 <= q < leaf_syms(root).len() && leaf_syms(root)[q] == b;
            assert(es[q].0 == b);
            lemma_lookup_sym_exists(es, b);
        }
    }
}

/// The compressor: wraps the bytes of one input and turns them into one
/// compressed stream.
pub struct Encoder {
    input: Vec<u8>,
}

impl View for Encoder {
    type V = Seq<u8>;

    closed spec fn view(&self) -> Seq<u8> {
        self.input@
    }
}

impl Encoder {
    /// Wraps the bytes to compress.
    pub fn new(input: Vec<u8>) -> (r: Encoder)
        ensures
            r@ == input@,
    {
        Encoder { input }
    }

    /// Counts how often each byte value occurs: entry `b` of the result is
    /// the number of occurrences of `b` in the input.
    fn get_frequency(&self) -> (freq: Vec<u64>)
        ensures
            freq@.len() == 256,
            forall|b: int| 0 <= b < 256 ==> (#[trigger] freq@[b]) as nat == count_of(self@, b as u8),
    {
        let mut freq: Vec<u64> = Vec::new();
        let mut k: usize = 0;
        while k < 256
            invariant
                freq@.len() == k <= 256,
                forall|b: int| 0 <= b < k ==> (#[trigger] freq@[b]) == 0,
            decreases 256 - k,
        {
            freq.push(0);
            k = k + 1;
        }
        let mut i: usize = 0;
        proof {
            assert(self.input@.take(0) =~= Seq::<u8>::empty());
        }
        while i < self.input.len()
            invariant
                freq@.len() == 256,
                i <= self.input@.len(),
                forall|b: int|
                    0 <= b < 256 ==> (#[trigger] freq@[b]) as nat == count_of(
                        self.input@.take(i as int),
                        b as u8,
                    ),
            decreases self.input@.len() - i,
        {
            let b = self.input[i] as usize;
            proof {
                assert(self.input@.take(i + 1).drop_last() =~= self.input@.take(i as int));
                assert(self.input@.take(i + 1).last() == self.input@[i as int]);
                lemma_count_le_len(self.input@.take(i as int), self.input@[i as int]);
            }
            let c = freq[b];
            freq.set(b, c + 1);
            i = i + 1;
        }
        proof {
            assert(self.input@.take(i as int) =~= self.input@);
        }
        freq
    }

    /// Turns the frequency table into the initial working set: one leaf per
    /// occurring byte value, in ascending byte-value order.
    fn build_leaves(&self, freq: &Vec<u64>) -> (nodes: Vec<(u64, Node)>)
        requires
            freq@.len() == 256,
            forall|b: int| 0 <= b < 256 ==> (#[trigger] freq@[b]) as nat == count_of(self@, b as u8),
        ensures
            wview(nodes@) == leaves_of(self@),
    {
        let mut nodes: Vec<(u64, Node)> = Vec::new();
        let mut b: usize = 0;
        proof {
            assert(wview(nodes@) =~= leaves_upto(self@, 0));
        }
        while b < 256
            invariant
                b <= 256,
                freq@.len() == 256,
                forall|bb: int|
                    0 <= bb < 256 ==> (#[trigger] freq@[bb]) as nat == count_of(self@, bb as u8),
                wview(nodes@) == leaves_upto(self@, b as nat),
            decreases 256 - b,
        {
            if freq[b] > 0 {
                nodes.push((freq[b], Node::Leaf(b as u8)));
                proof {
                    assert(wview(nodes@) =~= leaves_upto(self@, (b + 1) as nat));
                }
            } else {
                proof {
                    assert(wview(nodes@) =~= leaves_upto(self@, (b + 1) as nat));
                }
            }
            b = b + 1;
        }
        nodes
    }

    /// The index of the first entry with the smallest frequency.
    fn min_index(nodes: &Vec<(u64, Node)>) -> (r: usize)
        requires
            nodes@.len() >= 1,
        ensures
            r < nodes@.len(),
            r == min_fidx(wview(nodes@)),
    {
        let ghost ns = wview(nodes@);
        let mut best: usize = 0;
        let mut i: usize = 1;
        proof {
            assert(ns.take(1).len() == 1);
        }
        while i < nodes.len()
            invariant
                1 <= i <= nodes@.len(),
                best < i,
                ns == wview(nodes@),
                best == min_fidx(ns.take(i as int)),
            decreases nodes@.len() - i,
        {
            proof {
                assert(ns.take(i + 1).drop_last() =~= ns.take(i as int));
                assert(ns.take(i + 1).last() == ns[i as int]);
                lemma_min_fidx_bounds(ns.take(i as int));
            }
            if nodes[i].0 < nodes[best].0 {
                best = i;
            }
            i = i + 1;
        }
        proof {
            assert(ns.take(i as int) =~= ns);
        }
        best
    }

    /// Builds the code tree: repeatedly removes the two lowest-frequency
    /// entries and appends an internal node over them, until one remains.
    fn get_tree(&self, nodes: Vec<(u64, Node)>) -> (r: Node)
        requires
            nodes@.len() >= 1,
            sum_nats(ws_freqs(wview(nodes@))) <= usize::MAX as nat,
        ensures
            r == build_tree(wview(nodes@)),
    {
        let ghost orig = wview(nodes@);
        let mut nodes = nodes;
        while nodes.len() > 1
            invariant
                nodes@.len() >= 1,
                build_tree(wview(nodes@)) == build_tree(orig),
                sum_nats(ws_freqs(wview(nodes@))) <= usize::MAX as nat,
            decreases nodes@.len(),
        {
            let ghost before = wview(nodes@);
            proof {
                lemma_min_fidx_bounds(before);
            }
            let i = Self::min_index(&nodes);
            let a = nodes.remove(i);
            proof {
                assert(wview(nodes@) =~= before.remove(i as int));
                lemma_min_fidx_bounds(before.remove(i as int));
                lemma_sum_nats_remove(ws_freqs(before), i as int);
                assert(ws_freqs(before.remove(i as int)) =~= ws_freqs(before).remove(i as int));
            }
            let j = Self::min_index(&nodes);
            let b = nodes.remove(j);
            let ghost mid = before.remove(i as int);
            proof {
                assert(wview(nodes@) =~= mid.remove(j as int));
                lemma_sum_nats_remove(ws_freqs(mid), j as int);
                assert(ws_freqs(mid.remove(j as int)) =~= ws_freqs(mid).remove(j as int));
                assert(a.0 as nat == ws_freqs(before)[i as int]);
                assert(b.0 as nat == ws_freqs(mid)[j as int]);
                assert(a.0 + b.0 <= sum_nats(ws_freqs(before)));
            }
            let f = a.0 + b.0;
            nodes.push((f, Node::Internal(Box::new(a.1), Box::new(b.1))));
            proof {
                assert(wview(nodes@) =~= merge_once(before));
                lemma_merge_once_preserves(before);
            }
        }
        let ghost fin = wview(nodes@);
        proof {
            assert(fin.len() == 1);
            assert(build_tree(fin) == fin[0].1);
        }
        let root = nodes.remove(0);
        proof {
            assert(root.1 == fin[0].1);
        }
        root.1
    }

    /// Serializes the code table: magic, big-endian entry count, then one
    /// record per entry.
    fn serialize_table(table: &Vec<CodeEntry>) -> (r: Vec<u8>)
        requires
            table_wf(tview(table@)),
        ensures
            r@ == ser_table(tview(table@)),
    {
        let ghost es = tview(table@);
        let mut r: Vec<u8> = Vec::new();
        r.push(0xf0);
        r.push(0xf1);
        r.push(0xf2);
        proof {
            assert(r@ =~= magic());
        }
        write_be32(&mut r, table.len() as u64);
        let ghost head = magic() + bytes_of(es.len(), 4);
        proof {
            assert(r@ =~= head);
            assert(ser_entries(es.take(0)) =~= Seq::<u8>::empty());
            assert(r@ =~= head + ser_entries(es.take(0)));
        }
        let mut i: usize = 0;
        while i < table.len()
            invariant
                i <= table@.len(),
                es == tview(table@),
                table_wf(es),
                head == magic() + bytes_of(es.len(), 4),
                r@ == head + ser_entries(es.take(i as int)),
            decreases table@.len() - i,
        {
            let ghost r0 = r@;
            let len = table[i].code.len();
            proof {
                assert(es[i as int].1 == table@[i as int].code@);
                assert(entry_wf(es[i as int]));
            }
            let rem = len % 8;
            let total = (len + 7) / 8;
            r.push(table[i].sym);
            r.push(rem as u8);
            r.push(total as u8);
            if rem > 0 {
                let first = bits_val_u8(&table[i].code, 0, rem);
                r.push(first);
                let mut tail = pack_bytes_from(&table[i].code, rem);
                r.append(&mut tail);
                proof {
                    let c = es[i as int].1;
                    assert(c.subrange(0, rem as int) =~= c.take(rem as int));
                    assert(r@ =~= r0 + ser_entry(es[i as int]));
                }
            } else {
                let mut all = pack_bytes_from(&table[i].code, 0);
                r.append(&mut all);
                proof {
                    let c = es[i as int].1;
                    assert(c.skip(0) =~= c);
                    assert(r@ =~= r0 + ser_entry(es[i as int]));
                }
            }
            proof {
                assert(es.take(i + 1) =~= es.take(i as int).push(es[i as int]));
                lemma_ser_entries_snoc(es.take(i as int), es[i as int]);
                assert(r@ =~= head + ser_entries(es.take(i + 1)));
            }
            i = i + 1;
        }
        proof {
            assert(es.take(i as int) =~= es);
            assert(r@ =~= ser_table(es));
        }
        r
    }

    /// Compresses the input: the serialized code table followed by the
    /// bit-packed body, zero-padded to a byte boundary. The result is a
    /// function of the input bytes alone, so two runs on the same input
    /// yield byte-identical output. An empty input has nothing to encode
    /// and is rejected.
    pub fn compress(&self) -> (r: Result<Vec<u8>, CodecError>)
        ensures
            match r {
                Ok(v) => spec_compress(self@) == Ok::<Seq<u8>, CodecError>(v@),
                Err(e) => spec_compress(self@) == Err::<Seq<u8>, CodecError>(e),
            },
    {
        let n = self.input.len();
        if n == 0 {
            return Err(CodecError::EmptyInputError);
        }
        let freq = self.get_frequency();
        let nodes = self.build_leaves(&freq);
        let ghost ns = leaves_of(self@);
        proof {
            lemma_count_present(self@, 0);
            lemma_leaves_upto_has(self@, self@[0], 256);
            assert(ns.len() >= 1);
            assert(nodes@.len() == ns.len());
        }
        let table: Vec<CodeEntry>;
        if nodes.len() == 1 {
            let mut nodes = nodes;
            let ghost pre = nodes@;
            let e = nodes.remove(0);
            proof {
                lemma_leaves_upto_shape(self@, 256);
                assert(e == pre[0]);
                assert(e.1 == ns[0].1);
                assert(ns[0].1 is Leaf);
            }
            let sym = match &e.1 {
                Node::Leaf(b) => *b,
                Node::Internal(_, _) => {
                    proof {
                        assert(false);
                    }
                    unreached()
                },
            };
            let mut code: Vec<bool> = Vec::new();
            code.push(true);
            let mut t: Vec<CodeEntry> = Vec::new();
            t.push(CodeEntry { sym, code });
            proof {
                assert(code@ =~= seq![true]);
                assert(tview(t@) =~= spec_table(self@));
            }
            table = t;
        } else {
            proof {
                lemma_leaves_upto_freq_sum(self@, 256);
                lemma_total_count(self@);
                assert(sum_nats(ws_freqs(ns)) == self@.len());
            }
            let root = self.get_tree(nodes);
            let empty_prefix: Vec<bool> = Vec::new();
            let t = Self::code_table(&root, &empty_prefix);
            proof {
                assert(empty_prefix@ =~= Seq::<bool>::empty());
                assert(tview(t@) == spec_table(self@));
            }
            table = t;
        }
        let ghost es = spec_table(self@);
        proof {
            lemma_spec_table_props(self@);
        }
        let mut out = Self::serialize_table(&table);
        let mut bits = pack_input(&table, &self.input);
        let ghost body = pack_bits(es, self@);
        let padn = (8 - (bits.len() % 8)) % 8;
        proof {
            assert(padn as nat == pad_len(body.len()));
            assert(bits@ + zeros(0) =~= bits@);
        }
        let mut p: usize = 0;
        while p < padn
            invariant
                p <= padn <= 7,
                bits@ == body + zeros(p as nat),
            decreases padn - p,
        {
            proof {
                assert((body + zeros(p as nat)).push(false) =~= body + zeros((p + 1) as nat));
            }
            bits.push(false);
            p = p + 1;
        }
        proof {
            assert(bits@ =~= body + zeros(pad_len(body.len())));
            assert(bits@.len() % 8 == 0);
            assert(bits@.skip(0) =~= bits@);
        }
        let mut packed = pack_bytes_from(&bits, 0);
        out.append(&mut packed);
        proof {
            assert(out@ =~= ser_table(es) + pack_bytes(body + zeros(pad_len(body.len()))));
        }
        Ok(out)
    }

    /// Walks the tree and assigns every leaf its code: the path from the
    /// root, `false` for left and `true` for right, appended to `prefix`.
    fn code_table(node: &Node, prefix: &Vec<bool>) -> (r: Vec<CodeEntry>)
        ensures
            tview(r@) == codes_of(*node, prefix@),
        decreases node,
    {
        match node {
            Node::Leaf(b) => {
                let code = copy_bits(prefix);
                let mut r: Vec<CodeEntry> = Vec::new();
                r.push(CodeEntry { sym: *b, code });
                proof {
                    assert(tview(r@) =~= codes_of(*node, prefix@));
                }
                r
            },
            Node::Internal(l, rt) => {
                let mut pl = copy_bits(prefix);
                pl.push(false);
                let mut pr = copy_bits(prefix);
                pr.push(true);
                let mut left = Self::code_table(&**l, &pl);
                let mut right = Self::code_table(&**rt, &pr);
                let ghost lv = left@;
                let ghost rv = right@;
                left.append(&mut right);
                proof {
                    assert(tview(left@) =~= tview(lv) + tview(rv));
                }
                left
            },
        }
    }
}

/// Copies a bit string.
fn copy_bits(v: &Vec<bool>) -> (r: Vec<bool>)
    ensures
        r@ == v@,
{
    let mut r: Vec<bool> = Vec::new();
    let mut i: usize = 0;
    while i < v.len()
        invariant
            i <= v@.len(),
            r@ == v@.take(i as int),
        decreases v@.len() - i,
    {
        proof {
            assert(v@.take(i + 1) =~= v@.take(i as int).push(v@[i as int]));
        }
        r.push(v[i]);
        i = i + 1;
    }
    proof {
        assert(v@.take(i as int) =~= v@);
    }
    r
}

} // verus!
