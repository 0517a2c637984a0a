//! The bit packer and unpacker. Packing concatenates the code of every
//! input byte into one bit string; unpacking feeds bits one at a time into
//! an accumulator and emits a byte value whenever the accumulator equals a
//! code of the table. On a prefix-free table the two are inverse.
use crate::bits::{is_prefix_of, zeros};
use crate::table::{lookup_code, lookup_sym, prefix_free, tview, CodeEntry};
use vstd::prelude::*;

verus! {

/// The code of `b` in the table, or nothing for a byte without a code.
pub open spec fn code_opt(es: Seq<(u8, Seq<bool>)>, b: u8) -> Seq<bool> {
    match lookup_sym(es, b) {
        Some(c) => c,
        None => Seq::empty(),
    }
}

/// The concatenated codes of all input bytes; a byte that the table does
/// not cover contributes nothing.
pub open spec fn pack_bits(es: Seq<(u8, Seq<bool>)>, input: Seq<u8>) -> Seq<bool>
    decreases input.len(),
{
    if input.len() == 0 {
        Seq::empty()
    } else {
        code_opt(es, input[0]) + pack_bits(es, input.drop_first())
    }
}

/// Bit-by-bit decoding from an accumulator that already holds `acc`:
/// the decoded byte values, and whatever the accumulator holds when the
/// bits run out.
pub open spec fn unpack_bits(es: Seq<(u8, Seq<bool>)>, bits: Seq<bool>, acc: Seq<bool>) -> (
    Seq<u8>,
    Seq<bool>,
)
    decreases bits.len(),
{
    if bits.len() == 0 {
        (Seq::empty(), acc)
    } else {
        let acc2 = acc.push(bits[0]);
        match lookup_code(es, acc2) {
            Some(b) => {
                let r = unpack_bits(es, bits.drop_first(), Seq::empty());
                (seq![b] + r.0, r.1)
            },
            None => unpack_bits(es, bits.drop_first(), acc2),
        }
    }
}

pub proof fn lemma_pack_bits_snoc(es: Seq<(u8, Seq<bool>)>, input: Seq<u8>, b: u8)
    ensures
        pack_bits(es, input.push(b)) == pack_bits(es, input) + code_opt(es, b),
    decreases input.len(),
{
    reveal_with_fuel(pack_bits, 2);
    if input.len() == 0 {
        assert(input.push(b)[0] == b);
        assert(input.push(b).drop_first() =~= Seq::<u8>::empty());
        assert(pack_bits(es, input.push(b)) =~= pack_bits(es, input) + code_opt(es, b));
    } else {
        assert(input.push(b)[0] == input[0]);
        assert(input.push(b).drop_first() =~= input.drop_first().push(b));
        lemma_pack_bits_snoc(es, input.drop_first(), b);
        assert(pack_bits(es, input.push(b)) =~= pack_bits(es, input) + code_opt(es, b));
    }
}

/// A successful code lookup names the code of some entry.
proof fn lemma_lookup_code_index(es: Seq<(u8, Seq<bool>)>, c: Seq<bool>)
    requires
        lookup_code(es, c) is Some,
    ensures
        exists|i: int|
            0 <= i < es.len() && (#[trigger] es[i]).1 == c && es[i].0 == lookup_code(
                es,
                c,
            ).unwrap(),
    decreases es.len(),
{
    if es[0].1 == c {
        assert(es[0].1 == c && es[0].0 == lookup_code(es, c).unwrap());
    } else {
        lemma_lookup_code_index(es.drop_first(), c);
        let j = choose|j: int|
            0 <= j < es.drop_first().len() && (#[trigger] es.drop_first()[j]).1 == c
                && es.drop_first()[j].0 == lookup_code(es.drop_first(), c).unwrap();
        assert(es[j + 1].1 == c && es[j + 1].0 == lookup_code(es, c).unwrap());
    }
}

/// A successful byte-value lookup names the code of some entry for it.
pub proof fn lemma_lookup_sym_index(es: Seq<(u8, Seq<bool>)>, b: u8)
    requires
        lookup_sym(es, b) is Some,
    ensures
        exists|i: int|
            0 <= i < es.len() && (#[trigger] es[i]).0 == b && es[i].1 == lookup_sym(
                es,
                b,
            ).unwrap(),
    decreases es.len(),
{
    if es[0].0 == b {
        assert(es[0].0 == b && es[0].1 == lookup_sym(es, b).unwrap());
    } else {
        lemma_lookup_sym_index(es.drop_first(), b);
        let j = choose|j: int|
            0 <= j < es.drop_first().len() && (#[trigger] es.drop_first()[j]).0 == b
                && es.drop_first()[j].1 == lookup_sym(es.drop_first(), b).unwrap();
        assert(es[j + 1].0 == b && es[j + 1].1 == lookup_sym(es, b).unwrap());
    }
}

proof fn lemma_prefix_free_drop_first(es: Seq<(u8, Seq<bool>)>)
    requires
        prefix_free(es),
        es.len() >= 1,
    ensures
        prefix_free(es.drop_first()),
{
    let tail = es.drop_first();
    assert forall|i: int, j: int|
        0 <= i < tail.len() && 0 <= j < tail.len() && i != j implies !is_prefix_of(
        (#[trigger] tail[i]).1,
        (#[trigger] tail[j]).1,
    ) by {
        assert(tail[i] == es[i + 1] && tail[j] == es[j + 1]);
        assert(!is_prefix_of(es[i + 1].1, es[j + 1].1));
    }
}

/// In a prefix-free table, looking a code up by the byte value and then by
/// the code itself comes back to the same byte value.
pub proof fn lemma_lookup_round(es: Seq<(u8, Seq<bool>)>, b: u8)
    requires
        prefix_free(es),
        lookup_sym(es, b) is Some,
    ensures
        lookup_code(es, lookup_sym(es, b).unwrap()) == Some(b),
    decreases es.len(),
{
    let c = lookup_sym(es, b).unwrap();
    assert(c.take(c.len() as int) =~= c);
    if es[0].0 == b {
        assert(lookup_code(es, c) == Some(b));
    } else {
        lemma_prefix_free_drop_first(es);
        lemma_lookup_round(es.drop_first(), b);
        lemma_lookup_sym_index(es.drop_first(), b);
        let j = choose|j: int|
            0 <= j < es.drop_first().len() && (#[trigger] es.drop_first()[j]).0 == b
                && es.drop_first()[j].1 == c;
        assert(es[j + 1].1 == c);
        if es[0].1 == c {
            assert(is_prefix_of(es[0].1, es[j + 1].1));
            assert(false);
        }
    }
}

/// In a prefix-free table, no strict prefix of a code is itself a code.
pub proof fn lemma_strict_prefix_not_code(es: Seq<(u8, Seq<bool>)>, c: Seq<bool>, p: Seq<bool>)
    requires
        prefix_free(es),
        lookup_code(es, c) is Some,
        is_prefix_of(p, c),
        p != c,
    ensures
        lookup_code(es, p) is None,
{
    if lookup_code(es, p) is Some {
        lemma_lookup_code_index(es, c);
        lemma_lookup_code_index(es, p);
        let i = choose|i: int| 0 <= i < es.len() && (#[trigger] es[i]).1 == c;
        let j = choose|j: int| 0 <= j < es.len() && (#[trigger] es[j]).1 == p;
        assert(i != j);
        assert(!is_prefix_of(es[j].1, es[i].1));
    }
}

/// Feeding the tail of a code (its first `done` bits already accumulated)
/// and then more bits into the unpacker emits the code's byte value and
/// goes on with an empty accumulator.
proof fn lemma_unpack_consume(
    es: Seq<(u8, Seq<bool>)>,
    c: Seq<bool>,
    done: nat,
    b: u8,
    rest: Seq<bool>,
)
    requires
        prefix_free(es),
        lookup_code(es, c) == Some(b),
        done < c.len(),
    ensures
        unpack_bits(es, c.skip(done as int) + rest, c.take(done as int)) == {
            let r = unpack_bits(es, rest, Seq::empty());
            (seq![b] + r.0, r.1)
        },
    decreases c.len() - done,
{
    let bits = c.skip(done as int) + rest;
    assert(bits.len() > 0);
    assert(bits[0] == c[done as int]);
    let acc2 = c.take(done as int).push(c[done as int]);
    assert(acc2 =~= c.take(done + 1int));
    assert(bits.drop_first() =~= c.skip(done + 1int) + rest);
    if done + 1 == c.len() {
        assert(acc2 =~= c);
        assert(c.skip(done + 1int) =~= Seq::<bool>::empty());
        assert(bits.drop_first() =~= rest);
    } else {
        assert(c.take(acc2.len() as int) == acc2);
        assert(is_prefix_of(acc2, c));
        assert(acc2.len() != c.len());
        lemma_strict_prefix_not_code(es, c, acc2);
        lemma_unpack_consume(es, c, done + 1, b, rest);
    }
}

/// Unpacking the packed form of an input, followed by anything, emits the
/// input and then decodes the rest from an empty accumulator.
pub proof fn lemma_unpack_pack(es: Seq<(u8, Seq<bool>)>, input: Seq<u8>, tail: Seq<bool>)
    requires
        prefix_free(es),
        forall|i: int|
            0 <= i < input.len() ==> lookup_sym(es, #[trigger] input[i]) is Some && lookup_sym(
                es,
                input[i],
            ).unwrap().len() >= 1,
    ensures
        unpack_bits(es, pack_bits(es, input) + tail, Seq::empty()) == {
            let r = unpack_bits(es, tail, Seq::empty());
            (input + r.0, r.1)
        },
    decreases input.len(),
{
    let r = unpack_bits(es, tail, Seq::empty());
    if input.len() == 0 {
        assert(pack_bits(es, input) + tail =~= tail);
        assert(input + r.0 =~= r.0);
    } else {
        let b = input[0];
        let c = lookup_sym(es, b).unwrap();
        let rest = pack_bits(es, input.drop_first()) + tail;
        assert(pack_bits(es, input) + tail =~= c + rest);
        lemma_lookup_round(es, b);
        assert(c.skip(0) =~= c);
        assert(c.take(0) =~= Seq::<bool>::empty());
        lemma_unpack_consume(es, c, 0, b, rest);
        lemma_unpack_pack(es, input.drop_first(), tail);
        assert(seq![b] + (input.drop_first() + r.0) =~= input + r.0);
        assert(unpack_bits(es, pack_bits(es, input) + tail, Seq::empty()) == (
            input + r.0,
            r.1,
        ));
    }
}

/// A run of zeros too short to complete any code passes through the
/// unpacker without emitting anything: it stays in the accumulator.
pub proof fn lemma_unpack_zeros(es: Seq<(u8, Seq<bool>)>, k: nat, m: nat)
    requires
        forall|j: nat| m + 1 <= j <= m + k ==> lookup_code(es, #[trigger] zeros(j)) is None,
    ensures
        unpack_bits(es, zeros(k), zeros(m)) == (Seq::<u8>::empty(), zeros(m + k)),
    decreases k,
{
    if k == 0 {
        assert(zeros(m + k) =~= zeros(m));
    } else {
        let bits = zeros(k);
        assert(bits[0] == false);
        assert(zeros(m).push(false) =~= zeros(m + 1));
        assert(lookup_code(es, zeros(m + 1)) is None);
        assert(bits.drop_first() =~= zeros((k - 1) as nat));
        lemma_unpack_zeros(es, (k - 1) as nat, m + 1);
    }
}

/// Concatenates the code of every input byte, in input order.
pub fn pack_input(table: &Vec<CodeEntry>, input: &Vec<u8>) -> (r: Vec<bool>)
    ensures
        r@ == pack_bits(tview(table@), input@),
{
    let ghost es = tview(table@);
    let mut r: Vec<bool> = Vec::new();
    let mut i: usize = 0;
    proof {
        assert(r@ =~= pack_bits(es, input@.take(0)));
    }
    while i < input.len()
        invariant
            i <= input@.len(),
            es == tview(table@),
            r@ == pack_bits(es, input@.take(i as int)),
        decreases input@.len() - i,
    {
        proof {
            assert(input@.take(i + 1).drop_last() =~= input@.take(i as int));
            assert(input@.take(i + 1) =~= input@.take(i as int).push(input@[i as int]));
            lemma_pack_bits_snoc(es, input@.take(i as int), input@[i as int]);
        }
        match crate::table::find_sym(table, input[i]) {
            Some(idx) => {
                let code = &table[idx].code;
                let mut j: usize = 0;
                proof {
                    assert(r@ + code@.take(0) =~= r@);
                }
                let ghost r0 = r@;
                while j < code.len()
                    invariant
                        j <= code@.len(),
                        r@ == r0 + code@.take(j as int),
                    decreases code@.len() - j,
                {
                    proof {
                        assert(code@.take(j + 1) =~= code@.take(j as int).push(code@[j as int]));
                        assert(r0 + code@.take(j + 1) =~= (r0 + code@.take(j as int)).push(
                            code@[j as int],
                        ));
                    }
                    r.push(code[j]);
                    j = j + 1;
                }
                proof {
                    assert(code@.take(j as int) =~= code@);
                    assert(code_opt(es, input@[i as int]) == code@);
                    assert(r@ =~= pack_bits(es, input@.take(i + 1)));
                }
            },
            None => {
                proof {
                    assert(code_opt(es, input@[i as int]) =~= Seq::<bool>::empty());
                    assert(r@ + code_opt(es, input@[i as int]) =~= r@);
                }
            },
        }
        i = i + 1;
    }
    proof {
        assert(input@.take(i as int) =~= input@);
    }
    r
}

/// Decodes a bit string against the table, bit by bit: the decoded bytes
/// and whatever is left in the accumulator at the end.
pub fn unpack_input(table: &Vec<CodeEntry>, bits: &Vec<bool>) -> (r: (Vec<u8>, Vec<bool>))
    ensures
        r.0@ == unpack_bits(tview(table@), bits@, Seq::empty()).0,
        r.1@ == unpack_bits(tview(table@), bits@, Seq::empty()).1,
{
    let ghost es = tview(table@);
    let ghost full = bits@;
    let mut out: Vec<u8> = Vec::new();
    let mut acc: Vec<bool> = Vec::new();
    let mut j: usize = 0;
    proof {
        assert(full.skip(0) =~= full);
        let r = unpack_bits(es, full, Seq::<bool>::empty());
        assert(out@ + r.0 =~= r.0);
    }
    while j < bits.len()
        invariant
            j <= bits@.len(),
            es == tview(table@),
            full == bits@,
            unpack_bits(es, full, Seq::empty()) == {
                let r = unpack_bits(es, full.skip(j as int), acc@);
                (out@ + r.0, r.1)
            },
        decreases bits@.len() - j,
    {
        proof {
            assert(full.skip(j as int)[0] == full[j as int]);
            assert(full.skip(j as int).drop_first() =~= full.skip(j + 1));
        }
        acc.push(bits[j]);
        match crate::table::find_code(table, &acc) {
            Some(b) => {
                out.push(b);
                acc = Vec::new();
                proof {
                    let r = unpack_bits(es, full.skip(j + 1), acc@);
                    assert(out@ + r.0 =~= out@.drop_last() + (seq![b] + r.0));
                }
            },
            None => {},
        }
        j = j + 1;
    }
    proof {
        assert(full.skip(j as int) =~= Seq::<bool>::empty());
        assert(out@ + Seq::<u8>::empty() =~= out@);
    }
    (out, acc)
}

} // verus!
