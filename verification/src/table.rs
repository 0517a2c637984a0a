//! The code table and its wire format. An encode-direction table is a list
//! of `(byte value, code)` pairs. On the wire it is a fixed magic sequence,
//! a big-endian entry count, and one record per entry: the byte value, the
//! number of significant bits in the partial leading byte, the number of
//! bytes that hold the code, and those code bytes (partial leading byte
//! first if any, then full bytes, most-significant bit first).
use crate::bits::{
    bits_of, bits_val, bytes_bits, bytes_of, bytes_val, is_prefix_of, lemma_bits_of_val,
    lemma_bits_val_bound, lemma_bytes_bits_add, lemma_bytes_of_len,
    lemma_pack_bytes_bits, lemma_pack_bytes_len, lemma_pow2_le, lemma_val_bytes_of, pack_bytes,
    pow2, pow256,
};
use vstd::prelude::*;

verus! {

/// One entry of the encode-direction code table.
pub struct CodeEntry {
    pub sym: u8,
    pub code: Vec<bool>,
}

/// The mathematical view of a code table: the sequence of its
/// `(byte value, code)` pairs.
pub open spec fn tview(s: Seq<CodeEntry>) -> Seq<(u8, Seq<bool>)> {
    s.map_values(|e: CodeEntry| (e.sym, e.code@))
}

/// The code of the first entry for byte value `b`, if any.
pub open spec fn lookup_sym(es: Seq<(u8, Seq<bool>)>, b: u8) -> Option<Seq<bool>>
    decreases es.len(),
{
    if es.len() == 0 {
        None
    } else if es[0].0 == b {
        Some(es[0].1)
    } else {
        lookup_sym(es.drop_first(), b)
    }
}

/// The byte value of the first entry whose code is `c`, if any.
pub open spec fn lookup_code(es: Seq<(u8, Seq<bool>)>, c: Seq<bool>) -> Option<u8>
    decreases es.len(),
{
    if es.len() == 0 {
        None
    } else if es[0].1 == c {
        Some(es[0].0)
    } else {
        lookup_code(es.drop_first(), c)
    }
}

/// No code in the table is a prefix of another entry's code.
pub open spec fn prefix_free(codes: Seq<(u8, Seq<bool>)>) -> bool {
    forall|i: int, j: int|
        #![trigger codes[i], codes[j]]
        0 <= i < codes.len() && 0 <= j < codes.len() && i != j ==> !is_prefix_of(
            codes[i].1,
            codes[j].1,
        )
}

/// An entry that the wire format can carry: a non-empty code of at most
/// 255 bytes' worth of bits.
pub open spec fn entry_wf(e: (u8, Seq<bool>)) -> bool {
    1 <= e.1.len() <= 2040
}

/// A table that the wire format can carry.
pub open spec fn table_wf(es: Seq<(u8, Seq<bool>)>) -> bool {
    es.len() < 4294967296 && forall|i: int| 0 <= i < es.len() ==> entry_wf(#[trigger] es[i])
}

/// The fixed three bytes that begin every compressed stream.
pub open spec fn magic() -> Seq<u8> {
    seq![0xf0u8, 0xf1u8, 0xf2u8]
}

/// The code bytes of one entry: the partial leading byte first (the low
/// `len % 8` bits of its value), then the full bytes.
pub open spec fn ser_code(c: Seq<bool>) -> Seq<u8> {
    let rem = (c.len() % 8) as int;
    if rem == 0 {
        pack_bytes(c)
    } else {
        seq![bits_val(c.take(rem)) as u8] + pack_bytes(c.skip(rem))
    }
}

/// One serialized table entry.
pub open spec fn ser_entry(e: (u8, Seq<bool>)) -> Seq<u8> {
    seq![e.0, (e.1.len() % 8) as u8, ((e.1.len() + 7) / 8) as u8] + ser_code(e.1)
}

pub open spec fn ser_entries(es: Seq<(u8, Seq<bool>)>) -> Seq<u8>
    decreases es.len(),
{
    if es.len() == 0 {
        Seq::empty()
    } else {
        ser_entry(es[0]) + ser_entries(es.drop_first())
    }
}

/// The serialized table: magic, big-endian entry count, then the entries.
pub open spec fn ser_table(es: Seq<(u8, Seq<bool>)>) -> Seq<u8> {
    magic() + bytes_of(es.len(), 4) + ser_entries(es)
}

/// The code carried by one entry's code bytes: `rem` bits of the partial
/// leading byte if `rem > 0`, then all bits of the remaining full bytes.
pub open spec fn parsed_code(rem: nat, bytes: Seq<u8>) -> Seq<bool> {
    if rem == 0 {
        bytes_bits(bytes)
    } else {
        bits_of(bytes[0] as nat, rem) + bytes_bits(bytes.drop_first())
    }
}

/// Parses `n` table entries from the front of `s`: the entries and the
/// number of bytes consumed, or nothing if the stream is truncated or an
/// entry declares an impossible shape (more than 7 partial bits, or no
/// code bytes at all).
pub open spec fn parse_entries(s: Seq<u8>, n: nat) -> Option<(Seq<(u8, Seq<bool>)>, nat)>
    decreases n,
{
    if n == 0 {
        Some((Seq::empty(), 0))
    } else if s.len() < 3 {
        None
    } else {
        let sym = s[0];
        let rem = s[1] as nat;
        let total = s[2] as nat;
        if rem >= 8 || total == 0 {
            None
        } else if s.len() < 3 + total {
            None
        } else {
            let code = parsed_code(rem, s.subrange(3, 3 + total as int));
            match parse_entries(s.skip(3 + total as int), (n - 1) as nat) {
                None => None,
                Some((es, used)) => Some((seq![(sym, code)] + es, 3 + total + used)),
            }
        }
    }
}

/// Parses a serialized table from the front of `s`: the entries and the
/// number of header bytes consumed, or nothing if the magic does not
/// match or the stream ends before the declared entry count is met.
pub open spec fn parse_table(s: Seq<u8>) -> Option<(Seq<(u8, Seq<bool>)>, nat)> {
    if s.len() < 7 {
        None
    } else if s.subrange(0, 3) != magic() {
        None
    } else {
        let n = bytes_val(s.subrange(3, 7));
        match parse_entries(s.skip(7), n) {
            None => None,
            Some((es, used)) => Some((es, 7 + used)),
        }
    }
}

/// The number of code bytes a code needs on the wire.
pub open spec fn code_bytes_len(c: Seq<bool>) -> nat {
    ((c.len() + 7) / 8) as nat
}

pub proof fn lemma_ser_code_len(c: Seq<bool>)
    requires
        1 <= c.len(),
    ensures
        ser_code(c).len() == code_bytes_len(c),
        1 <= code_bytes_len(c),
{
    let rem = (c.len() % 8) as int;
    if rem == 0 {
        lemma_pack_bytes_len(c);
    } else {
        lemma_pack_bytes_len(c.skip(rem));
    }
}

pub proof fn lemma_ser_entry_len(e: (u8, Seq<bool>))
    requires
        entry_wf(e),
    ensures
        ser_entry(e).len() == 3 + code_bytes_len(e.1),
{
    lemma_ser_code_len(e.1);
}

pub proof fn lemma_ser_entries_snoc(es: Seq<(u8, Seq<bool>)>, e: (u8, Seq<bool>))
    ensures
        ser_entries(es.push(e)) == ser_entries(es) + ser_entry(e),
    decreases es.len(),
{
    reveal_with_fuel(ser_entries, 2);
    if es.len() == 0 {
        assert(es.push(e)[0] == e);
        assert(es.push(e).drop_first() =~= Seq::<(u8, Seq<bool>)>::empty());
        assert(ser_entries(es.push(e)) =~= ser_entries(es) + ser_entry(e));
    } else {
        assert(es.push(e)[0] == es[0]);
        assert(es.push(e).drop_first() =~= es.drop_first().push(e));
        lemma_ser_entries_snoc(es.drop_first(), e);
        assert(ser_entries(es.push(e)) =~= ser_entries(es) + ser_entry(e));
    }
}

/// A table with an entry for byte value `b` answers a lookup of `b`.
pub proof fn lemma_lookup_sym_exists(es: Seq<(u8, Seq<bool>)>, b: u8)
    requires
        exists|i: int| 0 <= i < es.len() && (#[trigger] es[i]).0 == b,
    ensures
        lookup_sym(es, b) is Some,
    decreases es.len(),
{
    if es[0].0 != b {
        let i = choose|i: int| 0 <= i < es.len() && (#[trigger] es[i]).0 == b;
        assert(es.drop_first()[i - 1] == es[i]);
        lemma_lookup_sym_exists(es.drop_first(), b);
    }
}

/// Parsing one serialized entry off the front of a stream yields the entry
/// back and continues exactly after its bytes.
proof fn lemma_parse_one_entry(e: (u8, Seq<bool>), rest: Seq<u8>, n: nat)
    requires
        entry_wf(e),
        n >= 1,
    ensures
        parse_entries(ser_entry(e) + rest, n) == (match parse_entries(rest, (n - 1) as nat) {
            None => None::<(Seq<(u8, Seq<bool>)>, nat)>,
            Some((es, used)) => Some(
                (seq![e] + es, (ser_entry(e).len() + used) as nat),
            ),
        }),
{
    let s = ser_entry(e) + rest;
    let c = e.1;
    let len = c.len();
    let rem = (len % 8) as int;
    let total = code_bytes_len(c);
    lemma_ser_entry_len(e);
    lemma_ser_code_len(c);
    assert(total <= 255);
    assert(s.len() >= 3 + total);
    assert(s[0] == e.0);
    assert(s[1] == (len % 8) as u8);
    assert(s[2] == total as u8);
    assert(s[2] as nat == total);
    let bytes = s.subrange(3, 3 + total as int);
    assert(bytes =~= ser_code(c));
    if rem == 0 {
        assert(parsed_code(s[1] as nat, bytes) == bytes_bits(pack_bytes(c)));
        lemma_pack_bytes_bits(c);
    } else {
        let head = c.take(rem);
        let tail = c.skip(rem);
        let hv = bits_val(head);
        lemma_bits_val_bound(head);
        lemma_pow2_le((len % 8) as nat, 8);
        assert(pow2(8) == 256) by {
            reveal_with_fuel(crate::bits::pow2, 9);
        }
        assert(hv < 256);
        assert(bytes[0] == hv as u8);
        assert(bytes.drop_first() =~= pack_bytes(tail));
        lemma_bits_of_val(head);
        assert(bits_of(bytes[0] as nat, s[1] as nat) == head);
        lemma_pack_bytes_bits(tail);
        assert(parsed_code(s[1] as nat, bytes) =~= c);
    }
    assert(parsed_code(s[1] as nat, bytes) == c);
    assert(s.skip(3 + total as int) =~= rest);
    match parse_entries(rest, (n - 1) as nat) {
        None => {},
        Some((es, used)) => {
            assert(seq![(s[0], parsed_code(s[1] as nat, bytes))] + es =~= seq![e] + es);
        },
    }
}

/// Parsing the serialization of a table, with anything after it, yields
/// the table back and consumes exactly the serialized entries.
pub proof fn lemma_parse_ser_entries(es: Seq<(u8, Seq<bool>)>, rest: Seq<u8>, n: nat)
    requires
        forall|i: int| 0 <= i < es.len() ==> entry_wf(#[trigger] es[i]),
        n == es.len(),
    ensures
        parse_entries(ser_entries(es) + rest, n) == Some((es, ser_entries(es).len())),
    decreases es.len(),
{
    if es.len() == 0 {
        assert(ser_entries(es) + rest =~= rest);
        assert(Some((es, ser_entries(es).len())) == Some(
            (Seq::<(u8, Seq<bool>)>::empty(), 0nat),
        )) by {
            assert(es =~= Seq::<(u8, Seq<bool>)>::empty());
        }
    } else {
        let e = es[0];
        let tail = es.drop_first();
        lemma_parse_ser_entries(tail, rest, (n - 1) as nat);
        assert(ser_entries(es) + rest =~= ser_entry(e) + (ser_entries(tail) + rest));
        lemma_parse_one_entry(e, ser_entries(tail) + rest, n);
        assert(seq![e] + tail =~= es);
    }
}

/// Deserializing a serialized table recovers it exactly: the entries come
/// back in order and the parse consumes exactly the header, whatever
/// follows it.
pub proof fn lemma_parse_ser_table(es: Seq<(u8, Seq<bool>)>, body: Seq<u8>)
    requires
        table_wf(es),
    ensures
        parse_table(ser_table(es) + body) == Some(
            (es, (7 + ser_entries(es).len()) as nat),
        ),
        ser_table(es).len() == 7 + ser_entries(es).len(),
{
    let s = ser_table(es) + body;
    lemma_bytes_of_len(es.len(), 4);
    assert(s.subrange(0, 3) =~= magic());
    assert(s.subrange(3, 7) =~= bytes_of(es.len(), 4));
    assert(pow256(4) == 4294967296) by {
        reveal_with_fuel(pow256, 5);
    }
    lemma_val_bytes_of(es.len(), 4);
    assert(bytes_val(s.subrange(3, 7)) == es.len());
    assert(s.skip(7) =~= ser_entries(es) + body);
    lemma_parse_ser_entries(es, body, es.len());
}

/// Deserializing the serialization of any well-formed code table yields
/// the same table (the same pairs in the same order).
pub proof fn lemma_table_round_trip(es: Seq<(u8, Seq<bool>)>)
    requires
        table_wf(es),
    ensures
        parse_table(ser_table(es)) == Some((es, ser_table(es).len())),
{
    lemma_parse_ser_table(es, Seq::empty());
    assert(ser_table(es) + Seq::<u8>::empty() =~= ser_table(es));
}

/// Finds the first entry for byte value `b` and returns its index.
pub fn find_sym(table: &Vec<CodeEntry>, b: u8) -> (r: Option<usize>)
    ensures
        match r {
            Some(i) => i < table@.len() && tview(table@)[i as int] == (
                b,
                lookup_sym(tview(table@), b).unwrap(),
            ) && lookup_sym(tview(table@), b) is Some,
            None => lookup_sym(tview(table@), b) is None,
        },
{
    let ghost es = tview(table@);
    let mut i: usize = 0;
    proof {
        assert(es.skip(0) =~= es);
    }
    while i < table.len()
        invariant
            i <= table@.len(),
            es == tview(table@),
            lookup_sym(es, b) == lookup_sym(es.skip(i as int), b),
        decreases table@.len() - i,
    {
        if table[i].sym == b {
            proof {
                assert(es.skip(i as int)[0] == es[i as int]);
                assert(es[i as int].0 == b);
            }
            return Some(i);
        }
        proof {
            assert(es.skip(i as int)[0] == es[i as int]);
            assert(es.skip(i as int).drop_first() =~= es.skip(i + 1));
        }
        i = i + 1;
    }
    proof {
        assert(es.skip(i as int).len() == 0);
    }
    None
}

/// Finds the byte value whose code is `bits`, if the table has one.
pub fn find_code(table: &Vec<CodeEntry>, bits: &Vec<bool>) -> (r: Option<u8>)
    ensures
        r == lookup_code(tview(table@), bits@),
{
    let ghost es = tview(table@);
    let mut i: usize = 0;
    proof {
        assert(es.skip(0) =~= es);
    }
    while i < table.len()
        invariant
            i <= table@.len(),
            es == tview(table@),
            lookup_code(es, bits@) == lookup_code(es.skip(i as int), bits@),
        decreases table@.len() - i,
    {
        proof {
            assert(es.skip(i as int)[0] == es[i as int]);
            assert(es.skip(i as int).drop_first() =~= es.skip(i + 1));
        }
        if crate::bits::bits_eq(&table[i].code, bits) {
            return Some(table[i].sym);
        }
        i = i + 1;
    }
    proof {
        assert(es.skip(i as int).len() == 0);
    }
    None
}

} // verus!
