//! Bit-level model shared by the packer, the unpacker and the table codec:
//! bit strings are sequences of `bool` (most-significant bit first), and
//! these functions relate them to the byte values that carry them.
use vstd::prelude::*;

verus! {

/// 2 to the power `n`.
pub open spec fn pow2(n: nat) -> nat
    decreases n,
{
    if n == 0 {
        1
    } else {
        2 * pow2((n - 1) as nat)
    }
}

/// 256 to the power `n`.
pub open spec fn pow256(n: nat) -> nat
    decreases n,
{
    if n == 0 {
        1
    } else {
        256 * pow256((n - 1) as nat)
    }
}

pub proof fn lemma_pow2_le(a: nat, b: nat)
    requires
        a <= b,
    ensures
        pow2(a) <= pow2(b),
    decreases b,
{
    if a < b {
        lemma_pow2_le(a, (b - 1) as nat);
    }
}

/// The numeric value of a bit string, most-significant bit first.
pub open spec fn bits_val(s: Seq<bool>) -> nat
    decreases s.len(),
{
    if s.len() == 0 {
        0
    } else {
        2 * bits_val(s.drop_last()) + (if s.last() {
            1nat
        } else {
            0nat
        })
    }
}

/// The low `n` bits of `v`, most-significant bit first.
pub open spec fn bits_of(v: nat, n: nat) -> Seq<bool>
    decreases n,
{
    if n == 0 {
        Seq::empty()
    } else {
        bits_of(v / 2, (n - 1) as nat).push(v % 2 == 1)
    }
}

/// A run of `n` zero bits.
pub open spec fn zeros(n: nat) -> Seq<bool> {
    Seq::new(n, |i: int| false)
}

/// `a` is a (not necessarily strict) prefix of `b`.
pub open spec fn is_prefix_of(a: Seq<bool>, b: Seq<bool>) -> bool {
    a.len() <= b.len() && b.take(a.len() as int) == a
}

/// All bits of a byte sequence, most-significant bit first within each byte.
pub open spec fn bytes_bits(s: Seq<u8>) -> Seq<bool>
    decreases s.len(),
{
    if s.len() == 0 {
        Seq::empty()
    } else {
        bits_of(s[0] as nat, 8) + bytes_bits(s.drop_first())
    }
}

/// The bytes that carry a byte-aligned bit string, most-significant bit first.
pub open spec fn pack_bytes(s: Seq<bool>) -> Seq<u8>
    decreases s.len(),
{
    if s.len() < 8 {
        Seq::empty()
    } else {
        seq![bits_val(s.take(8)) as u8] + pack_bytes(s.skip(8))
    }
}

/// The numeric value of a byte string, big-endian.
pub open spec fn bytes_val(s: Seq<u8>) -> nat
    decreases s.len(),
{
    if s.len() == 0 {
        0
    } else {
        256 * bytes_val(s.drop_last()) + s.last() as nat
    }
}

/// The low `n` bytes of `v`, big-endian.
pub open spec fn bytes_of(v: nat, n: nat) -> Seq<u8>
    decreases n,
{
    if n == 0 {
        Seq::empty()
    } else {
        bytes_of(v / 256, (n - 1) as nat).push((v % 256) as u8)
    }
}

pub proof fn lemma_bits_of_len(v: nat, n: nat)
    ensures
        bits_of(v, n).len() == n,
    decreases n,
{
    if n > 0 {
        lemma_bits_of_len(v / 2, (n - 1) as nat);
    }
}

pub proof fn lemma_bits_val_bound(s: Seq<bool>)
    ensures
        bits_val(s) < pow2(s.len()),
    decreases s.len(),
{
    if s.len() > 0 {
        lemma_bits_val_bound(s.drop_last());
    }
}

/// Extracting as many bits as a bit string is long from its value gives
/// the bit string back.
pub proof fn lemma_bits_of_val(s: Seq<bool>)
    ensures
        bits_of(bits_val(s), s.len()) == s,
    decreases s.len(),
{
    if s.len() > 0 {
        let v = bits_val(s);
        let b: nat = if s.last() {
            1
        } else {
            0
        };
        assert(v == 2 * bits_val(s.drop_last()) + b);
        assert(v / 2 == bits_val(s.drop_last()));
        assert(v % 2 == b);
        lemma_bits_of_val(s.drop_last());
        assert(bits_of(v, s.len()) =~= s);
    } else {
        assert(bits_of(bits_val(s), s.len()) =~= s);
    }
}

pub proof fn lemma_bytes_bits_len(s: Seq<u8>)
    ensures
        bytes_bits(s).len() == 8 * s.len(),
    decreases s.len(),
{
    if s.len() > 0 {
        lemma_bits_of_len(s[0] as nat, 8);
        lemma_bytes_bits_len(s.drop_first());
    }
}

pub proof fn lemma_bytes_bits_add(a: Seq<u8>, b: Seq<u8>)
    ensures
        bytes_bits(a + b) == bytes_bits(a) + bytes_bits(b),
    decreases a.len(),
{
    if a.len() == 0 {
        assert(a + b =~= b);
        assert(bytes_bits(a) + bytes_bits(b) =~= bytes_bits(b));
    } else {
        assert((a + b).drop_first() =~= a.drop_first() + b);
        lemma_bytes_bits_add(a.drop_first(), b);
        assert(bytes_bits(a + b) =~= bytes_bits(a) + bytes_bits(b));
    }
}

pub proof fn lemma_bytes_bits_one(x: u8)
    ensures
        bytes_bits(seq![x]) == bits_of(x as nat, 8),
{
    reveal_with_fuel(bytes_bits, 2);
    assert(seq![x].drop_first() =~= Seq::<u8>::empty());
    assert(bytes_bits(seq![x]) =~= bits_of(x as nat, 8));
}

pub proof fn lemma_bytes_of_len(v: nat, n: nat)
    ensures
        bytes_of(v, n).len() == n,
    decreases n,
{
    if n > 0 {
        lemma_bytes_of_len(v / 256, (n - 1) as nat);
    }
}

/// The big-endian value of the low `n` bytes of `v` is `v` itself when `v`
/// fits in `n` bytes.
pub proof fn lemma_val_bytes_of(v: nat, n: nat)
    requires
        v < pow256(n),
    ensures
        bytes_val(bytes_of(v, n)) == v,
    decreases n,
{
    if n > 0 {
        lemma_val_bytes_of(v / 256, (n - 1) as nat);
        let s = bytes_of(v / 256, (n - 1) as nat);
        assert(bytes_of(v, n).drop_last() =~= s);
        lemma_bytes_of_len(v / 256, (n - 1) as nat);
    }
}

pub proof fn lemma_is_prefix_push(p: Seq<bool>, b: bool)
    ensures
        is_prefix_of(p, p.push(b)),
{
    assert(p.push(b).take(p.len() as int) =~= p);
}

pub proof fn lemma_prefix_trans(a: Seq<bool>, b: Seq<bool>, c: Seq<bool>)
    requires
        is_prefix_of(a, b),
        is_prefix_of(b, c),
    ensures
        is_prefix_of(a, c),
{
    assert(c.take(a.len() as int) =~= b.take(a.len() as int));
}

pub proof fn lemma_prefix_index(a: Seq<bool>, b: Seq<bool>, k: int)
    requires
        is_prefix_of(a, b),
        0 <= k < a.len(),
    ensures
        a[k] == b[k],
{
    assert(b.take(a.len() as int)[k] == b[k]);
}

pub proof fn lemma_pack_bytes_len(s: Seq<bool>)
    requires
        s.len() % 8 == 0,
    ensures
        pack_bytes(s).len() == s.len() / 8,
    decreases s.len(),
{
    if s.len() >= 8 {
        lemma_pack_bytes_len(s.skip(8));
    }
}

/// Packing a byte-aligned bit string into bytes and reading the bytes'
/// bits back gives the original bit string.
pub proof fn lemma_pack_bytes_bits(s: Seq<bool>)
    requires
        s.len() % 8 == 0,
    ensures
        bytes_bits(pack_bytes(s)) == s,
    decreases s.len(),
{
    if s.len() == 0 {
        assert(bytes_bits(pack_bytes(s)) =~= s);
    } else {
        assert(s.len() >= 8);
        let head = s.take(8);
        let tail = s.skip(8);
        assert(tail.len() % 8 == 0);
        lemma_pack_bytes_bits(tail);
        lemma_bits_val_bound(head);
        assert(pow2(8) == 256) by {
                reveal_with_fuel(pow2, 9);
            }
        lemma_bits_of_val(head);
        let v = bits_val(head);
        let packed = pack_bytes(s);
        assert(packed =~= seq![v as u8] + pack_bytes(tail));
        assert(packed[0] == v as u8);
        assert(packed.drop_first() =~= pack_bytes(tail));
        assert(bits_of(packed[0] as nat, 8) == head);
        assert(bytes_bits(packed) =~= s);
    }
}

/// Builds the low `n` bits of a byte, most-significant bit first.
pub fn bits_of_u8(v: u8, n: usize) -> (r: Vec<bool>)
    requires
        n <= 8,
    ensures
        r@ == bits_of(v as nat, n as nat),
    decreases n,
{
    if n == 0 {
        let r: Vec<bool> = Vec::new();
        assert(r@ =~= bits_of(v as nat, 0));
        r
    } else {
        let mut r = bits_of_u8(v / 2, n - 1);
        r.push(v % 2 == 1);
        r
    }
}

/// Reads the value of the bits `from..to` of a bit string, at most 8 of them.
pub fn bits_val_u8(bits: &Vec<bool>, from: usize, to: usize) -> (r: u8)
    requires
        from <= to <= bits@.len(),
        to - from <= 8,
    ensures
        r as nat == bits_val(bits@.subrange(from as int, to as int)),
{
    let mut acc: u16 = 0;
    let mut i: usize = from;
    proof {
        assert(bits@.subrange(from as int, from as int) =~= Seq::<bool>::empty());
    }
    while i < to
        invariant
            from <= i <= to <= bits@.len(),
            to - from <= 8,
            acc as nat == bits_val(bits@.subrange(from as int, i as int)),
            (acc as nat) < pow2((i - from) as nat),
        decreases to - i,
    {
        proof {
            assert(bits@.subrange(from as int, i + 1int).drop_last() =~= bits@.subrange(
                from as int,
                i as int,
            ));
            lemma_pow2_le((i - from) as nat, 8);
            lemma_pow2_le(((i + 1) - from) as nat, 8);
            lemma_bits_val_bound(bits@.subrange(from as int, i + 1int));
            assert(pow2(8) == 256) by {
                reveal_with_fuel(pow2, 9);
            }
        }
        acc = 2 * acc + (if bits[i] {
            1
        } else {
            0
        });
        i = i + 1;
    }
    proof {
        lemma_pow2_le((to - from) as nat, 8);
        assert(pow2(8) == 256) by {
                reveal_with_fuel(pow2, 9);
            }
    }
    acc as u8
}

/// Packs the byte-aligned tail `from..` of a bit string into bytes,
/// most-significant bit first.
pub fn pack_bytes_from(bits: &Vec<bool>, from: usize) -> (r: Vec<u8>)
    requires
        from <= bits@.len(),
        (bits@.len() - from) % 8 == 0,
    ensures
        r@ == pack_bytes(bits@.skip(from as int)),
{
    let ghost s = bits@.skip(from as int);
    let mut r: Vec<u8> = Vec::new();
    let mut i: usize = from;
    proof {
        assert(s.take(0) =~= Seq::<bool>::empty());
    }
    while i < bits.len()
        invariant
            from <= i <= bits@.len(),
            (i - from) % 8 == 0,
            (bits@.len() - from) % 8 == 0,
            s == bits@.skip(from as int),
            r@ == pack_bytes(s.take(i - from)),
        decreases bits@.len() - i,
    {
        proof {
            assert((bits@.len() - i) % 8 == 0) by {
                assert((bits@.len() - from) % 8 == 0 && (i - from) % 8 == 0);
            }
        }
        let b = bits_val_u8(bits, i, i + 8);
        proof {
            assert(bits@.subrange(i as int, i + 8) =~= s.subrange(i - from, i - from + 8));
            lemma_bits_val_bound(s.subrange(i - from, i - from + 8));
            assert(pow2(8) == 256) by {
                reveal_with_fuel(pow2, 9);
            }
            lemma_pack_take_step(s, i - from);
        }
        r.push(b);
        i = i + 8;
    }
    proof {
        assert(s.take(i - from) =~= s);
    }
    r
}

/// Compares two bit strings for equality.
pub fn bits_eq(a: &Vec<bool>, b: &Vec<bool>) -> (r: bool)
    ensures
        r == (a@ == b@),
{
    if a.len() != b.len() {
        proof {
            assert(a@ != b@);
        }
        return false;
    }
    let mut i: usize = 0;
    while i < a.len()
        invariant
            i <= a@.len(),
            a@.len() == b@.len(),
            forall|k: int| 0 <= k < i ==> a@[k] == b@[k],
        decreases a@.len() - i,
    {
        if a[i] != b[i] {
            proof {
                assert(a@ != b@);
            }
            return false;
        }
        i = i + 1;
    }
    proof {
        assert(a@ =~= b@);
    }
    true
}

/// One step of packing: the packed form of the first `i + 8` bits is the
/// packed form of the first `i` bits followed by the value of bits `i..i + 8`.
proof fn lemma_pack_take_step(s: Seq<bool>, i: int)
    requires
        0 <= i,
        i % 8 == 0,
        i + 8 <= s.len(),
    ensures
        pack_bytes(s.take(i + 8)) == pack_bytes(s.take(i)).push(
            bits_val(s.subrange(i, i + 8)) as u8,
        ),
    decreases i,
{
    reveal_with_fuel(pack_bytes, 3);
    if i == 0 {
        let t = s.take(8);
        assert(t.take(8) =~= s.subrange(0, 8));
        assert(t.skip(8) =~= Seq::<bool>::empty());
        assert(pack_bytes(s.take(0)) =~= Seq::<u8>::empty());
        assert(pack_bytes(s.take(8)) =~= pack_bytes(s.take(0)).push(
            bits_val(s.subrange(0, 8)) as u8,
        ));
    } else {
        let a = s.take(i + 8);
        let b = s.take(i);
        let v8 = bits_val(s.subrange(i, i + 8)) as u8;
        assert(a.len() >= 8 && b.len() >= 8);
        assert(a.take(8) =~= b.take(8));
        lemma_pack_take_step(s.skip(8), i - 8);
        assert(a.skip(8) =~= s.skip(8).take(i));
        assert(b.skip(8) =~= s.skip(8).take(i - 8));
        assert(s.skip(8).subrange(i - 8, i) =~= s.subrange(i, i + 8));
        assert(pack_bytes(a.skip(8)) == pack_bytes(b.skip(8)).push(v8));
        assert(pack_bytes(a) == seq![bits_val(a.take(8)) as u8] + pack_bytes(a.skip(8)));
        assert(pack_bytes(b) == seq![bits_val(b.take(8)) as u8] + pack_bytes(b.skip(8)));
        assert(pack_bytes(a) =~= pack_bytes(b).push(v8));
    }
}

/// Reads a big-endian 32-bit value from four bytes at `pos`.
pub fn read_be32(data: &Vec<u8>, pos: usize) -> (r: u64)
    requires
        pos + 4 <= data@.len(),
    ensures
        r as nat == bytes_val(data@.subrange(pos as int, pos + 4)),
        r < 4294967296,
{
    let n = data.len();
    let b0 = data[pos] as u64;
    let b1 = data[pos + 1] as u64;
    let b2 = data[pos + 2] as u64;
    let b3 = data[pos + 3] as u64;
    proof {
        reveal_with_fuel(bytes_val, 5);
        let s = data@.subrange(pos as int, pos + 4);
        assert(s.drop_last() =~= data@.subrange(pos as int, pos + 3));
        assert(s.drop_last().drop_last() =~= data@.subrange(pos as int, pos + 2));
        assert(s.drop_last().drop_last().drop_last() =~= data@.subrange(pos as int, pos + 1));
        assert(s.drop_last().drop_last().drop_last().drop_last() =~= data@.subrange(
            pos as int,
            pos as int,
        ));
    }
    ((((b0 * 256) + b1) * 256 + b2) * 256 + b3) as u64
}

/// Writes `v` as four big-endian bytes onto the end of `out`.
pub fn write_be32(out: &mut Vec<u8>, v: u64)
    requires
        v < 4294967296,
    ensures
        final(out)@ == old(out)@ + bytes_of(v as nat, 4),
{
    let b3 = (v % 256) as u8;
    let q1 = v / 256;
    let b2 = (q1 % 256) as u8;
    let q2 = q1 / 256;
    let b1 = (q2 % 256) as u8;
    let q3 = q2 / 256;
    let b0 = (q3 % 256) as u8;
    proof {
        assert(q3 as nat / 256 == 0);
        assert(bytes_of(q3 as nat, 1) =~= bytes_of(0, 0).push(b0));
        assert(bytes_of(q2 as nat, 2) =~= bytes_of(q3 as nat, 1).push(b1));
        assert(bytes_of(q1 as nat, 3) =~= bytes_of(q2 as nat, 2).push(b2));
        assert(bytes_of(v as nat, 4) =~= bytes_of(q1 as nat, 3).push(b3));
        assert(bytes_of(v as nat, 4) =~= seq![b0, b1, b2, b3]);
    }
    out.push(b0);
    out.push(b1);
    out.push(b2);
    out.push(b3);
    proof {
        assert(out@ =~= old(out)@ + bytes_of(v as nat, 4));
    }
}

} // verus!
