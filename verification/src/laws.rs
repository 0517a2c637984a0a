//! The laws the codec obeys, stated over the specification functions that
//! the public contracts speak of.
use crate::bits::{lemma_pack_bytes_bits, pack_bytes, zeros};
use crate::decoder::{is_padding, spec_decompress};
use crate::encoder::{lemma_spec_table_props, pad_len, spec_compress, spec_table};
use crate::freq::lemma_count_present;
use crate::pack::{
    lemma_lookup_sym_index, lemma_unpack_pack, lemma_unpack_zeros, pack_bits, unpack_bits,
};
use crate::table::{
    lemma_parse_ser_table, lookup_code, lookup_sym, magic, prefix_free, ser_entries, ser_table,
};
use crate::CodecError;
use vstd::prelude::*;

verus! {

/// The codes a non-empty input's table assigns are prefix-free: of two
/// distinct entries, neither code is a prefix of the other.
pub proof fn lemma_prefix_free(s: Seq<u8>)
    requires
        s.len() >= 1,
    ensures
        prefix_free(spec_table(s)),
{
    lemma_spec_table_props(s);
}

/// The padding of an input completes no code: no run of zero bits as long
/// as the padding (or shorter) is itself a code of the input's table. The
/// format marks the padding in no other way, so this is exactly the
/// condition under which the padded stream decodes to the input alone.
pub open spec fn pad_safe(s: Seq<u8>) -> bool {
    forall|j: nat|
        1 <= j <= pad_len(pack_bits(spec_table(s), s).len()) ==> lookup_code(
            spec_table(s),
            #[trigger] zeros(j),
        ) is None
}

/// Format rejection: a stream that does not begin with the three magic
/// bytes is rejected as a format error.
pub proof fn lemma_format_rejection(data: Seq<u8>)
    requires
        !(data.len() >= 3 && data[0] == 0xf0 && data[1] == 0xf1 && data[2] == 0xf2),
    ensures
        spec_decompress(data) == Err::<Seq<u8>, CodecError>(CodecError::FormatError),
{
    if data.len() >= 7 {
        let m = data.subrange(0, 3);
        assert(m[0] == data[0] && m[1] == data[1] && m[2] == data[2]);
        assert(m != magic());
    }
}

/// An input with a single distinct byte value is always safe to pad: its
/// only code is the one bit `1`, which no run of zeros completes. With
/// `lemma_round_trip` this gives the round trip for every such input,
/// whatever its length.
pub proof fn lemma_single_value_pad_safe(s: Seq<u8>)
    requires
        s.len() >= 1,
        crate::freq::leaves_of(s).len() == 1,
    ensures
        pad_safe(s),
{
    let es = spec_table(s);
    assert forall|j: nat|
        1 <= j <= pad_len(pack_bits(spec_table(s), s).len()) implies lookup_code(
        spec_table(s),
        #[trigger] zeros(j),
    ) is None by {
        reveal_with_fuel(crate::table::lookup_code, 2);
        assert(es[0].1 != zeros(j)) by {
            assert(zeros(j)[0] == false);
        }
        assert(es.drop_first().len() == 0);
    }
}

/// Round trip: decompressing the compression of any non-empty input whose
/// padding completes no code yields exactly the input back.
pub proof fn lemma_round_trip(s: Seq<u8>)
    requires
        s.len() >= 1,
        pad_safe(s),
    ensures
        spec_compress(s) is Ok,
        spec_decompress(spec_compress(s).unwrap()) == Ok::<Seq<u8>, CodecError>(s),
{
    lemma_spec_table_props(s);
    let es = spec_table(s);
    let body = pack_bits(es, s);
    let k = pad_len(body.len());
    let padded = body + zeros(k);
    let out = ser_table(es) + pack_bytes(padded);
    assert(spec_compress(s) == Ok::<Seq<u8>, CodecError>(out));

    // The header parses back to the table and consumes exactly itself.
    lemma_parse_ser_table(es, pack_bytes(padded));
    let used = (7 + ser_entries(es).len()) as nat;
    assert(crate::table::parse_table(out) == Some((es, used)));

    // The body bytes carry exactly the padded bits.
    assert(padded.len() % 8 == 0);
    lemma_pack_bytes_bits(padded);
    assert(out.skip(used as int) =~= pack_bytes(padded));

    // Unpacking consumes the code of every input byte, then the padding.
    assert forall|i: int| 0 <= i < s.len() implies lookup_sym(es, #[trigger] s[i]) is Some
        && lookup_sym(es, s[i]).unwrap().len() >= 1 by {
        lemma_count_present(s, i);
        assert(lookup_sym(es, s[i]) is Some);
        lemma_lookup_sym_index(es, s[i]);
    }
    lemma_unpack_pack(es, s, zeros(k));
    lemma_unpack_zeros(es, k, 0);
    assert(zeros(0) =~= Seq::<bool>::empty());
    let r0 = unpack_bits(es, zeros(k), Seq::empty());
    assert(r0 == (Seq::<u8>::empty(), zeros(k)));
    let r = unpack_bits(es, padded, Seq::empty());
    assert(r == (s + r0.0, r0.1));
    assert(s + Seq::<u8>::empty() =~= s);

    // The leftover is the padding, which the decoder accepts and drops.
    assert(is_padding(zeros(k)));
    assert(spec_decompress(out) == Ok::<Seq<u8>, CodecError>(s));
}

} // verus!
