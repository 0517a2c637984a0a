//! The decompressor: parses the serialized code table off the front of the
//! stream, then decodes the packed body bit by bit against it. Leftover
//! bits are accepted only as the packer's zero padding (fewer than eight
//! zero bits); anything else is a format error.
use crate::bits::{
    bits_of_u8, bytes_bits, lemma_bytes_bits_add, lemma_bytes_bits_one, read_be32, zeros,
};
use crate::pack::{unpack_bits, unpack_input};
use crate::table::{magic, parse_entries, parsed_code, tview, CodeEntry};
use crate::CodecError;
use vstd::prelude::*;

verus! {

/// Leftover bits the unpacker may lawfully leave behind: the packer's zero
/// padding, fewer than eight zero bits.
pub open spec fn is_padding(acc: Seq<bool>) -> bool {
    acc.len() < 8 && acc == zeros(acc.len())
}

/// What decompression returns: the body decoded against the table parsed
/// from the header, or the error for a stream whose header does not parse
/// or whose leftover bits are not padding.
pub open spec fn spec_decompress(data: Seq<u8>) -> Result<Seq<u8>, CodecError> {
    match crate::table::parse_table(data) {
        None => Err(CodecError::FormatError),
        Some((es, used)) => {
            let r = unpack_bits(es, bytes_bits(data.skip(used as int)), Seq::empty());
            if is_padding(r.1) {
                Ok(r.0)
            } else {
                Err(CodecError::FormatError)
            }
        },
    }
}

/// The decompressor: wraps the bytes of one compressed stream.
pub struct Decoder {
    data: Vec<u8>,
}

impl View for Decoder {
    type V = Seq<u8>;

    closed spec fn view(&self) -> Seq<u8> {
        self.data@
    }
}

/// Reads the bits of the bytes `from..` of `data`, most-significant bit
/// first within each byte.
fn bytes_to_bits(data: &Vec<u8>, from: usize) -> (r: Vec<bool>)
    requires
        from <= data@.len(),
    ensures
        r@ == bytes_bits(data@.skip(from as int)),
{
    let mut r: Vec<bool> = Vec::new();
    let mut q = from;
    proof {
        assert(data@.subrange(from as int, from as int) =~= Seq::<u8>::empty());
        assert(r@ =~= bytes_bits(data@.subrange(from as int, from as int)));
    }
    while q < data.len()
        invariant
            from <= q <= data@.len(),
            r@ == bytes_bits(data@.subrange(from as int, q as int)),
        decreases data@.len() - q,
    {
        let mut one = bits_of_u8(data[q], 8);
        proof {
            let a = data@.subrange(from as int, q as int);
            assert(data@.subrange(from as int, q + 1) =~= a + seq![data@[q as int]]);
            lemma_bytes_bits_add(a, seq![data@[q as int]]);
            lemma_bytes_bits_one(data@[q as int]);
        }
        r.append(&mut one);
        q = q + 1;
    }
    proof {
        assert(data@.subrange(from as int, q as int) =~= data@.skip(from as int));
    }
    r
}

/// True exactly when every bit of `v` is zero.
fn all_zero(v: &Vec<bool>) -> (r: bool)
    ensures
        r == (v@ == zeros(v@.len())),
{
    let mut i: usize = 0;
    while i < v.len()
        invariant
            i <= v@.len(),
            forall|k: int| 0 <= k < i ==> v@[k] == false,
        decreases v@.len() - i,
    {
        if v[i] {
            proof {
                assert(v@ != zeros(v@.len()));
            }
            return false;
        }
        i = i + 1;
    }
    proof {
        assert(v@ =~= zeros(v@.len()));
    }
    true
}

impl Decoder {
    /// Wraps the bytes to decompress.
    pub fn new(data: Vec<u8>) -> (r: Decoder)
        ensures
            r@ == data@,
    {
        Decoder { data }
    }

    /// Parses the serialized code table off the front of the stream: the
    /// table and the number of header bytes consumed, or nothing if the
    /// magic does not match or the stream ends before the declared entry
    /// count is met.
    fn parse_table(&self) -> (r: Option<(Vec<CodeEntry>, usize)>)
        ensures
            match r {
                Some((t, used)) => crate::table::parse_table(self@) == Some(
                    (tview(t@), used as nat),
                ) && used <= self@.len(),
                None => crate::table::parse_table(self@) is None,
            },
    {
        let n = self.data.len();
        if n < 7 {
            return None;
        }
        if self.data[0] != 0xf0 || self.data[1] != 0xf1 || self.data[2] != 0xf2 {
            proof {
                let m = self@.subrange(0, 3);
                assert(m[0] == self@[0] && m[1] == self@[1] && m[2] == self@[2]);
                assert(m != magic());
            }
            return None;
        }
        proof {
            assert(self@.subrange(0, 3) =~= magic());
        }
        let total = read_be32(&self.data, 3);
        let ghost nt = total as nat;
        proof {
            assert(nt == crate::bits::bytes_val(self@.subrange(3, 7)));
        }
        let mut table: Vec<CodeEntry> = Vec::new();
        let mut pos: usize = 7;
        let mut parsed: u64 = 0;
        proof {
            assert(tview(table@) =~= Seq::<(u8, Seq<bool>)>::empty());
        }
        while parsed < total
            invariant
                7 <= pos <= self@.len(),
                parsed <= total,
                self@.len() == n,
                n >= 7,
                nt == total as nat,
                self@.subrange(0, 3) == magic(),
                nt == crate::bits::bytes_val(self@.subrange(3, 7)),
                parse_entries(self@.skip(7), nt) == (match parse_entries(
                    self@.skip(pos as int),
                    (nt - parsed) as nat,
                ) {
                    None => None::<(Seq<(u8, Seq<bool>)>, nat)>,
                    Some((es2, u2)) => Some((tview(table@) + es2, ((pos - 7) + u2) as nat)),
                }),
            decreases total - parsed,
        {
            let ghost scur = self@.skip(pos as int);
            let remaining = n - pos;
            if remaining < 3 {
                return None;
            }
            let sym = self.data[pos];
            let rem = self.data[pos + 1];
            let tl = self.data[pos + 2];
            proof {
                assert(scur[0] == self@[pos as int]);
                assert(scur[1] == self@[pos + 1]);
                assert(scur[2] == self@[pos + 2]);
            }
            if rem >= 8 || tl == 0 {
                return None;
            }
            let tlu = tl as usize;
            if remaining < 3 + tlu {
                return None;
            }
            let mut code: Vec<bool>;
            let fb_start: usize;
            if rem > 0 {
                code = bits_of_u8(self.data[pos + 3], rem as usize);
                fb_start = pos + 4;
            } else {
                code = Vec::new();
                fb_start = pos + 3;
            }
            let ghost code0 = code@;
            let mut q = fb_start;
            proof {
                assert(self@.subrange(fb_start as int, fb_start as int)
                    =~= Seq::<u8>::empty());
                assert(code@ =~= code0 + bytes_bits(
                    self@.subrange(fb_start as int, fb_start as int),
                ));
            }
            while q < pos + 3 + tlu
                invariant
                    fb_start <= q <= pos + 3 + tlu <= n,
                    n == self@.len(),
                    code@ == code0 + bytes_bits(self@.subrange(fb_start as int, q as int)),
                decreases pos + 3 + tlu - q,
            {
                let mut one = bits_of_u8(self.data[q], 8);
                proof {
                    let a = self@.subrange(fb_start as int, q as int);
                    assert(self@.subrange(fb_start as int, q + 1) =~= a + seq![
                        self@[q as int],
                    ]);
                    lemma_bytes_bits_add(a, seq![self@[q as int]]);
                    lemma_bytes_bits_one(self@[q as int]);
                }
                code.append(&mut one);
                proof {
                    assert(code@ =~= code0 + bytes_bits(
                        self@.subrange(fb_start as int, q + 1),
                    ));
                }
                q = q + 1;
            }
            proof {
                let bytes = scur.subrange(3, 3 + tl as int);
                assert(bytes =~= self@.subrange(pos + 3, pos + 3 + tl as int));
                if rem > 0 {
                    assert(bytes[0] == self@[pos + 3]);
                    assert(bytes.drop_first() =~= self@.subrange(pos + 4, pos + 3 + tl as int));
                    assert(code@ =~= parsed_code(rem as nat, bytes));
                } else {
                    assert(code0 =~= Seq::<bool>::empty());
                    assert(code@ =~= parsed_code(rem as nat, bytes));
                }
            }
            let ghost t0 = tview(table@);
            table.push(CodeEntry { sym, code });
            proof {
                assert(tview(table@) =~= t0.push((sym, parsed_code(rem as nat, scur.subrange(
                    3,
                    3 + tl as int,
                )))));
                assert(scur.skip(3 + tl as int) =~= self@.skip(pos + 3 + tlu));
                let e = (sym, parsed_code(rem as nat, scur.subrange(3, 3 + tl as int)));
                match parse_entries(self@.skip(pos + 3 + tlu), (nt - parsed - 1) as nat) {
                    None => {},
                    Some((es2, u2)) => {
                        assert(t0 + (seq![e] + es2) =~= t0.push(e) + es2);
                    },
                }
            }
            pos = pos + 3 + tlu;
            parsed = parsed + 1;
        }
        proof {
            assert(parse_entries(self@.skip(pos as int), 0)
                == Some((Seq::<(u8, Seq<bool>)>::empty(), 0nat)));
            assert(tview(table@) + Seq::<(u8, Seq<bool>)>::empty() =~= tview(table@));
            assert(parse_entries(self@.skip(7), nt) == Some(
                (tview(table@), (pos - 7) as nat),
            ));
        }
        Some((table, pos))
    }

    /// Decompresses the stream: parses the table, decodes the body bit by
    /// bit, and accepts leftover bits only as zero padding. A stream that
    /// does not begin with the magic bytes, ends inside the header,
    /// declares an impossible entry shape, or leaves non-padding bits
    /// behind is rejected as a format error.
    pub fn decompress(&self) -> (r: Result<Vec<u8>, CodecError>)
        ensures
            match r {
                Ok(v) => spec_decompress(self@) == Ok::<Seq<u8>, CodecError>(v@),
                Err(e) => spec_decompress(self@) == Err::<Seq<u8>, CodecError>(e),
            },
    {
        match self.parse_table() {
            None => Err(CodecError::FormatError),
            Some((table, used)) => {
                let bits = bytes_to_bits(&self.data, used);
                let (out, acc) = unpack_input(&table, &bits);
                if acc.len() < 8 && all_zero(&acc) {
                    proof {
                        assert(is_padding(acc@));
                    }
                    Ok(out)
                } else {
                    proof {
                        assert(!is_padding(acc@));
                    }
                    Err(CodecError::FormatError)
                }
            },
        }
    }
}

} // verus!
