//! The random-access decoder: reads the serialized dictionary once at
//! construction, then decodes any byte-aligned window of the payload by
//! seeking to its bit offset.

use crate::bits::{byte_of_bits, stream_bits, BitReader};
use crate::huffman::{
    clone_bytes, first_match, read_char, Code, CodesToChars, HuffmanError, parsed_entries,
};
use vstd::prelude::*;

verus! {

/// The serialized dictionary at the head of a bit string, in the
/// two-byte-count form used by the random-access decoder: a 16-bit entry
/// count (low byte first), then three bytes per entry.
pub open spec fn parse_dict16(bits: Seq<bool>, pos: int) -> Option<(Seq<(Code, u8)>, int)> {
    if pos + 16 > bits.len() {
        None
    } else {
        let cnt = byte_of_bits(bits.subrange(pos, pos + 8)) + 256 * byte_of_bits(
            bits.subrange(pos + 8, pos + 16),
        );
        if pos + 16 + 24 * cnt > bits.len() {
            None
        } else {
            Some((parsed_entries(bits, pos + 16, cnt as nat), pos + 16 + 24 * cnt))
        }
    }
}

/// The first `n` symbols decoded from a bit string, or `None` if the bits
/// run out before `n` codes are matched.
pub open spec fn spec_decode_n(w: Seq<bool>, es: Seq<(Code, u8)>, n: nat) -> Option<Seq<u8>>
    decreases n,
{
    if n == 0 {
        Some(Seq::empty())
    } else {
        match first_match(w, es, 1) {
            None => None,
            Some((ch, l)) => {
                if 1 <= l <= w.len() {
                    match spec_decode_n(w.skip(l), es, (n - 1) as nat) {
                        Some(rest) => Some(seq![ch] + rest),
                        None => None,
                    }
                } else {
                    None
                }
            },
        }
    }
}

/// If the bits end before `off` more bits, the two-byte-count dictionary
/// does not parse.
proof fn lemma_parse_dict16_short(bits: Seq<bool>, cnt: int, off: int)
    requires
        16 <= bits.len(),
        cnt == byte_of_bits(bits.subrange(0, 8)) + 256 * byte_of_bits(bits.subrange(8, 16)),
        off <= 16 + 24 * (cnt - 1) + 16,
        off + 8 > bits.len(),
    ensures
        parse_dict16(bits, 0) is None,
{
}

/// Decodes byte-aligned windows of one compressed stream after a single
/// header read.
pub struct HuffmanDecoder {
    source: Vec<u8>,
    input: BitReader,
    code_to_char: CodesToChars,
}

impl HuffmanDecoder {
    /// The bit string being decoded.
    pub closed spec fn bits(&self) -> Seq<bool> {
        self.input.bits()
    }

    /// The current bit cursor.
    pub closed spec fn pos(&self) -> int {
        self.input.pos()
    }

    /// The dictionary read from the header.
    pub closed spec fn dict(&self) -> Seq<(Code, u8)> {
        self.code_to_char.entries@
    }

    /// The compressed bytes the decoder was built over.
    pub closed spec fn source_bytes(&self) -> Seq<u8> {
        self.source@
    }

    /// The cursor stays inside the bit string.
    pub closed spec fn wf(&self) -> bool {
        self.input.wf()
    }

    /// Reads the two-byte-count dictionary header from the start of the
    /// given compressed bytes; fails atomically on a truncated header.
    pub fn new(input: Vec<u8>) -> (r: Result<HuffmanDecoder, HuffmanError>)
        requires
            input@.len() < usize::MAX / 8,
        ensures
            match parse_dict16(stream_bits(input@), 0) {
                Some((es, p2)) => (r matches Ok(d) && d.wf() && d.bits() == stream_bits(input@)
                    && d.dict() == es && d.pos() == p2 && d.source_bytes() == input@),
                None => r == Err::<HuffmanDecoder, HuffmanError>(HuffmanError::InvalidInput),
            },
    {
        let ghost input0 = input@;
        let source = clone_bytes(&input);
        let mut reader = BitReader::from_bytes(input);
        let ghost bits = reader.bits();
        proof {
            reader.lemma_bits_len_bound();
        }
        let cnt = match reader.read_u16() {
            Some(v) => v,
            None => {
                return Err(HuffmanError::InvalidInput);
            },
        };
        let mut entries: Vec<(Code, u8)> = Vec::new();
        let mut k: usize = 0;
        let len = cnt as usize;
        while k < len
            invariant
                reader.wf(),
                reader.bits() == bits,
                bits == stream_bits(input0),
                input0 == input@,
                16 <= bits.len(),
                len == byte_of_bits(bits.subrange(0, 8)) + 256 * byte_of_bits(
                    bits.subrange(8, 16),
                ),
                0 <= k <= len,
                reader.pos() == 16 + 24 * k,
                entries@.len() == k,
                forall|q: int|
                    0 <= q < k ==> #[trigger] entries@[q] == parsed_entries(bits, 16, len as nat)[q],
            decreases len - k,
        {
            let code_length = match reader.read_byte() {
                Some(b) => b,
                None => {
                    proof {
                        lemma_parse_dict16_short(bits, len as int, 16 + 24 * (k as int) + 0);
                    }
                    return Err(HuffmanError::InvalidInput);
                },
            };
            let code_data = match reader.read_byte() {
                Some(b) => b,
                None => {
                    proof {
                        lemma_parse_dict16_short(bits, len as int, 16 + 24 * (k as int) + 8);
                    }
                    return Err(HuffmanError::InvalidInput);
                },
            };
            let ch = match reader.read_byte() {
                Some(b) => b,
                None => {
                    proof {
                        lemma_parse_dict16_short(bits, len as int, 16 + 24 * (k as int) + 16);
                    }
                    return Err(HuffmanError::InvalidInput);
                },
            };
            proof {
                crate::bits::lemma_byte_of_bits_roundtrip(
                    code_length,
                    bits.subrange(16 + 24 * k, 16 + 24 * k + 8),
                );
                crate::bits::lemma_byte_of_bits_roundtrip(
                    code_data,
                    bits.subrange(16 + 24 * k + 8, 16 + 24 * k + 16),
                );
                crate::bits::lemma_byte_of_bits_roundtrip(
                    ch,
                    bits.subrange(16 + 24 * k + 16, 16 + 24 * k + 24),
                );
            }
            entries.push((Code { length: code_length, data: code_data }, ch));
            k = k + 1;
        }
        proof {
            assert(entries@ =~= parsed_entries(bits, 16, len as nat));
            reader.lemma_bits_len_bound();
            assert(16 + 24 * (len as int) <= bits.len());
            assert(parse_dict16(bits, 0) == Some(
                (parsed_entries(bits, 16, len as nat), 16 + 24 * (len as int)),
            ));
        }
        Ok(HuffmanDecoder { source, input: reader, code_to_char: CodesToChars { entries } })
    }

    /// Seeks to `offset_bit` and decodes `original_length_bits / 8` whole
    /// bytes into the output; gives back eight times that count. Fails
    /// without writing when the offset lies past the stream; when the bits
    /// run out mid-window it fails with a truncated-stream error, the
    /// symbols decoded before the cut already appended to the output.
    pub fn decode(&mut self, output: &mut Vec<u8>, offset_bit: u64, original_length_bits: u64) -> (r:
        Result<u64, HuffmanError>)
        requires
            old(self).wf(),
            original_length_bits / 8 <= usize::MAX as u64,
        ensures
            final(self).wf(),
            final(self).bits() == old(self).bits(),
            final(self).dict() == old(self).dict(),
            final(self).source_bytes() == old(self).source_bytes(),
            original_length_bits == 0 ==> r == Ok::<u64, HuffmanError>(0) && final(output)@
                == old(output)@ && final(self).pos() == old(self).pos(),
            original_length_bits > 0 && offset_bit > old(self).bits().len() ==> r == Err::<
                u64,
                HuffmanError,
            >(HuffmanError::Truncated) && final(output)@ == old(output)@,
            original_length_bits > 0 && offset_bit <= old(self).bits().len() ==> (match
                spec_decode_n(
                old(self).bits().skip(offset_bit as int),
                old(self).dict(),
                (original_length_bits / 8) as nat,
            ) {
                Some(s) => (r == Ok::<u64, HuffmanError>(((8 * (original_length_bits / 8)) as u64))
                    && final(output)@ == old(output)@ + s),
                None => (r == Err::<u64, HuffmanError>(HuffmanError::Truncated) && final(output)@
                    == old(output)@ + crate::huffman::spec_decode(
                    old(self).bits().skip(offset_bit as int),
                    old(self).dict(),
                )),
            }),
    {
        if original_length_bits == 0 {
            return Ok(0);
        }
        let original_length_bytes = original_length_bits / 8;
        if self.input.set_position(offset_bit).is_err() {
            return Err(HuffmanError::Truncated);
        }
        let ghost bits = self.input.bits();
        let ghost es = self.code_to_char.entries@;
        let ghost w0 = bits.skip(offset_bit as int);
        let ghost out0 = output@;
        let mut read_bytes: u64 = 0;
        proof {
            assert(out0 + Seq::<u8>::empty() =~= out0);
            assert(bits.skip(self.input.pos()) =~= w0);
            assert(crate::huffman::spec_decode(w0, es).take(0) =~= Seq::<u8>::empty());
            assert(crate::huffman::spec_decode(w0, es).skip(0) =~= crate::huffman::spec_decode(
                w0,
                es,
            ));
        }
        let ghost mut decoded: Seq<u8> = Seq::empty();
        while read_bytes < original_length_bytes
            invariant
                self.input.wf(),
                self.input.bits() == bits,
                bits == old(self).bits(),
                es == self.code_to_char.entries@,
                es == old(self).dict(),
                self.source@ == old(self).source_bytes(),
                w0 == bits.skip(offset_bit as int),
                offset_bit <= bits.len(),
                0 <= read_bytes <= original_length_bytes,
                original_length_bytes == original_length_bits / 8,
                original_length_bytes <= usize::MAX as u64,
                out0 == old(output)@,
                output@ == out0 + decoded,
                decoded.len() == read_bytes,
                read_bytes <= crate::huffman::spec_decode(w0, es).len(),
                decoded == crate::huffman::spec_decode(w0, es).take(read_bytes as int),
                crate::huffman::spec_decode(bits.skip(self.input.pos()), es)
                    == crate::huffman::spec_decode(w0, es).skip(read_bytes as int),
                match spec_decode_n(w0, es, original_length_bytes as nat) {
                    Some(s) => (spec_decode_n(
                        bits.skip(self.input.pos()),
                        es,
                        (original_length_bytes - read_bytes) as nat,
                    ) matches Some(s2) && s == decoded + s2),
                    None => spec_decode_n(
                        bits.skip(self.input.pos()),
                        es,
                        (original_length_bytes - read_bytes) as nat,
                    ) is None,
                },
            decreases original_length_bytes - read_bytes,
        {
            let ghost pos_before = self.input.pos();
            let ghost w_cur = bits.skip(pos_before);
            let ghost n_left = (original_length_bytes - read_bytes) as nat;
            proof {
                self.input.lemma_bits_len_bound();
            }
            let next = read_char(&mut self.input, &self.code_to_char);
            match next {
                Some(ch) => {
                    proof {
                        let fm = first_match(w_cur, es, 1);
                        crate::huffman::lemma_first_match_bounds2(w_cur, es, 1);
                        let l = fm.unwrap().1;
                        assert(fm == Some((ch, l)));
                        let inner = spec_decode_n(w_cur.skip(l), es, (n_left - 1) as nat);
                        assert(spec_decode_n(w_cur, es, n_left) == (match inner {
                            Some(rest) => Some(seq![ch] + rest),
                            None => None::<Seq<u8>>,
                        }));
                        assert(w_cur.skip(l) =~= bits.skip(pos_before + l));
                        assert(inner == spec_decode_n(
                            bits.skip(pos_before + l),
                            es,
                            (n_left - 1) as nat,
                        ));
                        match inner {
                            Some(rest) => {
                                assert(decoded + (seq![ch] + rest) =~= (decoded + seq![ch]) + rest);
                            },
                            None => {},
                        }
                        assert(decoded + seq![ch] =~= decoded.push(ch));
                        assert(crate::huffman::spec_decode(w_cur, es) == seq![ch]
                            + crate::huffman::spec_decode(bits.skip(pos_before + l), es));
                        crate::huffman::lemma_decode_skip_step(
                            crate::huffman::spec_decode(w0, es),
                            read_bytes as int,
                            ch,
                            crate::huffman::spec_decode(bits.skip(pos_before + l), es),
                        );
                        decoded = decoded.push(ch);
                    }
                    output.push(ch);
                    read_bytes = read_bytes + 1;
                },
                None => {
                    proof {
                        assert(first_match(w_cur, es, 1) is None);
                        assert(spec_decode_n(w_cur, es, n_left) is None);
                        assert(crate::huffman::spec_decode(w_cur, es) =~= Seq::<u8>::empty());
                        assert(crate::huffman::spec_decode(w0, es).skip(read_bytes as int)
                            =~= Seq::<u8>::empty());
                        assert(crate::huffman::spec_decode(w0, es).take(read_bytes as int)
                            =~= crate::huffman::spec_decode(w0, es));
                    }
                    return Err(HuffmanError::Truncated);
                },
            }
        }
        proof {
            assert(spec_decode_n(bits.skip(self.input.pos()), es, 0) == Some(Seq::<u8>::empty()));
            match spec_decode_n(w0, es, original_length_bytes as nat) {
                Some(s) => {
                    assert(decoded + Seq::<u8>::empty() =~= decoded);
                    assert(s == decoded);
                },
                None => {},
            }
        }
        let read_bits = read_bytes * 8;
        Ok(read_bits)
    }

    /// A handle on the compressed bytes the decoder was built over, for
    /// composition with an index over the payload.
    pub fn get_input_mut(&mut self) -> (r: &mut Vec<u8>)
        ensures
            (*r)@ == old(self).source_bytes(),
            final(self).source_bytes() == (*final(r))@,
            final(self).bits() == old(self).bits(),
            final(self).pos() == old(self).pos(),
            final(self).dict() == old(self).dict(),
            final(self).wf() == old(self).wf(),
    {
        &mut self.source
    }

    /// A handle on the bit reader over the compressed stream.
    pub fn get_reader_mut(&mut self) -> (r: &mut BitReader)
        ensures
            r.bits() == old(self).bits(),
            r.pos() == old(self).pos(),
            r.wf() == old(self).wf(),
            final(self).bits() == final(r).bits(),
            final(self).pos() == final(r).pos(),
            final(self).wf() == final(r).wf(),
            final(self).dict() == old(self).dict(),
            final(self).source_bytes() == old(self).source_bytes(),
    {
        &mut self.input
    }
}

/// Idempotent header read: the two-byte-count dictionary parses to one
/// code table only, so two decoders built over the same bytes hold the
/// same byte-to-code mappings.
pub proof fn lemma_header_read_idempotent(
    bits: Seq<bool>,
    es1: Seq<(Code, u8)>,
    p1: int,
    es2: Seq<(Code, u8)>,
    p2: int,
)
    requires
        parse_dict16(bits, 0) == Some((es1, p1)),
        parse_dict16(bits, 0) == Some((es2, p2)),
    ensures
        es1 == es2,
        p1 == p2,
{
}

} // verus!
