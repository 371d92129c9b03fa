use vstd::prelude::*;

use crate::adaptive_dictionary::{occ, AdaptiveDictionary};
use crate::errors::FormatError;
use crate::huffman;
use crate::huffman::HuffmanNode;
use crate::preprocessor;
use crate::preprocessor::Preprocessor;

verus! {

/// A 32-bit value as four big-endian bytes.
pub open spec fn be32(x: u32) -> Seq<u8> {
    seq![
        ((x >> 24) & 0xFF) as u8,
        ((x >> 16) & 0xFF) as u8,
        ((x >> 8) & 0xFF) as u8,
        (x & 0xFF) as u8,
    ]
}

pub open spec fn from_be32(b0: u8, b1: u8, b2: u8, b3: u8) -> u32 {
    ((b0 as u32) << 24) | ((b1 as u32) << 16) | ((b2 as u32) << 8) | (b3 as u32)
}

pub proof fn lemma_be32_round_trip(x: u32)
    ensures
        from_be32(be32(x)[0], be32(x)[1], be32(x)[2], be32(x)[3]) == x,
{
    assert(

        ((((x >> 24) & 0xFF) as u8 as u32) << 24) | ((((x >> 16) & 0xFF) as u8 as u32) << 16) | ((((
        x >> 8) & 0xFF) as u8 as u32) << 8) | ((x & 0xFF) as u8 as u32) == x) by (bit_vector);
}

/// The table of 256 zero counts.
pub open spec fn zero_counts() -> Seq<u32> {
    Seq::new(256, |i: int| 0u32)
}

/// The serialized frequency table from byte value `b` on: one record per
/// nonzero count, ascending byte order, each one value byte and four
/// big-endian count bytes.
pub open spec fn spec_ser_freq_from(counts: Seq<u32>, b: int) -> Seq<u8>
    decreases 256 - b,
{
    if b < 0 || b >= 256 {
        Seq::empty()
    } else {
        (if counts[b] > 0 {
            seq![b as u8] + be32(counts[b])
        } else {
            Seq::empty()
        }) + spec_ser_freq_from(counts, b + 1)
    }
}

pub open spec fn spec_ser_freq(counts: Seq<u32>) -> Seq<u8> {
    spec_ser_freq_from(counts, 0)
}

/// Reads five-byte records into the table, later records overwriting
/// earlier ones.
pub open spec fn spec_deser_freq(s: Seq<u8>, acc: Seq<u32>) -> Seq<u32>
    decreases s.len(),
{
    if s.len() < 5 {
        acc
    } else {
        spec_deser_freq(s.skip(5), acc.update(s[0] as int, from_be32(s[1], s[2], s[3], s[4])))
    }
}

/// A serialized frequency table is whole five-byte records; anything else
/// is truncated and malformed.
pub open spec fn spec_deser_freq_checked(s: Seq<u8>) -> Option<Seq<u32>> {
    if s.len() % 5 == 0 {
        Option::Some(spec_deser_freq(s, zero_counts()))
    } else {
        Option::None
    }
}

/// Deserializing a serialized frequency table restores it exactly.
pub proof fn lemma_freq_table_round_trip(counts: Seq<u32>)
    requires
        counts.len() == 256,
    ensures
        spec_deser_freq_checked(spec_ser_freq(counts)) == Option::Some(counts),
{
    lemma_ser_freq_whole_records(counts, 0);
    lemma_freq_round_trip_rec(counts, 0, zero_counts());
    assert(spec_deser_freq(spec_ser_freq(counts), zero_counts()) =~= counts);
}

proof fn lemma_ser_freq_whole_records(counts: Seq<u32>, b: int)
    ensures
        spec_ser_freq_from(counts, b).len() % 5 == 0,
    decreases 256 - b,
{
    if !(b < 0 || b >= 256) {
        lemma_ser_freq_whole_records(counts, b + 1);
    }
}

proof fn lemma_freq_round_trip_rec(counts: Seq<u32>, b: int, acc: Seq<u32>)
    requires
        counts.len() == 256,
        acc.len() == 256,
        0 <= b <= 256,
    ensures
        spec_deser_freq(spec_ser_freq_from(counts, b), acc) =~= Seq::new(
            256,
            |j: int|
                if j >= b && counts[j] > 0 {
                    counts[j]
                } else {
                    acc[j]
                },
        ),
    decreases 256 - b,
{
    if b >= 256 {
    } else if counts[b] > 0 {
        let rec = seq![b as u8] + be32(counts[b]);
        let s = spec_ser_freq_from(counts, b);
        let rest = spec_ser_freq_from(counts, b + 1);
        assert(s == rec + rest);
        assert(s.len() >= 5);
        assert(s[0] == b as u8);
        assert(s[1] == be32(counts[b])[0]);
        assert(s[2] == be32(counts[b])[1]);
        assert(s[3] == be32(counts[b])[2]);
        assert(s[4] == be32(counts[b])[3]);
        lemma_be32_round_trip(counts[b]);
        assert(from_be32(s[1], s[2], s[3], s[4]) == counts[b]);
        assert(s.skip(5) =~= rest);
        let acc1 = acc.update(b, counts[b]);
        lemma_freq_round_trip_rec(counts, b + 1, acc1);
    } else {
        lemma_freq_round_trip_rec(counts, b + 1, acc);
    }
}

/// Writes one record per byte value with a nonzero count, ascending by byte
/// value: the value, then its count big-endian.
pub fn serialize_frequency_table(dictionary: &AdaptiveDictionary) -> (r: Vec<u8>)
    requires
        dictionary.wf(),
    ensures
        r@ == spec_ser_freq(dictionary.counts()),
{
    let ghost counts = dictionary.counts();
    let freqs = dictionary.get_frequencies();
    let mut out: Vec<u8> = Vec::new();
    let mut b: usize = 0;
    proof {
        assert(out@ + spec_ser_freq_from(counts, 0) =~= spec_ser_freq_from(counts, 0));
    }
    while b < 256
        invariant
            freqs@ == counts,
            counts.len() == 256,
            b <= 256,
            spec_ser_freq(counts) == out@ + spec_ser_freq_from(counts, b as int),
        decreases 256 - b,
    {
        let ghost pre = out@;
        let c = freqs[b];
        if c > 0 {
            proof {
                assert((c >> 24) & 0xFF < 256 && (c >> 16) & 0xFF < 256 && (c >> 8) & 0xFF < 256
                    && c & 0xFF < 256) by (bit_vector);
            }
            out.push(b as u8);
            out.push(((c >> 24) & 0xFF) as u8);
            out.push(((c >> 16) & 0xFF) as u8);
            out.push(((c >> 8) & 0xFF) as u8);
            out.push((c & 0xFF) as u8);
            proof {
                assert(out@ =~= pre + (seq![b as u8] + be32(c)));
                assert(pre + ((seq![b as u8] + be32(c)) + spec_ser_freq_from(counts, b + 1)) =~= (
                pre + (seq![b as u8] + be32(c))) + spec_ser_freq_from(counts, b + 1));
            }
        } else {
            proof {
                assert(out@ =~= pre + Seq::<u8>::empty());
            }
        }
        b += 1;
    }
    proof {
        assert(spec_ser_freq_from(counts, 256) =~= Seq::<u8>::empty());
        assert(out@ + Seq::<u8>::empty() =~= out@);
    }
    out
}

/// Reads five-byte records back into a frequency table; a buffer that is
/// not whole records is a truncated table.
pub fn deserialize_frequency_table(serialized: &[u8]) -> (r: Result<
    AdaptiveDictionary,
    FormatError,
>)
    ensures
        r is Ok <==> spec_deser_freq_checked(serialized@) is Some,
        r matches Ok(d) ==> d.wf() && Option::Some(d.counts()) == spec_deser_freq_checked(
            serialized@,
        ),
{
    let mut dictionary = AdaptiveDictionary::new();
    let n = serialized.len();
    if n % 5 != 0 {
        return Err(FormatError);
    }
    let mut i: usize = 0;
    proof {
        assert(dictionary.counts() =~= zero_counts());
        assert(serialized@.skip(0) =~= serialized@);
    }
    while n - i >= 5
        invariant
            dictionary.wf(),
            n == serialized@.len(),
            i <= n,
            spec_deser_freq(serialized@, zero_counts()) == spec_deser_freq(
                serialized@.skip(i as int),
                dictionary.counts(),
            ),
        decreases n - i,
    {
        let byte = serialized[i];
        let b1 = serialized[i + 1];
        let b2 = serialized[i + 2];
        let b3 = serialized[i + 3];
        let b4 = serialized[i + 4];
        proof {
            assert(serialized@.skip(i as int)[0] == byte);
            assert(serialized@.skip(i as int)[1] == b1);
            assert(serialized@.skip(i as int)[2] == b2);
            assert(serialized@.skip(i as int)[3] == b3);
            assert(serialized@.skip(i as int)[4] == b4);
            assert(serialized@.skip(i as int).skip(5) =~= serialized@.skip(i + 5));
        }
        let count = ((b1 as u32) << 24) | ((b2 as u32) << 16) | ((b3 as u32) << 8) | (b4 as u32);
        dictionary.set_count(byte, count);
        i += 1;
        i += 4;
    }
    proof {
        assert(serialized@.skip(i as int).len() < 5);
    }
    Ok(dictionary)
}

/// What compressing a buffer yields: the packed Huffman payload of the
/// preprocessed stream, the serialized frequency table of that stream, and
/// the serialized pattern table. An empty buffer yields three empty parts.
pub open spec fn spec_compress(data: Seq<u8>) -> (Seq<u8>, Seq<u8>, Seq<u8>) {
    if data.len() == 0 {
        (Seq::empty(), Seq::empty(), Seq::empty())
    } else {
        let processed = preprocessor::spec_preprocess(data);
        let counts = huffman::spec_data_counts(processed);
        let t = huffman::the_tree(counts);
        (
            crate::bitpack::spec_pack(huffman::spec_tree_bits(processed, t)),
            spec_ser_freq(counts),
            preprocessor::spec_ser_pat(
                preprocessor::spec_disc_pats(data, preprocessor::spec_max_len(data)),
            ),
        )
    }
}

/// What decompressing yields: the frequency table is read back and its tree
/// rebuilt, the payload decoded against it, the pattern table read back, and
/// the reverse pass applied. `None` marks a malformed artifact; that
/// includes a frequency table whose counts total more than a 32-bit value,
/// which no compressed stream can produce.
pub open spec fn spec_decompress(payload: Seq<u8>, fb: Seq<u8>, pb: Seq<u8>) -> Option<Seq<u8>> {
    if spec_deser_freq_checked(fb) is None {
        Option::None
    } else {
        let counts = spec_deser_freq(fb, zero_counts());
        spec_decompress_with(payload, counts, pb)
    }
}

/// Decompression once the frequency table has been read back.
pub open spec fn spec_decompress_with(payload: Seq<u8>, counts: Seq<u32>, pb: Seq<u8>) -> Option<
    Seq<u8>,
> {
    if huffman::sum_counts(counts) > u32::MAX {
        Option::None
    } else {
        let decoded_opt: Option<Seq<u8>> = match huffman::spec_build_tree(counts) {
            Option::None => if payload.len() == 0 {
                Option::Some(Seq::empty())
            } else {
                Option::None
            },
            Option::Some(t) => huffman::spec_decode(payload, t),
        };
        match decoded_opt {
            Option::None => Option::None,
            Option::Some(decoded) => match preprocessor::spec_deser_pat(pb) {
                Option::None => Option::None,
                Option::Some(pats) => preprocessor::spec_reverse(pats, decoded),
            },
        }
    }
}

/// Each step of the forward pass consumes at least one input byte and
/// emits between one and three bytes.
proof fn lemma_transform_len(
    pats: Seq<Seq<u8>>,
    freqs: Seq<u32>,
    max_len: int,
    data: Seq<u8>,
    i: int,
)
    requires
        0 <= i <= data.len(),
    ensures
        preprocessor::spec_transform(pats, freqs, max_len, data, i).len() <= 3 * (data.len() - i),
        i < data.len() ==> preprocessor::spec_transform(pats, freqs, max_len, data, i).len() >= 1,
    decreases data.len() - i,
{
    if i < data.len() {
        let limit = if max_len <= data.len() - i {
            max_len
        } else {
            data.len() - i
        };
        preprocessor::lemma_find_match_props(pats, data, i, limit);
        match preprocessor::spec_find_match(pats, data, i, limit) {
            Option::Some(m) => {
                lemma_transform_len(pats, freqs, max_len, data, i + m.1);
            },
            Option::None => {
                lemma_transform_len(pats, freqs, max_len, data, i + 1);
            },
        }
    }
}

/// Compresses a buffer: pattern discovery and substitution, a frequency
/// table over the substituted stream, a Huffman tree and codes from it, and
/// the bit-packed payload. Returns the payload, the serialized frequency
/// table and the serialized pattern table; the same buffer always yields
/// the same three parts.
pub fn compress(data: &[u8]) -> (r: (Vec<u8>, Vec<u8>, Vec<u8>))
    requires
        data@.len() <= preprocessor::MAX_INPUT_LEN,
    ensures
        (r.0@, r.1@, r.2@) == spec_compress(data@),
{
    if data.len() == 0 {
        return (Vec::new(), Vec::new(), Vec::new());
    }
    let mut prep = Preprocessor::new();
    let processed = prep.preprocess(data);
    proof {
        lemma_transform_len(prep.pats(), prep.freqs(), prep.max_pattern_length as int, data@, 0);
        assert(1 <= processed@.len() <= 3 * data@.len());
    }
    let mut dictionary = AdaptiveDictionary::new();
    dictionary.update(processed.as_slice());
    proof {
        assert forall|i: int| 0 <= i < 256 implies dictionary.counts()[i]
            == huffman::spec_data_counts(processed@)[i] by {
            let v = i as u8;
            assert(dictionary.counts()[v as int] == 0 + occ(processed@, v));
        }
        assert(dictionary.counts() =~= huffman::spec_data_counts(processed@));
        huffman::lemma_sum_data_counts(processed@);
        huffman::lemma_huffman_round_trip(processed@);
    }
    let ghost counts = huffman::spec_data_counts(processed@);
    let tree: Box<HuffmanNode> = match huffman::build_huffman_tree_with_dictionary(&dictionary) {
        Some(t) => t,
        None => {
            proof {
                assert(false);
            }
            Box::new(
                HuffmanNode { frequency: 0, value: 0, left: Option::None, right: Option::None },
            )
        },
    };
    proof {
        assert(*tree == huffman::the_tree(counts));
        assert(huffman::wf_shape(*tree));
    }
    let mut codes: Vec<Option<Vec<u8>>> = Vec::new();
    let mut z: usize = 0;
    while z < 256
        invariant
            z <= 256,
            codes@.len() == z,
            forall|k: int| 0 <= k < z ==> #[trigger] codes@[k] is None,
        decreases 256 - z,
    {
        codes.push(None);
        z += 1;
    }
    let mut prefix: Vec<u8> = Vec::new();
    huffman::generate_huffman_codes(&tree, &mut prefix, &mut codes);
    proof {
        assert forall|b: u8| #[trigger] huffman::code_entry(codes@, b as int) == huffman::spec_path(
            *tree,
            b,
        ) || huffman::code_entry(codes@, b as int) is None by {
            match huffman::spec_path(*tree, b) {
                Option::Some(p) => {
                    assert(Seq::<u8>::empty() + p =~= p);
                },
                Option::None => {},
            }
        }
        assert(huffman::codes_bits_valid(codes@)) by {
            assert forall|b: int|
                0 <= b < 256 implies match #[trigger] huffman::code_entry(codes@, b) {
                Option::Some(c) => crate::bitpack::bits_valid(c),
                Option::None => true,
            } by {
                huffman::lemma_path_bits_valid(*tree, b as u8);
                assert(huffman::code_entry(codes@, (b as u8) as int) == huffman::spec_path(
                    *tree,
                    b as u8,
                ) || huffman::code_entry(codes@, (b as u8) as int) is None);
            }
        }
    }
    let payload = huffman::huffman_encode(processed.as_slice(), &codes);
    proof {
        assert forall|b: u8| processed@.contains(b) implies #[trigger] huffman::code_entry(
            codes@,
            b as int,
        ) == huffman::spec_path(*tree, b) by {
            assert(huffman::spec_path(*tree, b) is Some);
            match huffman::spec_path(*tree, b) {
                Option::Some(p) => {
                    assert(Seq::<u8>::empty() + p =~= p);
                },
                Option::None => {},
            }
        }
        huffman::lemma_bits_of_eq_tree_bits(processed@, codes@, *tree);
    }
    let frequency_table = serialize_frequency_table(&dictionary);
    let serialized_dictionary = prep.serialize_dictionary();
    (payload, frequency_table, serialized_dictionary)
}

/// Decompresses the three parts of a compressed artifact, failing on any
/// malformed table, payload or stream.
pub fn decompress(encoded_data: &[u8], frequency_table: &[u8], serialized_dictionary: &[u8]) -> (r:
    Result<Vec<u8>, FormatError>)
    ensures
        r is Ok <==> spec_decompress(encoded_data@, frequency_table@, serialized_dictionary@)
            is Some,
        r matches Ok(v) ==> Option::Some(v@) == spec_decompress(
            encoded_data@,
            frequency_table@,
            serialized_dictionary@,
        ),
{
    let dictionary = match deserialize_frequency_table(frequency_table) {
        Ok(d) => d,
        Err(e) => {
            return Err(e);
        },
    };
    let ghost counts = dictionary.counts();
    let freqs = dictionary.get_frequencies();
    let mut total: u64 = 0;
    let mut b: usize = 0;
    while b < 256
        invariant
            freqs@ == counts,
            counts.len() == 256,
            b <= 256,
            total as int == huffman::sum_counts_upto(counts, b as int),
            total as int <= (b as int) * 0xFFFF_FFFF,
        decreases 256 - b,
    {
        let c = freqs[b];
        proof {
            assert(total + c <= (b as int + 1) * 0xFFFF_FFFF) by (nonlinear_arith)
                requires
                    total as int <= (b as int) * 0xFFFF_FFFF,
                    c <= 0xFFFF_FFFFu32,
            ;
            assert((b as int + 1) * 0xFFFF_FFFF <= 256 * 0xFFFF_FFFF) by (nonlinear_arith)
                requires
                    0 <= (b as int) < 256,
            ;
        }
        total = total + (c as u64);
        b += 1;
    }
    if total > 0xFFFF_FFFF {
        return Err(FormatError);
    }
    let decoded: Vec<u8> = match huffman::build_huffman_tree_with_dictionary(&dictionary) {
        None => {
            if encoded_data.len() > 0 {
                return Err(FormatError);
            }
            Vec::new()
        },
        Some(t) => {
            match huffman::huffman_decode(encoded_data, &t) {
                Ok(v) => v,
                Err(e) => {
                    return Err(e);
                },
            }
        },
    };
    let mut prep = Preprocessor::new();
    match prep.deserialize_dictionary(serialized_dictionary) {
        Ok(u) => u,
        Err(e) => {
            return Err(e);
        },
    };
    prep.reverse_transform_data(decoded.as_slice())
}

proof fn lemma_sum_zero(b: int)
    requires
        0 <= b <= 256,
    ensures
        huffman::sum_counts_upto(zero_counts(), b) == 0,
    decreases b,
{
    if b > 0 {
        lemma_sum_zero(b - 1);
    }
}

proof fn lemma_leaves_zero(b: int)
    requires
        0 <= b <= 256,
    ensures
        huffman::spec_leaves_upto(zero_counts(), b) == Seq::<HuffmanNode>::empty(),
    decreases b,
{
    if b > 0 {
        lemma_leaves_zero(b - 1);
    }
}

/// Round trip: decompressing the three parts that `compress` yields
/// restores the buffer, for every byte buffer the pipeline accepts.
pub proof fn lemma_compress_decompress(data: Seq<u8>)
    requires
        data.len() <= preprocessor::MAX_INPUT_LEN,
    ensures
        spec_decompress(spec_compress(data).0, spec_compress(data).1, spec_compress(data).2)
            == Option::Some(data),
{
    if data.len() == 0 {
        let counts = spec_deser_freq(Seq::empty(), zero_counts());
        assert(counts == zero_counts());
        lemma_sum_zero(256);
        lemma_leaves_zero(256);
        assert(huffman::spec_build_tree(counts) is None);
        assert(preprocessor::spec_deser_pat(Seq::empty()) == Option::Some(
            Seq::<Seq<u8>>::empty(),
        ));
        assert(preprocessor::spec_reverse(Seq::<Seq<u8>>::empty(), Seq::<u8>::empty())
            == Option::Some(Seq::<u8>::empty()));
        assert(data =~= Seq::<u8>::empty());
    } else {
        let maxl = preprocessor::spec_max_len(data);
        let pats = preprocessor::spec_disc_pats(data, maxl);
        let pfreqs = preprocessor::spec_disc_freqs(data, maxl);
        let processed = preprocessor::spec_preprocess(data);
        let counts = huffman::spec_data_counts(processed);
        lemma_transform_len(pats, pfreqs, maxl, data, 0);
        assert(1 <= processed.len() <= 3 * data.len());
        lemma_freq_table_round_trip(counts);
        assert(spec_deser_freq(spec_compress(data).1, zero_counts()) == counts);
        huffman::lemma_sum_data_counts(processed);
        assert(huffman::sum_counts(counts) <= u32::MAX);
        huffman::lemma_huffman_round_trip(processed);
        assert(huffman::spec_decode(spec_compress(data).0, huffman::the_tree(counts))
            == Option::Some(processed));
        preprocessor::lemma_disc_pats_wf(data, maxl);
        preprocessor::lemma_pat_table_round_trip(pats);
        assert(preprocessor::spec_deser_pat(spec_compress(data).2) == Option::Some(pats));
        preprocessor::lemma_reverse_preprocess(pats, pfreqs, maxl, data, 0);
        assert(data.skip(0) =~= data);
        assert(preprocessor::spec_reverse(pats, processed) == Option::Some(data));
    }
}

/// The container layout: the frequency table and pattern table each behind
/// a four-byte big-endian length, then the payload to the end.
pub open spec fn spec_container(payload: Seq<u8>, fb: Seq<u8>, pb: Seq<u8>) -> Seq<u8> {
    be32(fb.len() as u32) + fb + be32(pb.len() as u32) + pb + payload
}

/// Splits a container back into its three parts; `None` when a length
/// prefix runs past the end of the buffer.
pub open spec fn spec_parse_container(s: Seq<u8>) -> Option<(Seq<u8>, Seq<u8>, Seq<u8>)> {
    if s.len() < 4 {
        Option::None
    } else {
        let fl = from_be32(s[0], s[1], s[2], s[3]) as int;
        if 4 + fl + 4 > s.len() {
            Option::None
        } else {
            let fb = s.subrange(4, 4 + fl);
            let pl = from_be32(s[4 + fl], s[5 + fl], s[6 + fl], s[7 + fl]) as int;
            if 8 + fl + pl > s.len() {
                Option::None
            } else {
                Option::Some(
                    (
                        s.skip(8 + fl + pl),
                        fb,
                        s.subrange(8 + fl, 8 + fl + pl),
                    ),
                )
            }
        }
    }
}

/// Parsing a written container returns its three parts unchanged.
pub proof fn lemma_container_round_trip(payload: Seq<u8>, fb: Seq<u8>, pb: Seq<u8>)
    requires
        fb.len() <= u32::MAX,
        pb.len() <= u32::MAX,
    ensures
        spec_parse_container(spec_container(payload, fb, pb)) == Option::Some(
            (payload, fb, pb),
        ),
{
    let s = spec_container(payload, fb, pb);
    let fl = fb.len() as int;
    let pl = pb.len() as int;
    lemma_be32_round_trip(fb.len() as u32);
    lemma_be32_round_trip(pb.len() as u32);
    assert(s[0] == be32(fb.len() as u32)[0]);
    assert(s[1] == be32(fb.len() as u32)[1]);
    assert(s[2] == be32(fb.len() as u32)[2]);
    assert(s[3] == be32(fb.len() as u32)[3]);
    assert(from_be32(s[0], s[1], s[2], s[3]) == fb.len() as u32);
    assert(s[4 + fl] == be32(pb.len() as u32)[0]);
    assert(s[5 + fl] == be32(pb.len() as u32)[1]);
    assert(s[6 + fl] == be32(pb.len() as u32)[2]);
    assert(s[7 + fl] == be32(pb.len() as u32)[3]);
    assert(from_be32(s[4 + fl], s[5 + fl], s[6 + fl], s[7 + fl]) == pb.len() as u32);
    assert(s.subrange(4, 4 + fl) =~= fb);
    assert(s.subrange(8 + fl, 8 + fl + pl) =~= pb);
    assert(s.skip(8 + fl + pl) =~= payload);
}

/// Joins the three parts of a compressed artifact into one container.
pub fn write_container(payload: &Vec<u8>, fb: &Vec<u8>, pb: &Vec<u8>) -> (r: Vec<u8>)
    requires
        fb@.len() <= u32::MAX,
        pb@.len() <= u32::MAX,
    ensures
        r@ == spec_container(payload@, fb@, pb@),
{
    let mut out: Vec<u8> = Vec::new();
    push_be32(&mut out, fb.len() as u32);
    crate::preprocessor::push_all(&mut out, fb);
    push_be32(&mut out, pb.len() as u32);
    crate::preprocessor::push_all(&mut out, pb);
    crate::preprocessor::push_all(&mut out, payload);
    proof {
        assert(out@ =~= spec_container(payload@, fb@, pb@));
    }
    out
}

fn push_be32(out: &mut Vec<u8>, x: u32)
    ensures
        final(out)@ == old(out)@ + be32(x),
{
    proof {
        assert((x >> 24) & 0xFF < 256 && (x >> 16) & 0xFF < 256 && (x >> 8) & 0xFF < 256 && x
            & 0xFF < 256) by (bit_vector);
    }
    out.push(((x >> 24) & 0xFF) as u8);
    out.push(((x >> 16) & 0xFF) as u8);
    out.push(((x >> 8) & 0xFF) as u8);
    out.push((x & 0xFF) as u8);
    proof {
        assert(out@ =~= old(out)@ + be32(x));
    }
}

/// Splits a container into its payload, frequency table and pattern table.
pub fn read_container(data: &[u8]) -> (r: Result<(Vec<u8>, Vec<u8>, Vec<u8>), FormatError>)
    ensures
        r is Ok <==> spec_parse_container(data@) is Some,
        r matches Ok(v) ==> Option::Some((v.0@, v.1@, v.2@)) == spec_parse_container(data@),
{
    let n = data.len();
    if n < 4 {
        return Err(FormatError);
    }
    let fl32 = read_be32(data, 0);
    proof {
        assert(fl32 == from_be32(data@[0], data@[1], data@[2], data@[3]));
    }
    let fl = fl32 as usize;
    if n < 8 || fl > n - 8 {
        return Err(FormatError);
    }
    let fb = crate::preprocessor::copy_range(data, 4, 4 + fl);
    let pl32 = read_be32(data, 4 + fl);
    let pl = pl32 as usize;
    if pl > n - 8 - fl {
        return Err(FormatError);
    }
    let pb = crate::preprocessor::copy_range(data, 8 + fl, 8 + fl + pl);
    let payload = crate::preprocessor::copy_range(data, 8 + fl + pl, n);
    proof {
        assert(payload@ =~= data@.skip(8 + fl + pl));
    }
    Ok((payload, fb, pb))
}

fn read_be32(data: &[u8], i: usize) -> (r: u32)
    requires
        i + 4 <= data@.len(),
    ensures
        r == from_be32(data@[i as int], data@[i + 1], data@[i + 2], data@[i + 3]),
{
    ((data[i] as u32) << 24) | ((data[i + 1] as u32) << 16) | ((data[i + 2] as u32) << 8) | (data[i
        + 3] as u32)
}

} // verus!
