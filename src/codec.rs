use vstd::prelude::*;
use crate::cigar::CigarOp;
use std::io::Read;
use std::io::Write;

verus! {

/// Little-endian bytes of a 32-bit word.
pub open spec fn le_u32(x: u32) -> Seq<u8> {
    seq![
        (x % 0x100) as u8,
        ((x / 0x100) % 0x100) as u8,
        ((x / 0x1_0000) % 0x100) as u8,
        (x / 0x100_0000) as u8,
    ]
}

/// Little-endian bytes of a 64-bit word.
pub open spec fn le_u64(x: u64) -> Seq<u8> {
    le_u32((x % 0x1_0000_0000) as u32) + le_u32((x / 0x1_0000_0000) as u32)
}

pub open spec fn le_words(v: Seq<u32>) -> Seq<u8>
    decreases v.len(),
{
    if v.len() == 0 { Seq::empty() } else { le_u32(v[0]) + le_words(v.drop_first()) }
}

/// bincode's fixed-width encoding of a list of 32-bit words: a 64-bit
/// little-endian count, then each word little-endian.
pub open spec fn words_encoding(v: Seq<u32>) -> Seq<u8> {
    le_u64(v.len() as u64) + le_words(v)
}

/// What bincode decodes from a byte string as a list of 32-bit words.
pub uninterp spec fn words_decoded(b: Seq<u8>) -> Option<Seq<u32>>;

/// What an XZ decoder reads back from a byte string, if it is a valid stream.
pub uninterp spec fn xz_decompressed(blob: Seq<u8>) -> Option<Seq<u8>>;

pub open spec fn opt_seq_view(o: Option<Vec<u32>>) -> Option<Seq<u32>> {
    match o {
        Some(v) => Some(v@),
        None => None,
    }
}

pub open spec fn opt_bytes_view(o: Option<Vec<u8>>) -> Option<Seq<u8>> {
    match o {
        Some(v) => Some(v@),
        None => None,
    }
}

/// Relies on bincode::serialize for a slice of `u32` under its default fixed-width
/// little-endian configuration, and on bincode::deserialize reading that encoding
/// back. Serialising a slice of integers into memory does not fail.
#[verifier::external_body]
fn encode_words(v: &[u32]) -> (r: Vec<u8>)
    ensures
        r@ == words_encoding(v@),
        words_decoded(r@) == Some(v@),
{
    bincode::serialize(v).unwrap_or_default()
}

/// Relies on bincode::deserialize into `Vec<u32>`: the outcome depends on the bytes alone.
#[verifier::external_body]
fn decode_words(b: &[u8]) -> (r: Option<Vec<u32>>)
    ensures
        opt_seq_view(r) == words_decoded(b@),
{
    bincode::deserialize::<Vec<u32>>(b).ok()
}

/// Relies on xz2's XzEncoder at level 9 writing into a `Vec`: xz2's XzDecoder
/// reads the input back from the stream. The exact bytes may differ between
/// liblzma builds, so nothing is said of them. Writing
/// into memory fails only when memory runs out, as any allocation does.
#[verifier::external_body]
fn xz_compress(data: &[u8]) -> (r: Vec<u8>)
    ensures
        xz_decompressed(r@) == Some(data@),
{
    let mut encoder = xz2::write::XzEncoder::new(Vec::new(), 9);
    encoder.write_all(data).expect("xz encoder out of memory");
    encoder.finish().expect("xz encoder out of memory")
}

/// Relies on xz2's XzDecoder read to the end: the outcome depends on the bytes alone.
#[verifier::external_body]
fn xz_decompress(blob: &[u8]) -> (r: Option<Vec<u8>>)
    ensures
        opt_bytes_view(r) == xz_decompressed(blob@),
{
    let mut decoder = xz2::read::XzDecoder::new(blob);
    let mut out: Vec<u8> = Vec::new();
    match decoder.read_to_end(&mut out) {
        Ok(_) => Some(out),
        Err(_) => None,
    }
}

pub open spec fn op_words(ops: Seq<CigarOp>) -> Seq<u32> {
    ops.map_values(|op: CigarOp| op.val)
}

pub open spec fn words_ops(v: Seq<u32>) -> Seq<CigarOp> {
    v.map_values(|w: u32| CigarOp { val: w })
}

/// The operations a compressed blob holds, if it decodes.
pub open spec fn blob_ops(blob: Seq<u8>) -> Option<Seq<CigarOp>> {
    match xz_decompressed(blob) {
        Some(d) => match words_decoded(d) {
            Some(v) => Some(words_ops(v)),
            None => None,
        },
        None => None,
    }
}

/// Compresses a run of operations: their packed words, bincode-encoded, then XZ
/// at level 9. Decompressing the blob gives the encoding, and decoding that
/// gives the same operations back.
pub fn compress_cigar(ops: &[CigarOp]) -> (r: Vec<u8>)
    ensures
        xz_decompressed(r@) == Some(words_encoding(op_words(ops@))),
        blob_ops(r@) == Some(ops@),
{
    let mut words: Vec<u32> = Vec::new();
    let mut i: usize = 0;
    while i < ops.len()
        invariant
            0 <= i <= ops.len(),
            words@ =~= op_words(ops@.subrange(0, i as int)),
        decreases ops.len() - i,
    {
        words.push(ops[i].val);
        i = i + 1;
        proof {
            assert(op_words(ops@.subrange(0, i as int)) =~= op_words(ops@.subrange(0, i - 1)).push(
                ops@[i - 1].val,
            ));
        }
    }
    proof {
        assert(ops@.subrange(0, ops@.len() as int) =~= ops@);
        assert(words_ops(op_words(ops@)) =~= ops@);
    }
    let encoded = encode_words(words.as_slice());
    xz_compress(encoded.as_slice())
}

/// Decompresses a blob back into operations; `None` when it is not a valid stream.
pub fn decompress_cigar(blob: &[u8]) -> (r: Option<Vec<CigarOp>>)
    ensures
        match r {
            Some(v) => blob_ops(blob@) == Some(v@),
            None => blob_ops(blob@) is None,
        },
{
    let data = match xz_decompress(blob) {
        Some(d) => d,
        None => {
            return None;
        },
    };
    let words = match decode_words(data.as_slice()) {
        Some(w) => w,
        None => {
            return None;
        },
    };
    let mut ops: Vec<CigarOp> = Vec::new();
    let mut i: usize = 0;
    while i < words.len()
        invariant
            0 <= i <= words.len(),
            ops@ =~= words_ops(words@.subrange(0, i as int)),
        decreases words.len() - i,
    {
        ops.push(CigarOp { val: words[i] });
        i = i + 1;
        proof {
            assert(words_ops(words@.subrange(0, i as int)) =~= words_ops(words@.subrange(0, i - 1)).push(
                CigarOp { val: words@[i - 1] },
            ));
        }
    }
    proof {
        assert(words@.subrange(0, words@.len() as int) =~= words@);
    }
    Some(ops)
}

} // verus!
