//! The labelled reference vectors and their raw binary file.
//!
//! Layout of the file, all integers little-endian: the nine magic bytes
//! `rinha2026`; the number `n` of vectors (`u32`); the dimension (`u32`,
//! always 14); `n` vectors of 14 `f32` each; `n` label bytes, non-zero for
//! fraud. A vector is held here as the bit patterns of its 14 `f32`.

use vstd::prelude::*;
use vstd::bytes::*;
use crate::wire::{
    lemma_rows_word_at, lemma_row_at_words, lemma_rows_bytes, le_u32_at, push_rows, push_u32, read_bool, read_row, read_u32, row_at, rows_bytes, starts_with, FormatError,
    DIM,
};

verus! {

/// Magic bytes that open a raw data file: `rinha2026`.
pub const RAW_MAGIC: [u8; 9] = [0x72, 0x69, 0x6e, 0x68, 0x61, 0x32, 0x30, 0x32, 0x36];

/// Size of the raw header: magic, count, dimension.
pub const RAW_HEADER_LEN: usize = 17;

/// The reference vectors (each as the bit patterns of 14 `f32`) and, for
/// each, whether it is a fraud.
#[derive(Debug)]
pub struct VectorsData {
    pub vectors: Vec<[u32; 14]>,
    pub labels: Vec<bool>,
}

/// Number of vectors that the header of `b` announces.
pub open spec fn raw_count(b: Seq<u8>) -> int {
    le_u32_at(b, 9) as int
}

/// Why `b` is not a well-formed raw data file, checked in reading order;
/// `None` when it is one. Bytes after the labels are ignored.
pub open spec fn raw_check(b: Seq<u8>) -> Option<FormatError> {
    if b.len() < 9 {
        Some(FormatError::Truncated)
    } else if b.subrange(0, 9) != RAW_MAGIC@ {
        Some(FormatError::BadMagic)
    } else if b.len() < RAW_HEADER_LEN {
        Some(FormatError::Truncated)
    } else if le_u32_at(b, 13) != DIM {
        Some(FormatError::BadDimension)
    } else if b.len() < RAW_HEADER_LEN + 57 * raw_count(b) {
        Some(FormatError::Truncated)
    } else {
        None
    }
}

/// `d` holds what the well-formed file `b` holds: vector `i` is the row at
/// `17 + 56 i`, label `i` is the `i`-th byte after the vectors, non-zero
/// meaning fraud.
pub open spec fn holds_raw(d: VectorsData, b: Seq<u8>) -> bool {
    let n = raw_count(b);
    &&& d.vectors@.len() == n
    &&& d.labels@.len() == n
    &&& forall|i: int| 0 <= i < n ==> (#[trigger] d.vectors@[i])@ == row_at(b, RAW_HEADER_LEN + 56 * i)
    &&& forall|i: int| 0 <= i < n ==> #[trigger] d.labels@[i] == (b[RAW_HEADER_LEN + 56 * n + i] != 0)
}

/// The raw file of `vectors` and `labels`: header (the count truncated to
/// 32 bits), the vectors, then the label bytes as given.
pub open spec fn raw_encoding(vectors: Seq<[u32; 14]>, labels: Seq<u8>) -> Seq<u8> {
    RAW_MAGIC@ + spec_u32_to_le_bytes(vectors.len() as u32) + spec_u32_to_le_bytes(DIM as u32)
        + rows_bytes(vectors) + labels
}

impl VectorsData {
    /// Why `bytes` is not a well-formed raw data file, or `None` when it is
    /// one; a reader checks this first and stops on a fault.
    pub fn check(bytes: &[u8]) -> (res: Option<FormatError>)
        ensures
            res == raw_check(bytes@),
    {
        if bytes.len() < 9 {
            return Some(FormatError::Truncated);
        }
        if !starts_with(bytes, &RAW_MAGIC) {
            return Some(FormatError::BadMagic);
        }
        if bytes.len() < 17 {
            return Some(FormatError::Truncated);
        }
        let mut pos: usize = 9;
        let n: u32 = read_u32(bytes, &mut pos);
        let dim: u32 = read_u32(bytes, &mut pos);
        if dim != 14 {
            return Some(FormatError::BadDimension);
        }
        if (bytes.len() as u64) < 17 + 57 * (n as u64) {
            return Some(FormatError::Truncated);
        }
        None
    }

    /// Reads a well-formed raw data file.
    pub fn from_bytes(bytes: &[u8]) -> (d: VectorsData)
        requires
            raw_check(bytes@) is None,
        ensures
            holds_raw(d, bytes@),
    {
        let mut pos: usize = 9;
        let n: u32 = read_u32(bytes, &mut pos);
        let _dim: u32 = read_u32(bytes, &mut pos);
        let ghost b = bytes@;
        let mut vectors: Vec<[u32; 14]> = Vec::new();
        let mut i: u32 = 0;
        while i < n
            invariant
                b == bytes@,
                raw_count(b) == n,
                RAW_HEADER_LEN + 57 * n <= b.len(),
                i <= n,
                pos == RAW_HEADER_LEN + 56 * i,
                vectors@.len() == i,
                forall|t: int| 0 <= t < i ==> (#[trigger] vectors@[t])@ == row_at(b, RAW_HEADER_LEN + 56 * t),
            decreases n - i,
        {
            let row = read_row(bytes, &mut pos);
            vectors.push(row);
            i = i + 1;
        }
        let mut labels: Vec<bool> = Vec::new();
        let mut i: u32 = 0;
        while i < n
            invariant
                b == bytes@,
                raw_count(b) == n,
                RAW_HEADER_LEN + 57 * n <= b.len(),
                i <= n,
                pos == RAW_HEADER_LEN + 56 * n + i,
                labels@.len() == i,
                forall|t: int| 0 <= t < i ==> #[trigger] labels@[t] == (b[RAW_HEADER_LEN + 56 * n + t] != 0),
            decreases n - i,
        {
            let flag = read_bool(bytes, &mut pos);
            labels.push(flag.unwrap());
            i = i + 1;
        }
        VectorsData { vectors, labels }
    }
}

/// The raw data file of `vectors` and `labels` (label bytes written as
/// given; the count is truncated to 32 bits as the header holds).
pub fn encode_vectors_data(vectors: &Vec<[u32; 14]>, labels: &Vec<u8>) -> (out: Vec<u8>)
    ensures
        out@ == raw_encoding(vectors@, labels@),
{
    let mut out: Vec<u8> = Vec::new();
    let mut i: usize = 0;
    while i < 9
        invariant
            i <= 9,
            out@ == RAW_MAGIC@.take(i as int),
        decreases 9 - i,
    {
        out.push(RAW_MAGIC[i]);
        proof {
            assert(out@ =~= RAW_MAGIC@.take(i + 1));
        }
        i = i + 1;
    }
    assert(RAW_MAGIC@.take(9) =~= RAW_MAGIC@);
    #[verifier::truncate]
    let n: u32 = vectors.len() as u32;
    push_u32(&mut out, n);
    push_u32(&mut out, 14);
    push_rows(&mut out, vectors);
    let mut copy = labels.clone();
    out.append(&mut copy);
    assert(out@ =~= raw_encoding(vectors@, labels@));
    out
}

/// What the raw data file written from `vectors` and `labels` (of one
/// count that fits in 32 bits) reads back as: it is well-formed, and whatever
/// it decodes to holds exactly those vectors and, for each label byte,
/// whether it is non-zero.
pub proof fn lemma_raw_roundtrip(vectors: Seq<[u32; 14]>, labels: Seq<u8>, d: VectorsData)
    requires
        vectors.len() == labels.len(),
        vectors.len() <= u32::MAX,
    ensures
        raw_check(raw_encoding(vectors, labels)) is None,
        holds_raw(d, raw_encoding(vectors, labels)) ==> d.vectors@ == vectors && d.labels@
            == labels.map_values(|x: u8| x != 0),
{
    let b = raw_encoding(vectors, labels);
    let n = vectors.len();
    lemma_auto_spec_u32_to_from_le_bytes();
    lemma_rows_bytes(vectors);
    let head = RAW_MAGIC@ + spec_u32_to_le_bytes(n as u32);
    let head2 = head + spec_u32_to_le_bytes(DIM as u32);
    let body = head2 + rows_bytes(vectors);
    assert(b.subrange(0, 9) =~= RAW_MAGIC@);
    assert(b.subrange(9, 13) =~= spec_u32_to_le_bytes(n as u32));
    assert(b.subrange(13, 17) =~= spec_u32_to_le_bytes(DIM as u32));
    assert(raw_count(b) == n);
    assert(b.len() == RAW_HEADER_LEN + 57 * n);
    if holds_raw(d, b) {
        assert forall|i: int| 0 <= i < n implies #[trigger] d.vectors@[i] == vectors[i] by {
            assert(b.subrange(RAW_HEADER_LEN + 56 * i, RAW_HEADER_LEN + 56 * i + 56)
                =~= rows_bytes(vectors).subrange(56 * i, 56 * i + 56));
            lemma_row_at_words(b, RAW_HEADER_LEN + 56 * i, vectors[i]);
            assert(d.vectors@[i]@ =~= vectors[i]@);
        }
        assert(d.vectors@ =~= vectors);
        assert forall|i: int| 0 <= i < n implies #[trigger] d.labels@[i] == (labels[i] != 0) by {
            assert(b[RAW_HEADER_LEN + 56 * n + i] == labels[i]);
        }
        assert(d.labels@ =~= labels.map_values(|x: u8| x != 0));
    }
}

/// A raw data file is well-formed exactly when it opens with the bytes
/// `rinha2026`, declares dimension 14 (the little-endian word at byte 13),
/// and is long enough for its header, `n` vectors and `n` labels, where `n`
/// is the little-endian word at byte 9.
pub proof fn lemma_raw_check_meaning(b: Seq<u8>)
    ensures
        raw_check(b) is None <==> {
            &&& b.len() >= 17
            &&& b[0] == 0x72u8 && b[1] == 0x69u8 && b[2] == 0x6eu8 && b[3] == 0x68u8 && b[4] == 0x61u8
            &&& b[5] == 0x32u8 && b[6] == 0x30u8 && b[7] == 0x32u8 && b[8] == 0x36u8
            &&& spec_u32_from_le_bytes(b.subrange(13, 17)) == 14
            &&& b.len() >= 17 + 57 * spec_u32_from_le_bytes(b.subrange(9, 13))
        },
{
    if b.len() >= 9 {
        let magic = seq![0x72u8, 0x69u8, 0x6eu8, 0x68u8, 0x61u8, 0x32u8, 0x30u8, 0x32u8, 0x36u8];
        assert(RAW_MAGIC@ =~= magic);
        let head = b.subrange(0, 9);
        if head == magic {
            assert(b[0] == head[0] && b[1] == head[1] && b[2] == head[2] && b[3] == head[3]);
            assert(b[4] == head[4] && b[5] == head[5] && b[6] == head[6] && b[7] == head[7] && b[8] == head[8]);
        } else if b[0] == 0x72u8 && b[1] == 0x69u8 && b[2] == 0x6eu8 && b[3] == 0x68u8 && b[4] == 0x61u8
            && b[5] == 0x32u8 && b[6] == 0x30u8 && b[7] == 0x32u8 && b[8] == 0x36u8 {
            assert(head =~= magic);
        }
    }
}

/// What reading a raw data file gives: with `n` the little-endian word at
/// byte 9, there are `n` vectors and `n` labels; word `j` of vector `i` is
/// the word at byte `17 + 56 i + 4 j`, and label `i` is whether the byte at
/// `17 + 56 n + i` is non-zero.
pub proof fn lemma_raw_reader_layout(d: VectorsData, b: Seq<u8>)
    requires
        holds_raw(d, b),
    ensures
        ({
            let n = spec_u32_from_le_bytes(b.subrange(9, 13)) as int;
            &&& d.vectors@.len() == n
            &&& d.labels@.len() == n
            &&& forall|i: int, j: int|
                0 <= i < n && 0 <= j < 14 ==> #[trigger] d.vectors@[i][j] == spec_u32_from_le_bytes(
                    b.subrange(17 + 56 * i + 4 * j, 17 + 56 * i + 4 * j + 4),
                )
            &&& forall|i: int| 0 <= i < n ==> #[trigger] d.labels@[i] == (b[17 + 56 * n + i] != 0)
        }),
{
    let n = raw_count(b);
    assert forall|i: int, j: int| 0 <= i < n && 0 <= j < 14 implies #[trigger] d.vectors@[i][j]
        == spec_u32_from_le_bytes(b.subrange(17 + 56 * i + 4 * j, 17 + 56 * i + 4 * j + 4)) by {
        assert(d.vectors@[i]@ == row_at(b, RAW_HEADER_LEN + 56 * i));
        assert(row_at(b, RAW_HEADER_LEN + 56 * i)[j] == le_u32_at(b, 17 + 56 * i + 4 * j));
    }
}

/// The raw data file written for `vectors` and `labels`, byte by byte: the
/// bytes `rinha2026`; the count (truncated to 32 bits) and 14 as
/// little-endian words; word `j` of vector `i` at byte `17 + 56 i + 4 j`;
/// label byte `i` at `17 + 56 n + i`; nothing after.
pub proof fn lemma_raw_writer_layout(vectors: Seq<[u32; 14]>, labels: Seq<u8>)
    ensures
        ({
            let b = raw_encoding(vectors, labels);
            let n = vectors.len() as int;
            &&& b.len() == 17 + 56 * n + labels.len()
            &&& b[0] == 0x72u8 && b[1] == 0x69u8 && b[2] == 0x6eu8 && b[3] == 0x68u8 && b[4] == 0x61u8
            &&& b[5] == 0x32u8 && b[6] == 0x30u8 && b[7] == 0x32u8 && b[8] == 0x36u8
            &&& b.subrange(9, 13) == spec_u32_to_le_bytes(vectors.len() as u32)
            &&& b.subrange(13, 17) == spec_u32_to_le_bytes(14u32)
            &&& forall|i: int, j: int|
                0 <= i < n && 0 <= j < 14 ==> b.subrange(17 + 56 * i + 4 * j, 17 + 56 * i + 4 * j + 4)
                    == spec_u32_to_le_bytes(#[trigger] vectors[i][j])
            &&& forall|i: int| 0 <= i < labels.len() ==> b[17 + 56 * n + i] == #[trigger] labels[i]
        }),
{
    let b = raw_encoding(vectors, labels);
    let n = vectors.len() as int;
    let head = RAW_MAGIC@ + spec_u32_to_le_bytes(vectors.len() as u32) + spec_u32_to_le_bytes(DIM as u32);
    let rv = rows_bytes(vectors);
    lemma_auto_spec_u32_to_from_le_bytes();
    lemma_rows_bytes(vectors);
    assert(head.len() == 17);
    assert(b =~= head + rv + labels);
    assert(RAW_MAGIC@ =~= seq![0x72u8, 0x69u8, 0x6eu8, 0x68u8, 0x61u8, 0x32u8, 0x30u8, 0x32u8, 0x36u8]);
    assert(b[0] == RAW_MAGIC@[0] && b[1] == RAW_MAGIC@[1] && b[2] == RAW_MAGIC@[2] && b[3] == RAW_MAGIC@[3]);
    assert(b[4] == RAW_MAGIC@[4] && b[5] == RAW_MAGIC@[5] && b[6] == RAW_MAGIC@[6] && b[7] == RAW_MAGIC@[7]);
    assert(b[8] == RAW_MAGIC@[8]);
    assert(b.subrange(9, 13) =~= spec_u32_to_le_bytes(vectors.len() as u32));
    assert(b.subrange(13, 17) =~= spec_u32_to_le_bytes(14u32));
    assert forall|i: int, j: int| 0 <= i < n && 0 <= j < 14 implies b.subrange(17 + 56 * i + 4 * j, 17 + 56 * i + 4 * j + 4)
        == spec_u32_to_le_bytes(#[trigger] vectors[i][j]) by {
        lemma_rows_word_at(vectors, i, j);
        assert(b.subrange(17 + 56 * i + 4 * j, 17 + 56 * i + 4 * j + 4) =~= rv.subrange(56 * i + 4 * j, 56 * i + 4 * j + 4));
    }
    assert forall|i: int| 0 <= i < labels.len() implies b[17 + 56 * n + i] == #[trigger] labels[i] by {
        assert(b[17 + 56 * n + i] == labels[i]);
    }
}

} // verus!
