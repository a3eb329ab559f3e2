//! The IVF index file.
//!
//! Layout, all integers little-endian: the four magic bytes `rivf`; the
//! number `n` of vectors, the number `k` of clusters and the dimension (always
//! 14), each a `u32`; `k` centroids of 14 `f32`; `k + 1` cluster offsets
//! (`u32`); the `n` vectors, grouped by cluster, of 14 `f32`; `n` label
//! bytes. Cluster `c` holds the vectors from offset `c` up to offset `c + 1`.
//! The file is stored gzip-compressed.

use vstd::prelude::*;
use vstd::bytes::*;
use crate::gz::{gunzip, gunzip_result, gzip_best, gzip_best_result};
use crate::wire::{
    lemma_rows_word_at, lemma_words_word_at, lemma_row_at_words, lemma_rows_bytes, lemma_words_bytes, le_u32_at, push_rows, push_u32, push_words,
    read_row, read_u32, row_at, rows_bytes, starts_with, words_bytes, FormatError, DIM,
};

verus! {

/// Magic bytes that open an index file: `rivf`.
pub const INDEX_MAGIC: [u8; 4] = [0x72, 0x69, 0x76, 0x66];

/// Size of the index header: magic, vector count, cluster count, dimension.
pub const INDEX_HEADER_LEN: usize = 16;

/// The contents of an index file: centroids and vectors as the bit patterns
/// of their `f32`, cluster offsets, and a label byte per vector.
#[derive(Debug)]
pub struct IndexImage {
    pub centroids: Vec<[u32; 14]>,
    pub offsets: Vec<u32>,
    pub vectors: Vec<[u32; 14]>,
    pub labels: Vec<u8>,
}

impl IndexImage {
    /// Counts agree: one more offset than centroids, a label per vector,
    /// and both counts fit the 32-bit header fields.
    pub open spec fn wf(&self) -> bool {
        &&& self.offsets@.len() == self.centroids@.len() + 1
        &&& self.labels@.len() == self.vectors@.len()
        &&& self.vectors@.len() <= u32::MAX
        &&& self.centroids@.len() <= u32::MAX
    }

    /// Same contents as `other`.
    pub open spec fn same_as(&self, other: &IndexImage) -> bool {
        &&& self.centroids@ == other.centroids@
        &&& self.offsets@ == other.offsets@
        &&& self.vectors@ == other.vectors@
        &&& self.labels@ == other.labels@
    }
}

/// Number of vectors that the header of `b` announces.
pub open spec fn index_vector_count(b: Seq<u8>) -> int {
    le_u32_at(b, 4) as int
}

/// Number of clusters that the header of `b` announces.
pub open spec fn index_cluster_count(b: Seq<u8>) -> int {
    le_u32_at(b, 8) as int
}

/// Where the offsets start.
pub open spec fn offsets_at(k: int) -> int {
    INDEX_HEADER_LEN + 56 * k
}

/// Where the vectors start.
pub open spec fn vectors_at(k: int) -> int {
    INDEX_HEADER_LEN + 60 * k + 4
}

/// Where the labels start.
pub open spec fn labels_at(k: int, n: int) -> int {
    INDEX_HEADER_LEN + 60 * k + 4 + 56 * n
}

/// Why `b` is not a well-formed index file, checked in reading order;
/// `None` when it is one. Bytes after the labels are ignored.
pub open spec fn index_check(b: Seq<u8>) -> Option<FormatError> {
    if b.len() < 4 {
        Some(FormatError::Truncated)
    } else if b.subrange(0, 4) != INDEX_MAGIC@ {
        Some(FormatError::BadMagic)
    } else if b.len() < INDEX_HEADER_LEN {
        Some(FormatError::Truncated)
    } else if le_u32_at(b, 12) != DIM {
        Some(FormatError::BadDimension)
    } else if b.len() < labels_at(index_cluster_count(b), index_vector_count(b)) + index_vector_count(b) {
        Some(FormatError::Truncated)
    } else {
        None
    }
}

/// `img` holds what the well-formed index file `b` holds.
pub open spec fn holds_index(img: IndexImage, b: Seq<u8>) -> bool {
    let n = index_vector_count(b);
    let k = index_cluster_count(b);
    &&& img.centroids@.len() == k
    &&& img.offsets@.len() == k + 1
    &&& img.vectors@.len() == n
    &&& img.labels@.len() == n
    &&& forall|c: int| 0 <= c < k ==> (#[trigger] img.centroids@[c])@ == row_at(b, INDEX_HEADER_LEN + 56 * c)
    &&& forall|c: int| 0 <= c <= k ==> #[trigger] img.offsets@[c] == le_u32_at(b, offsets_at(k) + 4 * c)
    &&& forall|i: int| 0 <= i < n ==> (#[trigger] img.vectors@[i])@ == row_at(b, vectors_at(k) + 56 * i)
    &&& forall|i: int| 0 <= i < n ==> #[trigger] img.labels@[i] == b[labels_at(k, n) + i]
}

/// The index file of a well-formed image.
pub open spec fn index_encoding(img: IndexImage) -> Seq<u8> {
    INDEX_MAGIC@ + spec_u32_to_le_bytes(img.vectors@.len() as u32) + spec_u32_to_le_bytes(
        img.centroids@.len() as u32,
    ) + spec_u32_to_le_bytes(DIM as u32) + rows_bytes(img.centroids@) + words_bytes(img.offsets@)
        + rows_bytes(img.vectors@) + img.labels@
}

impl IndexImage {
    /// Why `bytes` is not a well-formed (uncompressed) index file, or `None`
    /// when it is one; a reader checks this first and stops on a fault.
    pub fn check(bytes: &[u8]) -> (res: Option<FormatError>)
        ensures
            res == index_check(bytes@),
    {
        if bytes.len() < 4 {
            return Some(FormatError::Truncated);
        }
        if !starts_with(bytes, &INDEX_MAGIC) {
            return Some(FormatError::BadMagic);
        }
        if bytes.len() < 16 {
            return Some(FormatError::Truncated);
        }
        let mut pos: usize = 4;
        let n: u32 = read_u32(bytes, &mut pos);
        let k: u32 = read_u32(bytes, &mut pos);
        let dim: u32 = read_u32(bytes, &mut pos);
        if dim != 14 {
            return Some(FormatError::BadDimension);
        }
        if (bytes.len() as u64) < 20 + 60 * (k as u64) + 57 * (n as u64) {
            return Some(FormatError::Truncated);
        }
        None
    }

    /// Reads a well-formed (uncompressed) index file.
    pub fn from_bytes(bytes: &[u8]) -> (img: IndexImage)
        requires
            index_check(bytes@) is None,
        ensures
            holds_index(img, bytes@),
    {
        let mut pos: usize = 4;
        let n: u32 = read_u32(bytes, &mut pos);
        let k: u32 = read_u32(bytes, &mut pos);
        let _dim: u32 = read_u32(bytes, &mut pos);
        let ghost b = bytes@;
        let mut centroids: Vec<[u32; 14]> = Vec::new();
        let mut c: u32 = 0;
        while c < k
            invariant
                b == bytes@,
                index_vector_count(b) == n,
                index_cluster_count(b) == k,
                labels_at(k as int, n as int) + n <= b.len(),
                c <= k,
                pos == INDEX_HEADER_LEN + 56 * c,
                centroids@.len() == c,
                forall|t: int| 0 <= t < c ==> (#[trigger] centroids@[t])@ == row_at(b, INDEX_HEADER_LEN + 56 * t),
            decreases k - c,
        {
            let row = read_row(bytes, &mut pos);
            centroids.push(row);
            c = c + 1;
        }
        let mut offsets: Vec<u32> = Vec::new();
        let mut c: u64 = 0;
        while c <= k as u64
            invariant
                b == bytes@,
                index_vector_count(b) == n,
                index_cluster_count(b) == k,
                labels_at(k as int, n as int) + n <= b.len(),
                c <= k + 1,
                pos == offsets_at(k as int) + 4 * c,
                offsets@.len() == c,
                forall|t: int| 0 <= t < c ==> #[trigger] offsets@[t] == le_u32_at(b, offsets_at(k as int) + 4 * t),
            decreases k + 1 - c,
        {
            offsets.push(read_u32(bytes, &mut pos));
            c = c + 1;
        }
        let mut vectors: Vec<[u32; 14]> = Vec::new();
        let mut i: u32 = 0;
        while i < n
            invariant
                b == bytes@,
                index_vector_count(b) == n,
                index_cluster_count(b) == k,
                labels_at(k as int, n as int) + n <= b.len(),
                i <= n,
                pos == vectors_at(k as int) + 56 * i,
                vectors@.len() == i,
                forall|t: int| 0 <= t < i ==> (#[trigger] vectors@[t])@ == row_at(b, vectors_at(k as int) + 56 * t),
            decreases n - i,
        {
            let row = read_row(bytes, &mut pos);
            vectors.push(row);
            i = i + 1;
        }
        let mut labels: Vec<u8> = Vec::new();
        let mut i: u32 = 0;
        while i < n
            invariant
                b == bytes@,
                index_vector_count(b) == n,
                index_cluster_count(b) == k,
                labels_at(k as int, n as int) + n <= b.len(),
                i <= n,
                pos == labels_at(k as int, n as int) + i,
                labels@.len() == i,
                forall|t: int| 0 <= t < i ==> #[trigger] labels@[t] == b[labels_at(k as int, n as int) + t],
            decreases n - i,
        {
            labels.push(bytes[pos]);
            pos = pos + 1;
            i = i + 1;
        }
        IndexImage { centroids, offsets, vectors, labels }
    }

    /// Writes the (uncompressed) index file of the image.
    pub fn to_bytes(&self) -> (out: Vec<u8>)
        requires
            self.wf(),
        ensures
            out@ == index_encoding(*self),
    {
        let mut out: Vec<u8> = Vec::new();
        let mut i: usize = 0;
        while i < 4
            invariant
                i <= 4,
                out@ == INDEX_MAGIC@.take(i as int),
            decreases 4 - i,
        {
            out.push(INDEX_MAGIC[i]);
            proof {
                assert(out@ =~= INDEX_MAGIC@.take(i + 1));
            }
            i = i + 1;
        }
        assert(INDEX_MAGIC@.take(4) =~= INDEX_MAGIC@);
        push_u32(&mut out, self.vectors.len() as u32);
        push_u32(&mut out, self.centroids.len() as u32);
        push_u32(&mut out, 14);
        push_rows(&mut out, &self.centroids);
        push_words(&mut out, &self.offsets);
        push_rows(&mut out, &self.vectors);
        let mut copy = self.labels.clone();
        out.append(&mut copy);
        assert(out@ =~= index_encoding(*self));
        out
    }

    /// Decompresses a gzip-compressed index file; `None` where the bytes are
    /// not a gzip stream that decodes to its end.
    pub fn decompress(compressed: &[u8]) -> (res: Option<Vec<u8>>)
        ensures
            match res {
                Some(raw) => gunzip_result(compressed@) == Some(raw@),
                None => gunzip_result(compressed@) is None,
            },
    {
        gunzip(compressed)
    }

    /// The gzip-compressed index file of the image, at the best compression
    /// level.
    pub fn compress(&self) -> (out: Vec<u8>)
        requires
            self.wf(),
        ensures
            out@ == gzip_best_result(index_encoding(*self)),
            gunzip_result(out@) == Some(index_encoding(*self)),
    {
        let raw = self.to_bytes();
        gzip_best(raw.as_slice())
    }
}

/// What the index file written from a well-formed image reads back as: it
/// is well-formed, and whatever it decodes to has the image's contents.
pub proof fn lemma_index_roundtrip(img: IndexImage, back: IndexImage)
    requires
        img.wf(),
    ensures
        index_check(index_encoding(img)) is None,
        holds_index(back, index_encoding(img)) ==> back.same_as(&img),
{
    let b = index_encoding(img);
    let n = img.vectors@.len() as int;
    let k = img.centroids@.len() as int;
    lemma_auto_spec_u32_to_from_le_bytes();
    lemma_rows_bytes(img.centroids@);
    lemma_rows_bytes(img.vectors@);
    lemma_words_bytes(img.offsets@);
    assert(b.subrange(0, 4) =~= INDEX_MAGIC@);
    assert(b.subrange(4, 8) =~= spec_u32_to_le_bytes(n as u32));
    assert(b.subrange(8, 12) =~= spec_u32_to_le_bytes(k as u32));
    assert(b.subrange(12, 16) =~= spec_u32_to_le_bytes(DIM as u32));
    assert(index_vector_count(b) == n);
    assert(index_cluster_count(b) == k);
    assert(b.len() == labels_at(k, n) + n);
    if holds_index(back, b) {
        assert forall|c: int| 0 <= c < k implies #[trigger] back.centroids@[c] == img.centroids@[c] by {
            assert(b.subrange(INDEX_HEADER_LEN + 56 * c, INDEX_HEADER_LEN + 56 * c + 56)
                =~= rows_bytes(img.centroids@).subrange(56 * c, 56 * c + 56));
            lemma_row_at_words(b, INDEX_HEADER_LEN + 56 * c, img.centroids@[c]);
            assert(back.centroids@[c]@ =~= img.centroids@[c]@);
        }
        assert(back.centroids@ =~= img.centroids@);
        assert forall|c: int| 0 <= c <= k implies #[trigger] back.offsets@[c] == img.offsets@[c] by {
            assert(b.subrange(offsets_at(k) + 4 * c, offsets_at(k) + 4 * c + 4)
                =~= words_bytes(img.offsets@).subrange(4 * c, 4 * c + 4));
            assert(le_u32_at(words_bytes(img.offsets@), 4 * c) == img.offsets@[c]);
        }
        assert(back.offsets@ =~= img.offsets@);
        assert forall|i: int| 0 <= i < n implies #[trigger] back.vectors@[i] == img.vectors@[i] by {
            assert(b.subrange(vectors_at(k) + 56 * i, vectors_at(k) + 56 * i + 56)
                =~= rows_bytes(img.vectors@).subrange(56 * i, 56 * i + 56));
            lemma_row_at_words(b, vectors_at(k) + 56 * i, img.vectors@[i]);
            assert(back.vectors@[i]@ =~= img.vectors@[i]@);
        }
        assert(back.vectors@ =~= img.vectors@);
        assert forall|i: int| 0 <= i < n implies #[trigger] back.labels@[i] == img.labels@[i] by {
            assert(b[labels_at(k, n) + i] == img.labels@[i]);
        }
        assert(back.labels@ =~= img.labels@);
    }
}

/// Bytes that decompress to the file of a well-formed image (as `compress`
/// writes them) decompress to a well-formed index file, and reading it gives
/// back that image.
pub proof fn lemma_compressed_roundtrip(img: IndexImage, compressed: Seq<u8>, back: IndexImage)
    requires
        img.wf(),
        gunzip_result(compressed) == Some(index_encoding(img)),
    ensures
        index_check(gunzip_result(compressed).unwrap()) is None,
        holds_index(back, gunzip_result(compressed).unwrap()) ==> back.same_as(&img),
{
    lemma_index_roundtrip(img, back);
}

/// An index file is well-formed exactly when it opens with the bytes
/// `rivf`, declares dimension 14, and is long enough for its header, `k`
/// centroids, `k + 1` offsets, `n` vectors and `n` labels, where `n` and `k`
/// are the little-endian words at bytes 4 and 8.
pub proof fn lemma_index_check_meaning(b: Seq<u8>)
    ensures
        index_check(b) is None <==> {
            &&& b.len() >= 16
            &&& b[0] == 0x72u8 && b[1] == 0x69u8 && b[2] == 0x76u8 && b[3] == 0x66u8
            &&& spec_u32_from_le_bytes(b.subrange(12, 16)) == 14
            &&& b.len() >= 20 + 60 * spec_u32_from_le_bytes(b.subrange(8, 12)) + 57
                * spec_u32_from_le_bytes(b.subrange(4, 8))
        },
{
    if b.len() >= 4 {
        let magic = seq![0x72u8, 0x69u8, 0x76u8, 0x66u8];
        assert(INDEX_MAGIC@ =~= magic);
        if b[0] == 0x72u8 && b[1] == 0x69u8 && b[2] == 0x76u8 && b[3] == 0x66u8 {
            assert(b.subrange(0, 4) =~= magic);
        } else {
            assert(b.subrange(0, 4) != magic) by {
                if b.subrange(0, 4) == magic {
                    assert(b[0] == b.subrange(0, 4)[0] && b[1] == b.subrange(0, 4)[1]);
                    assert(b[2] == b.subrange(0, 4)[2] && b[3] == b.subrange(0, 4)[3]);
                }
            }
        }
    }
}

/// What reading an index file gives: with `n` and `k` the little-endian
/// words at bytes 4 and 8, there are `k` centroids, `k + 1` offsets, `n`
/// vectors and `n` labels; word `j` of centroid `c` is the word at byte
/// `16 + 56 c + 4 j`, offset `c` the word at `16 + 56 k + 4 c`, word `j` of
/// vector `i` the word at `20 + 60 k + 56 i + 4 j`, and label `i` the byte at
/// `20 + 60 k + 56 n + i`.
pub proof fn lemma_index_reader_layout(img: IndexImage, b: Seq<u8>)
    requires
        holds_index(img, b),
    ensures
        ({
            let n = spec_u32_from_le_bytes(b.subrange(4, 8)) as int;
            let k = spec_u32_from_le_bytes(b.subrange(8, 12)) as int;
            &&& img.centroids@.len() == k
            &&& img.offsets@.len() == k + 1
            &&& img.vectors@.len() == n
            &&& img.labels@.len() == n
            &&& forall|c: int, j: int|
                0 <= c < k && 0 <= j < 14 ==> #[trigger] img.centroids@[c][j] == spec_u32_from_le_bytes(
                    b.subrange(16 + 56 * c + 4 * j, 16 + 56 * c + 4 * j + 4),
                )
            &&& forall|c: int|
                0 <= c <= k ==> #[trigger] img.offsets@[c] == spec_u32_from_le_bytes(
                    b.subrange(16 + 56 * k + 4 * c, 16 + 56 * k + 4 * c + 4),
                )
            &&& forall|i: int, j: int|
                0 <= i < n && 0 <= j < 14 ==> #[trigger] img.vectors@[i][j] == spec_u32_from_le_bytes(
                    b.subrange(20 + 60 * k + 56 * i + 4 * j, 20 + 60 * k + 56 * i + 4 * j + 4),
                )
            &&& forall|i: int| 0 <= i < n ==> #[trigger] img.labels@[i] == b[20 + 60 * k + 56 * n + i]
        }),
{
    let n = index_vector_count(b);
    let k = index_cluster_count(b);
    assert forall|c: int, j: int| 0 <= c < k && 0 <= j < 14 implies #[trigger] img.centroids@[c][j]
        == spec_u32_from_le_bytes(b.subrange(16 + 56 * c + 4 * j, 16 + 56 * c + 4 * j + 4)) by {
        assert(img.centroids@[c]@ == row_at(b, INDEX_HEADER_LEN + 56 * c));
        assert(row_at(b, INDEX_HEADER_LEN + 56 * c)[j] == le_u32_at(b, 16 + 56 * c + 4 * j));
    }
    assert forall|i: int, j: int| 0 <= i < n && 0 <= j < 14 implies #[trigger] img.vectors@[i][j]
        == spec_u32_from_le_bytes(b.subrange(20 + 60 * k + 56 * i + 4 * j, 20 + 60 * k + 56 * i + 4 * j + 4)) by {
        assert(img.vectors@[i]@ == row_at(b, vectors_at(k) + 56 * i));
        assert(row_at(b, vectors_at(k) + 56 * i)[j] == le_u32_at(b, 20 + 60 * k + 56 * i + 4 * j));
    }
}

/// The index file written for a well-formed image, byte by byte: the bytes
/// `rivf`; the number `n` of vectors, the number `k` of centroids and 14, as
/// little-endian words; word `j` of centroid `c` at byte `16 + 56 c + 4 j`;
/// offset `c` at `16 + 56 k + 4 c`; word `j` of vector `i` at
/// `20 + 60 k + 56 i + 4 j`; label `i` at `20 + 60 k + 56 n + i`; nothing
/// after.
pub proof fn lemma_index_writer_layout(img: IndexImage)
    requires
        img.wf(),
    ensures
        ({
            let b = index_encoding(img);
            let n = img.vectors@.len() as int;
            let k = img.centroids@.len() as int;
            &&& b.len() == 20 + 60 * k + 57 * n
            &&& b[0] == 0x72u8 && b[1] == 0x69u8 && b[2] == 0x76u8 && b[3] == 0x66u8
            &&& b.subrange(4, 8) == spec_u32_to_le_bytes(n as u32)
            &&& b.subrange(8, 12) == spec_u32_to_le_bytes(k as u32)
            &&& b.subrange(12, 16) == spec_u32_to_le_bytes(14u32)
            &&& forall|c: int, j: int|
                0 <= c < k && 0 <= j < 14 ==> b.subrange(16 + 56 * c + 4 * j, 16 + 56 * c + 4 * j + 4)
                    == spec_u32_to_le_bytes(#[trigger] img.centroids@[c][j])
            &&& forall|c: int|
                0 <= c <= k ==> b.subrange(16 + 56 * k + 4 * c, 16 + 56 * k + 4 * c + 4)
                    == spec_u32_to_le_bytes(#[trigger] img.offsets@[c])
            &&& forall|i: int, j: int|
                0 <= i < n && 0 <= j < 14 ==> b.subrange(20 + 60 * k + 56 * i + 4 * j, 20 + 60 * k + 56 * i + 4 * j + 4)
                    == spec_u32_to_le_bytes(#[trigger] img.vectors@[i][j])
            &&& forall|i: int| 0 <= i < n ==> b[20 + 60 * k + 56 * n + i] == #[trigger] img.labels@[i]
        }),
{
    let b = index_encoding(img);
    let n = img.vectors@.len() as int;
    let k = img.centroids@.len() as int;
    let head = INDEX_MAGIC@ + spec_u32_to_le_bytes(n as u32) + spec_u32_to_le_bytes(k as u32)
        + spec_u32_to_le_bytes(DIM as u32);
    let rc = rows_bytes(img.centroids@);
    let wo = words_bytes(img.offsets@);
    let rv = rows_bytes(img.vectors@);
    lemma_auto_spec_u32_to_from_le_bytes();
    lemma_rows_bytes(img.centroids@);
    lemma_rows_bytes(img.vectors@);
    lemma_words_bytes(img.offsets@);
    assert(head.len() == 16);
    assert(b =~= head + rc + wo + rv + img.labels@);
    assert(INDEX_MAGIC@ =~= seq![0x72u8, 0x69u8, 0x76u8, 0x66u8]);
    assert(b[0] == INDEX_MAGIC@[0] && b[1] == INDEX_MAGIC@[1] && b[2] == INDEX_MAGIC@[2] && b[3] == INDEX_MAGIC@[3]);
    assert(b.subrange(4, 8) =~= spec_u32_to_le_bytes(n as u32));
    assert(b.subrange(8, 12) =~= spec_u32_to_le_bytes(k as u32));
    assert(b.subrange(12, 16) =~= spec_u32_to_le_bytes(14u32));
    assert forall|c: int, j: int| 0 <= c < k && 0 <= j < 14 implies b.subrange(16 + 56 * c + 4 * j, 16 + 56 * c + 4 * j + 4)
        == spec_u32_to_le_bytes(#[trigger] img.centroids@[c][j]) by {
        lemma_rows_word_at(img.centroids@, c, j);
        assert(b.subrange(16 + 56 * c + 4 * j, 16 + 56 * c + 4 * j + 4) =~= rc.subrange(56 * c + 4 * j, 56 * c + 4 * j + 4));
    }
    assert forall|c: int| 0 <= c <= k implies b.subrange(16 + 56 * k + 4 * c, 16 + 56 * k + 4 * c + 4)
        == spec_u32_to_le_bytes(#[trigger] img.offsets@[c]) by {
        lemma_words_word_at(img.offsets@, c);
        assert(b.subrange(16 + 56 * k + 4 * c, 16 + 56 * k + 4 * c + 4) =~= wo.subrange(4 * c, 4 * c + 4));
    }
    assert forall|i: int, j: int| 0 <= i < n && 0 <= j < 14 implies b.subrange(20 + 60 * k + 56 * i + 4 * j, 20 + 60 * k + 56 * i + 4 * j + 4)
        == spec_u32_to_le_bytes(#[trigger] img.vectors@[i][j]) by {
        lemma_rows_word_at(img.vectors@, i, j);
        assert(b.subrange(20 + 60 * k + 56 * i + 4 * j, 20 + 60 * k + 56 * i + 4 * j + 4) =~= rv.subrange(56 * i + 4 * j, 56 * i + 4 * j + 4));
    }
    assert forall|i: int| 0 <= i < n implies b[20 + 60 * k + 56 * n + i] == #[trigger] img.labels@[i] by {
        assert(b[20 + 60 * k + 56 * n + i] == img.labels@[i]);
    }
}

} // verus!
