//! Little-endian readers over a byte buffer.

use vstd::prelude::*;
use vstd::bytes::*;
use vstd::slice::slice_subrange;

verus! {

/// Why a buffer does not hold a well-formed file.
#[derive(Debug, Clone, Copy, PartialEq, Eq)]
pub enum FormatError {
    /// The buffer ends before the data that its header announces.
    Truncated,
    /// The buffer does not start with the expected magic bytes.
    BadMagic,
    /// The header announces vectors of another dimension than 14.
    BadDimension,
}

/// The `u32` stored little-endian at `off` in `b`.
pub open spec fn le_u32_at(b: Seq<u8>, off: int) -> u32 {
    spec_u32_from_le_bytes(b.subrange(off, off + 4))
}

/// Reads the little-endian `u32` at `*pos` and moves `*pos` past it; the
/// caller makes sure that four bytes are left.
pub fn read_u32(bytes: &[u8], pos: &mut usize) -> (v: u32)
    requires
        *old(pos) + 4 <= bytes@.len(),
    ensures
        v == le_u32_at(bytes@, *old(pos) as int),
        *final(pos) == *old(pos) + 4,
{
    let p: usize = *pos;
    let len: usize = bytes.len();
    assert(p + 4 <= len);
    let word = slice_subrange(bytes, p, p + 4);
    let v: u32 = u32_from_le_bytes(word);
    *pos = p + 4;
    v
}

/// Whether `bytes` starts with `prefix`.
pub fn starts_with(bytes: &[u8], prefix: &[u8]) -> (res: bool)
    ensures
        res == (prefix@.len() <= bytes@.len() && bytes@.subrange(0, prefix@.len() as int) == prefix@),
{
    if prefix.len() > bytes.len() {
        return false;
    }
    let mut i: usize = 0;
    while i < prefix.len()
        invariant
            i <= prefix@.len() <= bytes@.len(),
            forall|t: int| 0 <= t < i ==> bytes@[t] == prefix@[t],
        decreases prefix@.len() - i,
    {
        if bytes[i] != prefix[i] {
            assert(bytes@.subrange(0, prefix@.len() as int)[i as int] != prefix@[i as int]);
            return false;
        }
        i = i + 1;
    }
    assert(bytes@.subrange(0, prefix@.len() as int) =~= prefix@);
    true
}

/// Reads one byte at `*pos` as a flag (any non-zero byte is `true`) and moves
/// `*pos` past it; `None` (and `*pos` unchanged) at the end of the buffer.
pub fn read_bool(bytes: &[u8], pos: &mut usize) -> (res: Option<bool>)
    ensures
        *old(pos) < bytes@.len() ==> res == Some(bytes@[*old(pos) as int] != 0)
            && *final(pos) == *old(pos) + 1,
        *old(pos) >= bytes@.len() ==> res is None && *final(pos) == *old(pos),
{
    let p: usize = *pos;
    if p >= bytes.len() {
        return None;
    }
    let b: u8 = bytes[p];
    *pos = p + 1;
    Some(b != 0)
}


/// Number of `u32` words in a vector of the data set.
pub const DIM: usize = 14;

/// The `DIM` little-endian words stored from `off` on in `b`.
pub open spec fn row_at(b: Seq<u8>, off: int) -> Seq<u32> {
    Seq::new(DIM as nat, |j: int| le_u32_at(b, off + 4 * j))
}

/// Little-endian bytes of a sequence of words, one after the other.
pub open spec fn words_bytes(ws: Seq<u32>) -> Seq<u8>
    decreases ws.len(),
{
    if ws.len() == 0 {
        Seq::empty()
    } else {
        words_bytes(ws.drop_last()) + spec_u32_to_le_bytes(ws.last())
    }
}

/// Bytes of a sequence of rows, each row written as its words.
pub open spec fn rows_bytes(rows: Seq<[u32; 14]>) -> Seq<u8>
    decreases rows.len(),
{
    if rows.len() == 0 {
        Seq::empty()
    } else {
        rows_bytes(rows.drop_last()) + words_bytes(rows.last()@)
    }
}

/// Reads `DIM` little-endian words from `*pos` on.
pub fn read_row(bytes: &[u8], pos: &mut usize) -> (row: [u32; 14])
    requires
        *old(pos) + 56 <= bytes@.len(),
    ensures
        row@ == row_at(bytes@, *old(pos) as int),
        *final(pos) == *old(pos) + 56,
{
    let ghost start = *pos as int;
    let mut row = [0u32; 14];
    let mut j: usize = 0;
    while j < DIM
        invariant
            j <= DIM,
            *pos == start + 4 * j,
            start + 56 <= bytes@.len(),
            forall|t: int| 0 <= t < j ==> row@[t] == #[trigger] le_u32_at(bytes@, start + 4 * t),
        decreases DIM - j,
    {
        row[j] = read_u32(bytes, pos);
        j = j + 1;
    }
    assert(row@ =~= row_at(bytes@, start));
    row
}

/// Appends the little-endian bytes of `v`.
pub fn push_u32(out: &mut Vec<u8>, v: u32)
    ensures
        final(out)@ == old(out)@ + spec_u32_to_le_bytes(v),
{
    let mut bytes = u32_to_le_bytes(v);
    out.append(&mut bytes);
}

/// Appends the words of `row`.
pub fn push_row(out: &mut Vec<u8>, row: &[u32; 14])
    ensures
        final(out)@ == old(out)@ + words_bytes(row@),
{
    let ghost start = out@;
    let mut j: usize = 0;
    while j < DIM
        invariant
            j <= DIM,
            row@.len() == DIM,
            out@ == start + words_bytes(row@.take(j as int)),
        decreases DIM - j,
    {
        proof {
            assert(row@.take(j + 1).drop_last() =~= row@.take(j as int));
        }
        push_u32(out, row[j]);
        proof {
            assert(out@ =~= start + words_bytes(row@.take(j + 1)));
        }
        j = j + 1;
    }
    assert(row@.take(DIM as int) =~= row@);
}

/// Appends the little-endian bytes of every word, one after the other.
pub fn push_words(out: &mut Vec<u8>, words: &Vec<u32>)
    ensures
        final(out)@ == old(out)@ + words_bytes(words@),
{
    let ghost start = out@;
    let mut j: usize = 0;
    while j < words.len()
        invariant
            j <= words@.len(),
            out@ == start + words_bytes(words@.take(j as int)),
        decreases words@.len() - j,
    {
        proof {
            assert(words@.take(j + 1).drop_last() =~= words@.take(j as int));
        }
        push_u32(out, words[j]);
        proof {
            assert(out@ =~= start + words_bytes(words@.take(j + 1)));
        }
        j = j + 1;
    }
    assert(words@.take(words@.len() as int) =~= words@);
}

/// Appends the words of every row, row after row.
pub fn push_rows(out: &mut Vec<u8>, rows: &Vec<[u32; 14]>)
    ensures
        final(out)@ == old(out)@ + rows_bytes(rows@),
{
    let ghost start = out@;
    let mut i: usize = 0;
    while i < rows.len()
        invariant
            i <= rows@.len(),
            out@ == start + rows_bytes(rows@.take(i as int)),
        decreases rows@.len() - i,
    {
        proof {
            assert(rows@.take(i + 1).drop_last() =~= rows@.take(i as int));
        }
        push_row(out, &rows[i]);
        proof {
            assert(out@ =~= start + rows_bytes(rows@.take(i + 1)));
        }
        i = i + 1;
    }
    assert(rows@.take(rows@.len() as int) =~= rows@);
}

/// The encoding of words is four bytes per word, each word in its place.
pub proof fn lemma_words_bytes(ws: Seq<u32>)
    ensures
        words_bytes(ws).len() == 4 * ws.len(),
        forall|j: int| 0 <= j < ws.len() ==> #[trigger] le_u32_at(words_bytes(ws), 4 * j) == ws[j],
    decreases ws.len(),
{
    lemma_auto_spec_u32_to_from_le_bytes();
    if ws.len() > 0 {
        let init = ws.drop_last();
        lemma_words_bytes(init);
        let b = words_bytes(ws);
        let last = spec_u32_to_le_bytes(ws.last());
        assert forall|j: int| 0 <= j < ws.len() implies #[trigger] le_u32_at(words_bytes(ws), 4 * j)
            == ws[j] by {
            if j < ws.len() - 1 {
                assert(b.subrange(4 * j, 4 * j + 4) =~= words_bytes(init).subrange(4 * j, 4 * j + 4));
                assert(le_u32_at(words_bytes(init), 4 * j) == init[j]);
            } else {
                assert(b.subrange(4 * j, 4 * j + 4) =~= last);
            }
        }
    }
}

/// A word of a row sits where `row_at` reads it.
pub proof fn lemma_row_at_words(b: Seq<u8>, off: int, row: [u32; 14])
    requires
        0 <= off,
        off + 56 <= b.len(),
        b.subrange(off, off + 56) == words_bytes(row@),
    ensures
        row_at(b, off) == row@,
{
    lemma_words_bytes(row@);
    assert forall|j: int| 0 <= j < DIM implies #[trigger] row_at(b, off)[j] == row@[j] by {
        assert(b.subrange(off + 4 * j, off + 4 * j + 4) =~= words_bytes(row@).subrange(4 * j, 4 * j + 4));
        assert(le_u32_at(words_bytes(row@), 4 * j) == row@[j]);
    }
    assert(row_at(b, off) =~= row@);
}

/// The encoding of rows is `56` bytes per row, each row in its place.
pub proof fn lemma_rows_bytes(rows: Seq<[u32; 14]>)
    ensures
        rows_bytes(rows).len() == 56 * rows.len(),
        forall|i: int| 0 <= i < rows.len() ==> #[trigger] rows_bytes(rows).subrange(56 * i, 56 * i + 56)
            == words_bytes(rows[i]@),
    decreases rows.len(),
{
    if rows.len() > 0 {
        let init = rows.drop_last();
        lemma_rows_bytes(init);
        lemma_words_bytes(rows.last()@);
        let b = rows_bytes(rows);
        assert forall|i: int| 0 <= i < rows.len() implies #[trigger] rows_bytes(rows).subrange(56 * i, 56 * i + 56)
            == words_bytes(rows[i]@) by {
            if i < rows.len() - 1 {
                assert(b.subrange(56 * i, 56 * i + 56) =~= rows_bytes(init).subrange(56 * i, 56 * i + 56));
                assert(init[i] == rows[i]);
            } else {
                assert(b.subrange(56 * i, 56 * i + 56) =~= words_bytes(rows.last()@));
            }
        }
    }
}

/// Word `j` of the encoding of words is the little-endian bytes of `ws[j]`,
/// at byte `4 j`.
pub proof fn lemma_words_word_at(ws: Seq<u32>, j: int)
    requires
        0 <= j < ws.len(),
    ensures
        words_bytes(ws).len() == 4 * ws.len(),
        words_bytes(ws).subrange(4 * j, 4 * j + 4) == spec_u32_to_le_bytes(ws[j]),
{
    lemma_words_bytes(ws);
    lemma_auto_spec_u32_to_from_le_bytes();
    let sub = words_bytes(ws).subrange(4 * j, 4 * j + 4);
    assert(le_u32_at(words_bytes(ws), 4 * j) == ws[j]);
    assert(spec_u32_to_le_bytes(spec_u32_from_le_bytes(sub)) == sub);
}

/// Word `j` of row `i` of the encoding of rows is the little-endian bytes of
/// `rows[i][j]`, at byte `56 i + 4 j`.
pub proof fn lemma_rows_word_at(rows: Seq<[u32; 14]>, i: int, j: int)
    requires
        0 <= i < rows.len(),
        0 <= j < 14,
    ensures
        rows_bytes(rows).len() == 56 * rows.len(),
        rows_bytes(rows).subrange(56 * i + 4 * j, 56 * i + 4 * j + 4) == spec_u32_to_le_bytes(rows[i][j]),
{
    lemma_rows_bytes(rows);
    lemma_words_word_at(rows[i]@, j);
    let whole = rows_bytes(rows);
    assert(whole.subrange(56 * i, 56 * i + 56) == words_bytes(rows[i]@));
    assert(whole.subrange(56 * i + 4 * j, 56 * i + 4 * j + 4) =~= words_bytes(rows[i]@).subrange(4 * j, 4 * j + 4));
}

} // verus!
