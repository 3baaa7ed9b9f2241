//! Bitmaps packed into 64-bit words: bit `idx` lives in word `idx / 64`
//! at position `idx % 64`.
use vstd::prelude::*;

verus! {

/// Whether bit `b` of the word `w` is set.
pub open spec fn word_bit(w: u64, b: u64) -> bool {
    (w >> b) & 1u64 == 1u64
}

/// Whether bit `idx` of the packed bitmap `words` is set.
pub open spec fn bitmap_bit(words: Seq<u64>, idx: int) -> bool {
    word_bit(words[idx / 64], (idx % 64) as u64)
}

/// Testing a bit with a single-bit mask agrees with `word_bit`.
pub proof fn lemma_mask_test(w: u64, b: u64)
    requires
        b < 64,
    ensures
        (w & (1u64 << b) == 0u64) == !word_bit(w, b),
{
    assert((w & (1u64 << b) == 0u64) == ((w >> b) & 1u64 != 1u64)) by (bit_vector)
        requires
            b < 64,
    ;
}

/// Or-ing a single-bit mask into a word sets that bit and keeps all others.
pub proof fn lemma_mask_set(w: u64, b: u64, c: u64)
    requires
        b < 64,
        c < 64,
    ensures
        word_bit(w | (1u64 << b), c) == (c == b || word_bit(w, c)),
{
    assert(((w | (1u64 << b)) >> c) & 1u64 == 1u64 <==> (c == b || (w >> c) & 1u64 == 1u64))
        by (bit_vector)
        requires
            b < 64,
            c < 64,
    ;
}

/// Shifts and masks used to address a bitmap are divisions and remainders.
pub proof fn lemma_index_split(x: u64)
    ensures
        x >> 6u64 == x / 64,
        x & 63u64 == x % 64,
        x >> 1u64 == x / 2,
        x >> 7u64 == (x / 2) / 64,
        (x >> 1u64) & 63u64 == (x / 2) % 64,
        (x / 2) / 64 == x / 128,
{
    assert((x / 2) / 64 == x / 128) by (bit_vector);
    assert(x >> 6u64 == x / 64) by (bit_vector);
    assert(x & 63u64 == x % 64) by (bit_vector);
    assert(x >> 1u64 == x / 2) by (bit_vector);
    assert(x >> 7u64 == (x / 2) / 64) by (bit_vector);
    assert((x >> 1u64) & 63u64 == (x / 2) % 64) by (bit_vector);
}

/// Setting bit `idx` of a bitmap (word `idx / 64`, mask `1 << (idx % 64)`)
/// changes no other bit.
pub proof fn lemma_bitmap_set(old_words: Seq<u64>, new_words: Seq<u64>, idx: int)
    requires
        0 <= idx,
        idx / 64 < old_words.len(),
        new_words == old_words.update(
            idx / 64,
            old_words[idx / 64] | (1u64 << ((idx % 64) as u64)),
        ),
    ensures
        forall|j: int|
            0 <= j < new_words.len() * 64 ==> #[trigger] bitmap_bit(new_words, j) == (j == idx
                || bitmap_bit(old_words, j)),
{
    assert forall|j: int| 0 <= j < new_words.len() * 64 implies #[trigger] bitmap_bit(
        new_words,
        j,
    ) == (j == idx || bitmap_bit(old_words, j)) by {
        if j / 64 == idx / 64 {
            lemma_mask_set(old_words[idx / 64], (idx % 64) as u64, (j % 64) as u64);
        }
    }
}

} // verus!
