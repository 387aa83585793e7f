//! What holds of masks and of the number of their bits.

use crate::mask::{all_letters, is_letter, letter_bit, mask_of, popcount};
use vstd::prelude::*;

verus! {

/// The bits of two disjoint masks add up in their union.
pub proof fn lemma_popcount_disjoint(x: u32, y: u32)
    requires
        x & y == 0,
    ensures
        popcount(x | y) == popcount(x) + popcount(y),
    decreases x + y,
{
    if x == 0 && y == 0 {
        assert(0u32 | 0u32 == 0) by (bit_vector);
    } else {
        assert((x | y) != 0 && (x | y) / 2 == (x / 2) | (y / 2) && (x | y) % 2 == x % 2 + y % 2 && (
        x / 2) & (y / 2) == 0) by (bit_vector)
            requires
                x & y == 0,
                !(x == 0 && y == 0),
        ;
        lemma_popcount_disjoint(x / 2, y / 2);
    }
}

/// Setting one bit of a mask adds one to the number of its bits where the
/// bit was clear, and nothing where it was set.
pub proof fn lemma_popcount_set_bit(x: u32, k: u32)
    requires
        k < 32,
    ensures
        popcount(x | (1u32 << k)) == popcount(x) + (if x & (1u32 << k) == 0 {
            1nat
        } else {
            0nat
        }),
    decreases k,
{
    let y = x | (1u32 << k);
    if k == 0 {
        assert(y != 0 && y / 2 == x / 2 && y % 2 == 1 && (x & (1u32 << k) == 0 <==> x % 2 == 0)
            && x % 2 <= 1) by (bit_vector)
            requires
                k == 0,
                y == x | (1u32 << k),
        ;
    } else {
        let j = (k - 1) as u32;
        assert(y != 0 && y / 2 == (x / 2) | (1u32 << j) && y % 2 == x % 2 && (x & (1u32 << k) == 0
            <==> (x / 2) & (1u32 << j) == 0)) by (bit_vector)
            requires
                0 < k < 32,
                j == k - 1,
                y == x | (1u32 << k),
        ;
        lemma_popcount_set_bit(x / 2, j);
    }
}

/// The bit of a letter is set in the mask of a word exactly where the word
/// holds the letter.
pub proof fn lemma_mask_holds_letter(bytes: Seq<u8>, b: u8)
    requires
        all_letters(bytes),
        is_letter(b),
    ensures
        mask_of(bytes) & letter_bit(b) != 0 <==> bytes.contains(b),
    decreases bytes.len(),
{
    if bytes.len() == 0 {
        let z = letter_bit(b);
        assert(0u32 & z == 0) by (bit_vector);
        if bytes.contains(b) {
            let i = choose|i: int| 0 <= i < bytes.len() && bytes[i] == b;
        }
    } else {
        let front = bytes.drop_last();
        let c = bytes.last();
        assert(is_letter(bytes[bytes.len() - 1]));
        assert forall|i: int| 0 <= i < front.len() implies is_letter(#[trigger] front[i]) by {
            assert(front[i] == bytes[i]);
        }
        lemma_mask_holds_letter(front, b);
        let m = mask_of(front);
        let kc = (c - 97) as u32;
        let kb = (b - 97) as u32;
        assert(((m | (1u32 << kc)) & (1u32 << kb) != 0) <==> (m & (1u32 << kb) != 0 || kc == kb))
            by (bit_vector)
            requires
                kc < 32,
                kb < 32,
        ;
        if bytes.contains(b) {
            let i = choose|i: int| 0 <= i < bytes.len() && bytes[i] == b;
            if i < front.len() {
                assert(front[i] == b);
                assert(front.contains(b));
            }
        }
        if front.contains(b) {
            let i = choose|i: int| 0 <= i < front.len() && front[i] == b;
            assert(bytes[i] == b);
        }
        if c == b {
            assert(bytes[bytes.len() - 1] == b);
        }
    }
}

/// A mask has at most as many bits as its word has letters, and as many
/// exactly where no letter of the word occurs twice.
pub proof fn lemma_encoding_popcount(bytes: Seq<u8>)
    requires
        all_letters(bytes),
    ensures
        popcount(mask_of(bytes)) <= bytes.len(),
        popcount(mask_of(bytes)) == bytes.len() <==> bytes.no_duplicates(),
    decreases bytes.len(),
{
    if bytes.len() > 0 {
        let front = bytes.drop_last();
        let c = bytes.last();
        assert(is_letter(bytes[bytes.len() - 1]));
        assert forall|i: int| 0 <= i < front.len() implies is_letter(#[trigger] front[i]) by {
            assert(front[i] == bytes[i]);
        }
        lemma_encoding_popcount(front);
        lemma_mask_holds_letter(front, c);
        lemma_popcount_set_bit(mask_of(front), (c - 97) as u32);
        if front.contains(c) {
            let i = choose|i: int| 0 <= i < front.len() && front[i] == c;
            assert(bytes[i] == bytes[bytes.len() - 1]);
        }
        if front.no_duplicates() && !front.contains(c) {
            assert forall|i: int, j: int| 0 <= i < bytes.len() && 0 <= j < bytes.len() && i
                != j implies bytes[i] != bytes[j] by {
                if i < front.len() {
                    assert(front[i] == bytes[i]);
                    assert(front.contains(bytes[i]));
                }
                if j < front.len() {
                    assert(front[j] == bytes[j]);
                    assert(front.contains(bytes[j]));
                }
            }
        }
        if bytes.no_duplicates() {
            assert forall|i: int, j: int| 0 <= i < front.len() && 0 <= j < front.len() && i
                != j implies front[i] != front[j] by {
                assert(front[i] == bytes[i] && front[j] == bytes[j]);
            }
        }
    }
}

} // verus!
