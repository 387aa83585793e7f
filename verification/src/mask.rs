//! Letter masks: one bit per letter of the alphabet `a` to `z`.

use crate::mask_proofs::lemma_encoding_popcount;
use vstd::prelude::*;

verus! {

/// The number of bits that are set in `x`.
pub open spec fn popcount(x: u32) -> nat
    decreases x,
{
    if x == 0 {
        0
    } else {
        (x % 2) as nat + popcount(x / 2)
    }
}

/// Whether the byte is one of the letters `a` to `z`.
pub open spec fn is_letter(b: u8) -> bool {
    97 <= b <= 122
}

/// The bit that stands for a letter: bit 0 for `a`, bit 25 for `z`.
pub open spec fn letter_bit(b: u8) -> u32 {
    1u32 << ((b - 97) as u32)
}

/// Whether every byte of the word is a letter of the alphabet.
pub open spec fn all_letters(bytes: Seq<u8>) -> bool {
    forall|i: int| 0 <= i < bytes.len() ==> is_letter(#[trigger] bytes[i])
}

/// The mask of a word: the union of the bits of its letters.
pub open spec fn mask_of(bytes: Seq<u8>) -> u32
    decreases bytes.len(),
{
    if bytes.len() == 0 {
        0
    } else {
        mask_of(bytes.drop_last()) | letter_bit(bytes.last())
    }
}

/// Whether `position` is the first place in the word that holds no letter.
pub open spec fn first_invalid(bytes: Seq<u8>, position: int) -> bool {
    &&& 0 <= position < bytes.len()
    &&& !is_letter(bytes[position])
    &&& all_letters(bytes.take(position))
}

/// The bytes of a word.
pub open spec fn word_bytes(w: String) -> Seq<u8> {
    vstd::utf8::encode_utf8(w@)
}

/// Whether the word is made of letters of the alphabet only.
pub open spec fn word_ok(w: String) -> bool {
    all_letters(word_bytes(w))
}

/// The mask of a word.
pub open spec fn word_mask(w: String) -> u32 {
    mask_of(word_bytes(w))
}

/// A word held a character outside the alphabet.
#[derive(Clone, Copy, Debug)]
pub struct EncodingError {
    /// The byte offset of the first character that is no letter.
    pub position: usize,
}

/// Encodes a word as its letter mask.
///
/// Succeeds exactly on the words made of the letters `a` to `z`; any other
/// word is refused with the offset of its first offending byte. The mask has
/// at most as many bits as the word has letters, and as many exactly where
/// no letter occurs twice.
pub fn encode_word(word: String) -> (r: Result<u32, EncodingError>)
    ensures
        match r {
            Ok(mask) => {
                &&& word_ok(word)
                &&& mask == word_mask(word)
                &&& popcount(mask) <= word_bytes(word).len()
                &&& popcount(mask) == word_bytes(word).len() <==> word_bytes(word).no_duplicates()
            },
            Err(e) => first_invalid(word_bytes(word), e.position as int),
        },
{
    let bytes = word.as_str().as_bytes();
    let mut acc: u32 = 0;
    let mut i: usize = 0;
    while i < bytes.len()
        invariant
            i <= bytes@.len(),
            bytes@ == word_bytes(word),
            all_letters(bytes@.take(i as int)),
            acc == mask_of(bytes@.take(i as int)),
        decreases bytes.len() - i,
    {
        let b: u8 = bytes[i];
        if b < 97 || b > 122 {
            return Err(EncodingError { position: i });
        }
        proof {
            assert(bytes@.take(i + 1).drop_last() =~= bytes@.take(i as int));
            assert(bytes@.take(i + 1).last() == b);
        }
        acc = acc | (1u32 << ((b - 97) as u32));
        i += 1;
    }
    proof {
        assert(bytes@.take(i as int) =~= bytes@);
        lemma_encoding_popcount(bytes@);
    }
    Ok(acc)
}

/// Counts the bits that are set in a mask.
///
/// Calls `u32::count_ones`, which returns the number of ones in the binary
/// representation of its argument; the contract says that this is `popcount`.
#[verifier::external_body]
pub(crate) fn count_ones(x: u32) -> (r: u32)
    ensures
        r == popcount(x),
{
    x.count_ones()
}

} // verus!
