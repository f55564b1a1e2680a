//! Five-letter words and their letter-presence bitmasks.

use vstd::prelude::*;

verus! {

/// The single bit standing for one lowercase letter: bit `c - 'a'`.
pub open spec fn letter_mask(c: u8) -> u32 {
    1u32 << ((c - 97) as u32)
}

/// The union of the letter bits of a byte sequence. A letter occurring twice
/// contributes its bit once.
pub open spec fn mask_of(s: Seq<u8>) -> u32
    decreases s.len(),
{
    if s.len() == 0 {
        0u32
    } else {
        mask_of(s.drop_last()) | letter_mask(s.last())
    }
}

/// A byte holding one lowercase ASCII letter.
pub open spec fn is_lower(c: u8) -> bool {
    97 <= c <= 122
}

/// Exactly five lowercase letters, every position in range.
pub open spec fn all_lower(s: Seq<u8>) -> bool {
    forall|i: int| 0 <= i < s.len() ==> is_lower(#[trigger] s[i])
}

/// The bit for one lowercase letter, computed.
pub fn to_letter_mask(c: u8) -> (m: u32)
    requires
        is_lower(c),
    ensures
        m == letter_mask(c),
{
    1u32 << ((c - 97) as u32)
}

/// An immutable five-letter word with a derived 26-bit set of the letters
/// that occur anywhere in it.
#[derive(Clone, Copy, Debug)]
pub struct Word {
    pub bytes: [u8; 5],
    pub letters: u32,
}

impl Word {
    /// Every stored byte is a lowercase letter and the mask is exactly the
    /// union of the per-letter bits.
    pub open spec fn wf(self) -> bool {
        &&& all_lower(self.bytes@)
        &&& self.letters == mask_of(self.bytes@)
    }

    /// Encode exactly five lowercase letters into a `Word`; out-of-range
    /// input is a caller contract violation, checked upstream.
    pub fn new(text: &str) -> (w: Word)
        requires
            text@.len() == 5,
            forall|i: int| 0 <= i < 5 ==> 'a' <= #[trigger] text@[i] <= 'z',
        ensures
            w.wf(),
            forall|i: int| 0 <= i < 5 ==> w.bytes@[i] == #[trigger] text@[i] as u8,
    {
        let mut bytes: [u8; 5] = [0u8; 5];
        let mut i: usize = 0;
        while i < 5
            invariant
                i <= 5,
                text@.len() == 5,
                forall|k: int| 0 <= k < 5 ==> 'a' <= #[trigger] text@[k] <= 'z',
                forall|k: int| 0 <= k < i ==> bytes@[k] == #[trigger] text@[k] as u8,
            decreases 5 - i,
        {
            let c: char = text.get_char(i);
            bytes[i] = c as u8;
            i += 1;
        }
        let mut letters: u32 = 0;
        let mut j: usize = 0;
        while j < 5
            invariant
                j <= 5,
                forall|k: int| 0 <= k < 5 ==> 'a' <= #[trigger] text@[k] <= 'z',
                forall|k: int| 0 <= k < 5 ==> bytes@[k] == #[trigger] text@[k] as u8,
                letters == mask_of(bytes@.take(j as int)),
            decreases 5 - j,
        {
            proof {
                assert(bytes@.take(j + 1).drop_last() =~= bytes@.take(j as int));
                assert('a' <= text@[j as int] <= 'z');
                assert(is_lower(bytes@[j as int]));
            }
            letters = letters | to_letter_mask(bytes[j]);
            j += 1;
        }
        proof {
            assert(bytes@.take(5) =~= bytes@);
            assert forall|k: int| 0 <= k < 5 implies is_lower(#[trigger] bytes@[k]) by {
                assert('a' <= text@[k] <= 'z');
            }
        }
        Word { bytes, letters }
    }

    /// Whether byte `b` occurs at any of the five positions.
    pub fn contains_letter(&self, b: u8) -> (r: bool)
        ensures
            r == self.bytes@.contains(b),
    {
        let mut i: usize = 0;
        while i < 5
            invariant
                i <= 5,
                forall|k: int| 0 <= k < i ==> self.bytes@[k] != b,
            decreases 5 - i,
        {
            if self.bytes[i] == b {
                return true;
            }
            i += 1;
        }
        false
    }
}

} // verus!
