use vstd::prelude::*;
use vstd::utf8::encode_utf8;

verus! {

/// The byte of an ASCII space.
pub const SPACE: u8 = 32;

/// The UTF-8 bytes of a character sequence.
pub open spec fn utf8_bytes(s: Seq<char>) -> Seq<u8> {
    encode_utf8(s)
}

/// The position of the first space byte in `b`, or `b.len()` when there is none.
pub open spec fn first_space(b: Seq<u8>) -> nat
    decreases b.len(),
{
    if b.len() == 0 {
        0
    } else if b[0] == SPACE {
        0
    } else {
        1 + first_space(b.skip(1))
    }
}

proof fn lemma_first_space_bounds(b: Seq<u8>)
    ensures
        first_space(b) <= b.len(),
        forall|j: int| 0 <= j < first_space(b) ==> b[j] != SPACE,
        first_space(b) < b.len() ==> b[first_space(b) as int] == SPACE,
    decreases b.len(),
{
    if b.len() > 0 && b[0] != SPACE {
        lemma_first_space_bounds(b.skip(1));
        assert forall|j: int| 0 <= j < first_space(b) implies b[j] != SPACE by {
            if j > 0 {
                assert(b[j] == b.skip(1)[j - 1]);
            }
        }
    }
}

/// The byte length of the first word of `s`: the byte index of its first
/// space, or the whole byte length when `s` holds no space.
pub fn first_word(s: &String) -> (r: usize)
    ensures
        r == first_space(utf8_bytes(s@)),
{
    let bytes = s.as_str().as_bytes();
    proof {
        lemma_first_space_bounds(bytes@);
    }
    let mut i: usize = 0;
    while i < bytes.len()
        invariant
            bytes@ == utf8_bytes(s@),
            i <= bytes@.len(),
            forall|j: int| 0 <= j < i ==> bytes@[j] != SPACE,
            first_space(bytes@) <= bytes@.len(),
            forall|j: int| 0 <= j < first_space(bytes@) ==> bytes@[j] != SPACE,
            first_space(bytes@) < bytes@.len() ==> bytes@[first_space(bytes@) as int] == SPACE,
        decreases bytes@.len() - i,
    {
        if bytes[i] == SPACE {
            return i;
        }
        i = i + 1;
    }
    bytes.len()
}

} // verus!
