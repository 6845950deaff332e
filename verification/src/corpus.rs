//! How a corpus is read: lines are numbered from zero, and a word is a
//! maximal run of characters that are not white space.

use vstd::prelude::*;

verus! {

/// Whether a character has the Unicode property `White_Space`.
pub open spec fn is_space(c: char) -> bool {
    let x: u32 = c as u32;
    ||| 0x09 <= x <= 0x0d
    ||| x == 0x20
    ||| x == 0x85
    ||| x == 0xa0
    ||| x == 0x1680
    ||| 0x2000 <= x <= 0x200a
    ||| x == 0x2028
    ||| x == 0x2029
    ||| x == 0x202f
    ||| x == 0x205f
    ||| x == 0x3000
}

/// Whether the characters from `i` up to `j` are a word of the text: none of
/// them is white space, and the run can be extended on neither side.
pub open spec fn is_word_at(text: Seq<char>, i: int, j: int) -> bool {
    &&& 0 <= i < j <= text.len()
    &&& forall|k: int| i <= k < j ==> !is_space(#[trigger] text[k])
    &&& (i == 0 || is_space(text[i - 1]))
    &&& (j == text.len() || is_space(text[j]))
}

/// The number of the line that position `i` lies on: the number of line
/// feeds before it.
pub open spec fn line_of(text: Seq<char>, i: int) -> nat
    decreases i,
{
    if i <= 0 {
        0
    } else {
        line_of(text, i - 1) + if text[i - 1] == '\n' { 1nat } else { 0nat }
    }
}

/// Whether a character has the Unicode property `White_Space`.
pub fn is_whitespace(c: char) -> (b: bool)
    ensures
        b == is_space(c),
{
    let x: u32 = c as u32;
    (0x09 <= x && x <= 0x0d) || x == 0x20 || x == 0x85 || x == 0xa0 || x == 0x1680 || (0x2000 <= x
        && x <= 0x200a) || x == 0x2028 || x == 0x2029 || x == 0x202f || x == 0x205f || x == 0x3000
}

/// A word that ends at `j` starts where the run of characters before `j`
/// that are not white space starts, and nowhere else.
pub proof fn lemma_word_start_unique(text: Seq<char>, i: int, k: int, j: int)
    requires
        is_word_at(text, i, j),
        is_word_at(text, k, j),
    ensures
        i == k,
{
    if i < k {
        assert(!is_space(text[k - 1]));
    } else if k < i {
        assert(!is_space(text[i - 1]));
    }
}

} // verus!
