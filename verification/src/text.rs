use vstd::prelude::*;

use crate::info_parse::chars_of;

verus! {

/// The lower-case form of a text, as `str::to_lowercase` gives it.
pub uninterp spec fn lowercase(s: Seq<char>) -> Seq<char>;

/// `str::to_lowercase`: maps each character to its Unicode lower case. The
/// mapping takes Unicode's tables to state, so the result is only named:
/// it is `lowercase` of the text, a function of the text alone.
#[verifier::external_body]
pub(crate) fn to_lowercase(s: &String) -> (res: String)
    ensures
        res@ == lowercase(s@),
{
    s.to_lowercase()
}

/// `pattern` occurs in `text` as a run of consecutive characters.
pub open spec fn contains_text(text: Seq<char>, pattern: Seq<char>) -> bool {
    exists|i: int| 0 <= i && i + pattern.len() <= text.len() && #[trigger] text.subrange(i, i + pattern.len()) == pattern
}

/// Whether `pattern` occurs in `text`.
pub fn chars_contain(text: &Vec<char>, pattern: &Vec<char>) -> (res: bool)
    ensures
        res == contains_text(text@, pattern@),
{
    if pattern.len() > text.len() {
        return false;
    }
    if pattern.len() == 0 {
        assert(text@.subrange(0int, 0int + pattern@.len()) =~= pattern@);
        return true;
    }
    let tl = text.len();
    let last = tl - pattern.len();
    let mut i: usize = 0;
    while i <= last
        invariant
            0 < pattern@.len() <= text@.len(),
            tl == text@.len(),
            last == text@.len() - pattern@.len(),
            i <= last + 1,
            forall|j: int| 0 <= j < i ==> #[trigger] text@.subrange(j, j + pattern@.len()) != pattern@,
        decreases last + 1 - i,
    {
        let mut k: usize = 0;
        while k < pattern.len() && text[i + k] == pattern[k]
            invariant
                0 < pattern@.len() <= text@.len(),
            tl == text@.len(),
                i <= last,
                last == text@.len() - pattern@.len(),
                k <= pattern@.len(),
                forall|m: int| 0 <= m < k ==> text@[i + m] == pattern@[m],
            decreases pattern@.len() - k,
        {
            k = k + 1;
        }
        if k == pattern.len() {
            assert(text@.subrange(i as int, i + pattern@.len()) =~= pattern@);
            return true;
        }
        assert(text@.subrange(i as int, i + pattern@.len())[k as int] != pattern@[k as int]);
        i = i + 1;
    }
    false
}

/// Whether `pattern` occurs in `text`, character by character.
pub fn text_contains(text: &String, pattern: &String) -> (res: bool)
    ensures
        res == contains_text(text@, pattern@),
{
    let t = chars_of(text);
    let p = chars_of(pattern);
    chars_contain(&t, &p)
}

} // verus!
