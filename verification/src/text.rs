//! Small operations on text.

use vstd::prelude::*;
use vstd::string::*;

verus! {

/// Puts `tail` behind `head`.
pub fn concat_text(head: &str, tail: &str) -> (text: String)
    ensures
        text@ == head@ + tail@,
{
    let mut text = head.to_owned();
    text.append(tail);
    text
}

/// `text` up to its last character that is not a slash.
pub open spec fn without_trailing_slashes(text: Seq<char>) -> Seq<char>
    decreases text.len(),
{
    if text.len() > 0 && text.last() == '/' {
        without_trailing_slashes(text.drop_last())
    } else {
        text
    }
}

/// Cuts the slashes off the end of `text`.
pub fn trim_trailing_slashes(text: &str) -> (trimmed: String)
    ensures
        trimmed@ == without_trailing_slashes(text@),
{
    let mut end: usize = text.unicode_len();
    assert(text@.take(end as int) =~= text@);
    while end > 0 && text.get_char(end - 1) == '/'
        invariant
            end <= text@.len(),
            without_trailing_slashes(text@.take(end as int)) == without_trailing_slashes(text@),
        decreases end,
    {
        assert(text@.take(end as int).drop_last() =~= text@.take(end - 1));
        end = end - 1;
    }
    assert(text@.subrange(0, end as int) =~= text@.take(end as int));
    text.substring_char(0, end).to_owned()
}

/// Trimming takes the slashes at the end of a text, all of them and nothing else.
pub proof fn trimming_takes_the_slashes_at_the_end(text: Seq<char>)
    ensures
        ({
            let trimmed = without_trailing_slashes(text);
            &&& trimmed.len() <= text.len()
            &&& trimmed == text.take(trimmed.len() as int)
            &&& trimmed.len() > 0 ==> text[trimmed.len() - 1] != '/'
            &&& forall|i: int| trimmed.len() <= i < text.len() ==> #[trigger] text[i] == '/'
        }),
    decreases text.len(),
{
    if text.len() > 0 && text.last() == '/' {
        let front = text.drop_last();
        let n = without_trailing_slashes(front).len() as int;
        trimming_takes_the_slashes_at_the_end(front);
        assert(front.take(n) =~= text.take(n));
        assert(n > 0 ==> front[n - 1] == text[n - 1]);
        assert forall|i: int| n <= i < text.len() implies #[trigger] text[i] == '/' by {
            if i < front.len() {
                assert(front[i] == text[i]);
            }
        }
    } else {
        assert(text.take(text.len() as int) =~= text);
    }
}

} // verus!
