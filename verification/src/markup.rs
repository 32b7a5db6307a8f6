//! Text without its markup.
//!
//! Everything from a `<` up to the next `>` is a tag and is dropped, the two
//! brackets included; a `>` outside a tag is dropped too. A tag that is never
//! closed lasts to the end of the text. Nothing is decoded.

use crate::text::{chars_of, string_of};
use vstd::prelude::*;

verus! {

/// Whether `c` is one of the two brackets that open and close a tag.
pub open spec fn is_bracket(c: char) -> bool {
    c == '<' || c == '>'
}

/// Whether the end of `text` lies inside a tag: whether the last bracket in
/// `text` is a `<`.
pub open spec fn inside_tag(text: Seq<char>) -> bool
    decreases text.len(),
{
    if text.len() == 0 {
        false
    } else if is_bracket(text.last()) {
        text.last() == '<'
    } else {
        inside_tag(text.drop_last())
    }
}

/// `text` without its markup: the characters of `text`, in order, that are no
/// brackets and lie inside no tag.
pub open spec fn stripped(text: Seq<char>) -> Seq<char>
    decreases text.len(),
{
    if text.len() == 0 {
        Seq::empty()
    } else if is_bracket(text.last()) || inside_tag(text.drop_last()) {
        stripped(text.drop_last())
    } else {
        stripped(text.drop_last()).push(text.last())
    }
}

/// What is left after stripping holds no bracket.
pub proof fn stripped_has_no_bracket(text: Seq<char>)
    ensures
        forall|i: int| 0 <= i < stripped(text).len() ==> !is_bracket(#[trigger] stripped(text)[i]),
    decreases text.len(),
{
    if text.len() > 0 {
        let before = stripped(text.drop_last());
        stripped_has_no_bracket(text.drop_last());
        assert forall|i: int| 0 <= i < stripped(text).len() implies !is_bracket(
            #[trigger] stripped(text)[i],
        ) by {
            if i < before.len() {
                assert(stripped(text)[i] == before[i]);
            }
        }
    }
}

/// Text that holds no bracket is left as it is.
pub proof fn plain_text_is_kept(text: Seq<char>)
    requires
        forall|i: int| 0 <= i < text.len() ==> !is_bracket(#[trigger] text[i]),
    ensures
        !inside_tag(text),
        stripped(text) == text,
    decreases text.len(),
{
    if text.len() > 0 {
        let before = text.drop_last();
        assert forall|i: int| 0 <= i < before.len() implies !is_bracket(#[trigger] before[i]) by {
            assert(before[i] == text[i]);
        }
        plain_text_is_kept(before);
        assert(!is_bracket(text[text.len() - 1]));
        assert(before.push(text.last()) == text);
    }
}

/// Stripping what was stripped before changes nothing.
pub proof fn stripping_twice_is_stripping_once(text: Seq<char>)
    ensures
        stripped(stripped(text)) == stripped(text),
{
    stripped_has_no_bracket(text);
    plain_text_is_kept(stripped(text));
}

/// `text` without its markup.
pub fn strip_html_tags(text: &str) -> (plain: String)
    ensures
        plain@ == stripped(text@),
{
    let chars = chars_of(text);
    let mut kept: Vec<char> = Vec::new();
    let mut in_tag = false;
    let mut i: usize = 0;
    while i < chars.len()
        invariant
            i <= chars.len(),
            in_tag == inside_tag(chars@.take(i as int)),
            kept@ == stripped(chars@.take(i as int)),
        decreases chars.len() - i,
    {
        proof {
            assert(chars@.take(i + 1).drop_last() == chars@.take(i as int));
        }
        let c = chars[i];
        if c == '<' {
            in_tag = true;
        } else if c == '>' {
            in_tag = false;
        } else if !in_tag {
            kept.push(c);
        }
        i = i + 1;
    }
    proof {
        assert(chars@.take(chars@.len() as int) == chars@);
    }
    string_of(kept.as_slice())
}

} // verus!
