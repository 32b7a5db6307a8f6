//! What this crate takes from std on trust.
//!
//! Verus knows std through the specifications that vstd gives. For three
//! functions that this crate calls vstd gives none; they are specified here,
//! each as far as its documentation goes. Nothing else in this crate is
//! believed without proof.

use vstd::prelude::*;
use vstd::utf8::{encode_utf8, valid_utf8};

verus! {

/// `String::push` of std appends one character to the end of the string and
/// leaves what was there before untouched.
pub assume_specification[ String::push ](text: &mut String, c: char)
    ensures
        final(text)@ == old(text)@.push(c),
;

/// The lowercase form of `text` as `str::to_lowercase` of std computes it
/// (the Unicode lowercase mapping, which is the same in every process).
pub uninterp spec fn lowercase(text: Seq<char>) -> Seq<char>;

/// `str::to_lowercase` of std returns a new string that depends on the
/// characters of its argument alone; `lowercase` is the name of that string.
pub assume_specification[ str::to_lowercase ](text: &str) -> (folded: String)
    ensures
        folded@ == lowercase(text@),
;

/// The failure of `String::from_utf8`; nothing is read from it.
#[verifier::external_type_specification]
#[verifier::external_body]
pub struct ExFromUtf8Error(std::string::FromUtf8Error);

/// `String::from_utf8` of std succeeds on exactly the byte vectors that are
/// valid UTF-8, and the string it then returns holds those very bytes.
pub assume_specification[ String::from_utf8 ](bytes: Vec<u8>) -> (text: Result<
    String,
    std::string::FromUtf8Error,
>)
    ensures
        text is Ok <==> valid_utf8(bytes@),
        text matches Ok(text) ==> encode_utf8(text@) == bytes@,
;

} // verus!
