//! What the server starts with: the operator's files where they are there, else the built-in ones.

use vstd::prelude::*;

use crate::text::{chars_of, copy_of, is_white, law_trimmed, owned_text, trim, trimmed};

verus! {

/// The start page: the operator's, unless it is missing or blank.
pub open spec fn index_text(file: Option<Seq<char>>, built_in: Seq<char>) -> Seq<char> {
    match file {
        Some(html) => if trimmed(html).len() > 0 {
            html
        } else {
            built_in
        },
        None => built_in,
    }
}

/// The icon of the start page: the operator's, unless it is missing or empty.
pub open spec fn favicon_bytes(file: Option<Seq<u8>>, built_in: Seq<u8>) -> Seq<u8> {
    match file {
        Some(bytes) => if bytes.len() > 0 {
            bytes
        } else {
            built_in
        },
        None => built_in,
    }
}

/// A start page of the operator with anything in it but white characters is taken as it is, however
/// long; a blank one and a missing one are not.
pub proof fn law_start_page(html: Seq<char>, built_in: Seq<char>)
    ensures
        (exists|i: int| 0 <= i < html.len() && !is_white(#[trigger] html[i])) ==> index_text(
            Some(html),
            built_in,
        ) == html,
        (forall|i: int| 0 <= i < html.len() ==> is_white(#[trigger] html[i])) ==> index_text(
            Some(html),
            built_in,
        ) == built_in,
        index_text(None, built_in) == built_in,
{
    law_trimmed(html);
    let (a, b) = choose|a: int, b: int|
        {
            &&& 0 <= a <= b <= html.len()
            &&& trimmed(html) == #[trigger] html.subrange(a, b)
            &&& forall|i: int| 0 <= i < a || b <= i < html.len() ==> is_white(#[trigger] html[i])
            &&& a < b ==> !is_white(html[a]) && !is_white(html[b - 1])
        };
    assert(trimmed(html).len() == b - a);
}

/// An icon of the operator with any bytes in it is taken as it is.
pub proof fn law_start_icon(bytes: Seq<u8>, built_in: Seq<u8>)
    ensures
        bytes.len() > 0 ==> favicon_bytes(Some(bytes), built_in) == bytes,
        favicon_bytes(Some(seq![]), built_in) == built_in,
        favicon_bytes(None, built_in) == built_in,
{
}

/// The start page, given what was read of the operator's.
pub fn choose_index(file: Option<String>, built_in: &str) -> (r: String)
    ensures
        r@ == index_text(owned_text(file), built_in@),
{
    match file {
        Some(html) => {
            let a = chars_of(html.as_str());
            if trim(a.as_slice()).len() > 0 {
                html
            } else {
                copy_of(built_in)
            }
        },
        None => copy_of(built_in),
    }
}

/// The icon of the start page, given what was read of the operator's.
pub fn choose_favicon(file: Option<Vec<u8>>, built_in: &[u8]) -> (r: Vec<u8>)
    ensures
        r@ == favicon_bytes(crate::icon::owned_bytes(file), built_in@),
{
    match file {
        Some(bytes) => if bytes.len() > 0 {
            bytes
        } else {
            vstd::slice::slice_to_vec(built_in)
        },
        None => vstd::slice::slice_to_vec(built_in),
    }
}

} // verus!
