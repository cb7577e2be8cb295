//! Where the data of one kind is kept.

use crate::text::{chars_of, string_of};
use vstd::prelude::*;

verus! {

/// Whether a character is a letter or a number, as Unicode has it.
pub uninterp spec fn is_alphanumeric(c: char) -> bool;

/// `char::is_alphanumeric` depends on the character alone.
pub assume_specification[ char::is_alphanumeric ](c: char) -> (b: bool)
    ensures
        b == is_alphanumeric(c),
;

/// The name of the folder for a kind of data: the name of the kind, with
/// `_` for each character that is neither a letter nor a number.
pub open spec fn folder_of(kind: Seq<char>) -> Seq<char> {
    kind.map_values(
        |c: char|
            if is_alphanumeric(c) {
                c
            } else {
                '_'
            },
    )
}

/// The name of the folder for a kind of data.
pub fn store_folder(kind: &str) -> (folder: String)
    ensures
        folder@ == folder_of(kind@),
{
    let v = chars_of(kind);
    let mut out: Vec<char> = Vec::new();
    let mut k: usize = 0;
    while k < v.len()
        invariant
            k <= v.len(),
            out.len() == k,
            forall|j: int| 0 <= j < k ==> #[trigger] out@[j] == folder_of(v@)[j],
        decreases v.len() - k,
    {
        let c: char = v[k];
        out.push(
            if c.is_alphanumeric() {
                c
            } else {
                '_'
            },
        );
        k += 1;
    }
    proof {
        assert(out@ =~= folder_of(kind@));
        assert(out@.subrange(0, out.len() as int) =~= out@);
    }
    string_of(&out, 0, out.len())
}

} // verus!
