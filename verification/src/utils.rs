//! Small path helpers for the filesystem backend.

use vstd::prelude::*;

use crate::text::string_from_chars;

verus! {

/// The sibling path a dump is written to before the atomic rename: the
/// final path with `.tmp` appended.
pub fn tmp_path(path: &str) -> (r: String)
    ensures
        r@ == path@ + seq!['.', 't', 'm', 'p'],
{
    let mut out = path.to_owned();
    out.append(".tmp");
    proof {
        reveal_strlit(".tmp");
        assert(".tmp"@ =~= seq!['.', 't', 'm', 'p']);
    }
    out
}

} // verus!
