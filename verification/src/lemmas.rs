//! General facts about vectors and sequences of characters.

use vstd::prelude::*;

verus! {

/// The deep view of a character vector is its plain view.
pub broadcast proof fn lemma_char_vec_deep_view(v: Vec<char>)
    ensures
        #[trigger] v.deep_view() == v@,
{
    assert(v.deep_view() =~= v@);
}

} // verus!
