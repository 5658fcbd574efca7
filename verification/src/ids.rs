//! Identifiers for new rows.

use vstd::prelude::*;

verus! {

/// The number of characters of an identifier in its hyphenated form.
pub const ID_LENGTH: usize = 36;

/// Draws a new random identifier.
///
/// This calls `uuid::Uuid::new_v4` and renders the result with its `Display`
/// form. Believed of it, not proved: the text is the hyphenated form, which is
/// always 36 characters long. Which identifier comes back is left open; two
/// calls may even return the same one. The call panics only if the operating
/// system cannot supply random bytes.
#[verifier::external_body]
fn fresh_id() -> (id: String)
    ensures
        id@.len() == ID_LENGTH,
{
    uuid::Uuid::new_v4().to_string()
}

/// Every identifier of the supply has the length of a random identifier.
pub open spec fn all_full_length(ids: Seq<Seq<char>>) -> bool {
    forall|i: int| 0 <= i < ids.len() ==> (#[trigger] ids[i]).len() == ID_LENGTH
}

/// Draws `count` new random identifiers.
pub fn fresh_ids(count: usize) -> (ids: Vec<String>)
    ensures
        ids.len() == count,
        all_full_length(ids.deep_view()),
{
    let mut ids: Vec<String> = Vec::new();
    while ids.len() < count
        invariant
            ids.len() <= count,
            all_full_length(ids.deep_view()),
        decreases count - ids.len(),
    {
        let ghost before = ids.deep_view();
        let id = fresh_id();
        ids.push(id);
        proof {
            assert(ids.deep_view() =~= before.push(id@));
        }
    }
    ids
}

/// Adds one new random identifier to the supply.
pub(crate) fn one_more(ids: &mut Vec<String>)
    requires
        all_full_length(old(ids).deep_view()),
    ensures
        final(ids).len() == old(ids).len() + 1,
        all_full_length(final(ids).deep_view()),
{
    let ghost before = ids.deep_view();
    let id = fresh_id();
    ids.push(id);
    proof {
        assert(ids.deep_view() =~= before.push(id@));
    }
}

} // verus!
