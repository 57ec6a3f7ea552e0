//! Store-location settings.

use vstd::prelude::*;

verus! {

/// The fixed path of the note store; configurable some day, hence the
/// fallible shape.
pub fn get_json_path() -> (r: Result<String, super::StorageError>)
    ensures
        r matches Ok(p) && p@ == "notes.json"@,
{
    proof {
        reveal_strlit("notes.json");
    }
    Ok("notes.json".to_owned())
}

} // verus!
