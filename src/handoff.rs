use vstd::prelude::*;

verus! {

/// The hand-off file's path under the storage root `root`: `{root}/history`.
pub fn handoff_path(root: &str) -> (r: String)
    ensures
        r@ == root@ + "/history"@,
{
    let mut r = String::from_str(root);
    r.append("/history");
    r
}

} // verus!
