use vstd::prelude::*;
use vstd::string::StringExecFns;

verus! {

/// The line that the new-client hook writes for a window of class `wm_class`.
pub fn new_client_message(wm_class: &String) -> (r: String)
    ensures
        r@ == "new client with WM_CLASS='"@ + wm_class@ + "'"@,
{
    let mut r = String::from_str("new client with WM_CLASS='");
    r.append(wm_class.as_str());
    r.append("'");
    r
}

} // verus!
