use vstd::prelude::*;

verus! {

/// Build metadata of the library, as compact JSON.
pub fn build_info_json() -> (r: &'static str)
    ensures
        r@ == "{\"schema_version\":1,\"package_version\":\"0.1.0\"}"@,
{
    "{\"schema_version\":1,\"package_version\":\"0.1.0\"}"
}

} // verus!
