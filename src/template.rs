use vstd::prelude::*;

verus! {

/// The canonical page extraction template, as raw JSON text.
pub fn extraction_template_json() -> (r: &'static str)
    ensures
        r@ == TEMPLATE@,
{
    TEMPLATE
}

/// The page extraction template: one entry per line item, each with a description
/// that is still to be filled in.
pub const TEMPLATE: &'static str = "{\"items\":[{\"pending_description\":\"\",\"quantity\":null,\"amount\":null}]}";

} // verus!
