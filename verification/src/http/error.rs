//! The error page renderer used by the HTTP layer.
use vstd::prelude::*;
use crate::utils::templates::error_page;

verus! {

/// Renders the error page for a status code and a message.
pub fn render_error(code: &str, message: &str) -> (r: Vec<u8>)
    ensures
        r@ == error_page(code@, message@),
{
    crate::utils::templates::render_error(code, message)
}

} // verus!
