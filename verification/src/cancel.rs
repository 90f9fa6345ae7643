//! Cooperative cancellation, through tokio-util's `CancellationToken`.
use vstd::prelude::*;

use tokio_util::sync::CancellationToken;

verus! {

#[verifier::external_type_specification]
#[verifier::external_body]
pub struct ExCancellationToken(CancellationToken);

/// `CancellationToken::is_cancelled`: whether the token has been cancelled.
/// Another thread may cancel it at any moment, so nothing is stated of the
/// result: two calls may differ.
#[verifier::external_body]
pub(crate) fn is_cancelled(ct: &CancellationToken) -> (r: bool) {
    ct.is_cancelled()
}

} // verus!
