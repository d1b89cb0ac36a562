//! The names of the arguments, methods and keys of the system contract that
//! handles payment.
use vstd::prelude::*;

verus! {

/// Named constant for `purse`.
pub const ARG_PURSE: &'static str = "purse";

/// Named constant for `amount`.
pub const ARG_AMOUNT: &'static str = "amount";

/// Named constant for `source`.
pub const ARG_ACCOUNT: &'static str = "account";

/// Named constant for `target`.
pub const ARG_TARGET: &'static str = "target";

/// Named constant for method `get_payment_purse`.
pub const METHOD_GET_PAYMENT_PURSE: &'static str = "get_payment_purse";

/// Named constant for method `set_refund_purse`.
pub const METHOD_SET_REFUND_PURSE: &'static str = "set_refund_purse";

/// Named constant for method `finalize_payment`.
pub const METHOD_FINALIZE_PAYMENT: &'static str = "finalize_payment";

/// Storage for handle payment contract hash.
pub const CONTRACT_HASH_KEY: &'static str = "contract_hash";

/// Storage for handle payment access key.
pub const CONTRACT_ACCESS_KEY: &'static str = "access_key";

/// The uref name where the Handle Payment accepts payment for computation on behalf of validators.
pub const PAYMENT_PURSE_KEY: &'static str = "payment_purse";

/// The uref name where the Handle Payment will refund unused payment back to the user. The uref
/// this name corresponds to is set by the user.
pub const REFUND_PURSE_KEY: &'static str = "refund_purse";

} // verus!
