use crate::codec::VerifyError;
use vstd::prelude::*;

verus! {

/// The storage prefixes of the loan ledger.
#[derive(Clone, Copy, Debug, PartialEq, Eq, Structural)]
pub enum StorageKey {
    LoanStatus,
}

/// The loan status of one account.
pub struct LoanStatus {
    pub account_id: String,
    pub approved: bool,
}

/// The status that a verdict leaves for the caller's account: approved when the proof is
/// accepted, rejected when it is refused, and no change when the request was malformed.
pub open spec fn status_for(verdict: Result<bool, VerifyError>) -> Option<bool> {
    match verdict {
        Ok(accepted) => Some(accepted),
        Err(_) => None,
    }
}

pub fn status_after(verdict: &Result<bool, VerifyError>) -> (r: Option<bool>)
    ensures
        r == status_for(*verdict),
{
    match verdict {
        Ok(accepted) => Some(*accepted),
        Err(_) => None,
    }
}

impl LoanStatus {
    pub fn new(account_id: String, approved: bool) -> (r: LoanStatus)
        ensures
            r.account_id@ == account_id@,
            r.approved == approved,
    {
        LoanStatus { account_id, approved }
    }
}

} // verus!
