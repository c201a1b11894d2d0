//! The state of the account: whom a token belongs to.

use vstd::prelude::*;

verus! {

/// The most bytes of an answer with the state of the account in it.
pub const MAX_BODY_BYTES: usize = 1_048_576;

/// What is said of an answer to nobody.
pub const ANONYMOUS: &'static str =
    "в ответе account/status нет uid: ответ анонимный, токен не принят — см. README";

/// The state of the account.
#[derive(Debug)]
pub struct Status {
    pub account: Account,
    pub plus: Option<Plus>,
}

/// An account.
#[derive(Debug)]
pub struct Account {
    pub uid: Option<u64>,
    pub login: Option<String>,
    pub display_name: Option<String>,
    pub region: Option<u32>,
    pub service_available: Option<bool>,
}

/// A subscription.
#[derive(Debug)]
pub struct Plus {
    pub has_plus: Option<bool>,
}

impl Status {
    /// The owner of the token. An answer without one is an answer to nobody: the
    /// token was not accepted.
    pub fn uid(&self) -> (r: Result<u64, &'static str>)
        ensures
            match self.account.uid {
                Some(uid) => r == Ok::<u64, &'static str>(uid),
                None => r matches Err(reason) && reason@ == ANONYMOUS@,
            },
    {
        match self.account.uid {
            Some(uid) => Ok(uid),
            None => Err(ANONYMOUS),
        }
    }

    /// Whether there is a subscription, if that is known.
    pub fn has_plus(&self) -> (r: Option<bool>)
        ensures
            r == match self.plus {
                Some(plus) => plus.has_plus,
                None => None,
            },
    {
        match &self.plus {
            Some(plus) => plus.has_plus,
            None => None,
        }
    }
}

} // verus!
