//! Deciding whether a commit is signed. Making and checking signatures is left to a
//! [`Signer`] that the caller brings.

use crate::backend::{Commit, CommitData};
use vstd::prelude::*;

verus! {

/// What to do about the signature of a commit that is written.
#[derive(Clone, Copy, Debug, PartialEq, Eq, Structural)]
pub enum SignBehavior {
    /// Sign if a key is configured.
    Own,
    /// Sign in any case.
    Force,
    /// Write the commit without a signature, even if it had one.
    Drop,
}

/// The configured default and key.
#[derive(Debug)]
pub struct SignSettings {
    pub behavior: SignBehavior,
    pub key: Option<String>,
}

/// How a signature fared when it was checked.
#[derive(Clone, Copy, Debug, PartialEq, Eq, Structural)]
pub enum SigStatus {
    Good,
    Bad,
    Unknown,
}

/// The outcome of checking the signature of a commit.
#[derive(Debug)]
pub struct Verification {
    pub status: SigStatus,
    pub key: Option<String>,
    pub display: Option<String>,
}

/// Makes and checks signatures.
pub trait Signer {
    /// A signature over the fields of a commit, if one can be made with the key.
    fn sign(&self, data: &CommitData, key: &Option<String>) -> Option<Vec<u8>>;

    /// What the signature of the commit is worth, if it has one that can be checked.
    fn verify(&self, commit: &Commit) -> Option<Verification>;
}

/// The behavior that applies: the one asked for, else the configured default.
pub open spec fn effective_behavior(requested: Option<SignBehavior>, default: SignBehavior) -> SignBehavior {
    match requested {
        Some(behavior) => behavior,
        None => default,
    }
}

/// Whether a commit is signed under the behavior.
pub open spec fn signs(behavior: SignBehavior, key_present: bool) -> bool {
    match behavior {
        SignBehavior::Own => key_present,
        SignBehavior::Force => true,
        SignBehavior::Drop => false,
    }
}

/// The behavior that applies: the one asked for, else the configured default.
pub fn resolve_sign_behavior(requested: Option<SignBehavior>, settings: &SignSettings) -> (b:
    SignBehavior)
    ensures
        b == effective_behavior(requested, settings.behavior),
{
    match requested {
        Some(behavior) => behavior,
        None => settings.behavior,
    }
}

/// Whether a commit is signed under the behavior and the settings.
pub fn should_sign(behavior: SignBehavior, settings: &SignSettings) -> (b: bool)
    ensures
        b == signs(behavior, settings.key.is_some()),
{
    match behavior {
        SignBehavior::Own => settings.key.is_some(),
        SignBehavior::Force => true,
        SignBehavior::Drop => false,
    }
}

/// The signature that a commit is written with, given what the signer made of it: none
/// unless the behavior says to sign and the signer made one.
pub fn signature_to_write(
    behavior: SignBehavior,
    settings: &SignSettings,
    made: Option<Vec<u8>>,
) -> (r: Option<Vec<u8>>)
    ensures
        r == (if signs(behavior, settings.key.is_some()) {
            made
        } else {
            None
        }),
{
    if should_sign(behavior, settings) {
        made
    } else {
        None
    }
}

} // verus!
