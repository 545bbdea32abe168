//! Counters of verification outcomes.
use vstd::prelude::*;

verus! {

/// Why a frame failed verification.
#[derive(Clone, Copy, Debug, PartialEq, Eq, Structural)]
pub enum ErrorType {
    InvalidSignature,
    MissingKey,
    RepoNotFound,
    MalformedCbor,
}

/// Running totals of verification outcomes; each saturates at `u64::MAX`.
pub struct EventCounts {
    pub total: u64,
    pub verified: u64,
    pub failed_sig: u64,
    pub failed_missing: u64,
    pub failed_other: u64,
    pub k256_count: u64,
    pub p256_count: u64,
}

/// `x + 1`, held at `u64::MAX`.
pub open spec fn bump(x: u64) -> u64 {
    if x < u64::MAX { (x + 1) as u64 } else { x }
}

impl EventCounts {
    /// All counts zero.
    pub fn new() -> (r: Self)
        ensures
            r.total == 0 && r.verified == 0 && r.failed_sig == 0 && r.failed_missing == 0 && r.failed_other == 0
                && r.k256_count == 0 && r.p256_count == 0,
    {
        EventCounts { total: 0, verified: 0, failed_sig: 0, failed_missing: 0, failed_other: 0, k256_count: 0, p256_count: 0 }
    }

    /// Counts one frame: a success by its key type (1 secp256k1, 2 P-256), a failure by
    /// its error (invalid signature, missing key, or anything else).
    pub fn record_event(&mut self, success: bool, error: Option<ErrorType>, key_type: Option<u8>)
        ensures
            final(self).total == bump(old(self).total),
            final(self).verified == if success { bump(old(self).verified) } else { old(self).verified },
            final(self).k256_count == if success && key_type == Some(1u8) { bump(old(self).k256_count) } else { old(self).k256_count },
            final(self).p256_count == if success && key_type == Some(2u8) { bump(old(self).p256_count) } else { old(self).p256_count },
            final(self).failed_sig == if !success && error == Some(ErrorType::InvalidSignature) {
                bump(old(self).failed_sig)
            } else {
                old(self).failed_sig
            },
            final(self).failed_missing == if !success && error == Some(ErrorType::MissingKey) {
                bump(old(self).failed_missing)
            } else {
                old(self).failed_missing
            },
            final(self).failed_other == if !success && error != Some(ErrorType::InvalidSignature) && error != Some(
                ErrorType::MissingKey,
            ) {
                bump(old(self).failed_other)
            } else {
                old(self).failed_other
            },
    {
        self.total = self.total.saturating_add(1);
        if success {
            self.verified = self.verified.saturating_add(1);
            match key_type {
                Some(1) => self.k256_count = self.k256_count.saturating_add(1),
                Some(2) => self.p256_count = self.p256_count.saturating_add(1),
                _ => {},
            }
        } else {
            match error {
                Some(ErrorType::InvalidSignature) => self.failed_sig = self.failed_sig.saturating_add(1),
                Some(ErrorType::MissingKey) => self.failed_missing = self.failed_missing.saturating_add(1),
                _ => self.failed_other = self.failed_other.saturating_add(1),
            }
        }
    }
}

} // verus!
