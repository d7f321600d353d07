//! Access decisions on the real-time path: grant on a match of either
//! credential form, back off after denials, and on a miss ask for a sync and
//! check the scan again once it completes.
use vstd::prelude::*;

verus! {

/// Backoff after the `failed`-th denial in a row: 1 s, 2 s, 4 s, then 8 s.
pub open spec fn backoff_ms_spec(failed: u8) -> u64 {
    if failed == 0 {
        1000
    } else if failed == 1 {
        2000
    } else if failed == 2 {
        4000
    } else {
        8000
    }
}

/// Backoff after `failed` denials in a row.
pub fn backoff_ms(failed: u8) -> (r: u64)
    ensures
        r == backoff_ms_spec(failed),
{
    let shift: u64 = if failed < 3 {
        failed as u64
    } else {
        3
    };
    let base: u64 = 1u64 << shift;
    assert(base == (if failed == 0 {
        1u64
    } else if failed == 1 {
        2u64
    } else if failed == 2 {
        4u64
    } else {
        8u64
    })) by (bit_vector)
        requires
            shift == (if failed < 3 {
                failed as u64
            } else {
                3u64
            }),
            base == 1u64 << shift,
    ;
    base * 1000
}

/// A scan waiting for a sync before it is checked again.
#[derive(Debug, Clone, Copy, PartialEq, Eq, Structural)]
pub struct PendingScan {
    pub fob: u32,
    pub nfc: u32,
    pub scan_time: u64,
}

/// What to do with a fresh scan.
#[derive(Debug, Clone, Copy, PartialEq, Eq, Structural)]
pub enum ScanAction {
    /// Within the backoff window: ignore it.
    Ignored,
    /// Record an allowed event for `credential` and pulse the door.
    Grant { credential: u32 },
    /// Not recognized: request a sync; the scan waits to be checked again
    /// once it completes, and its event is recorded then. A scan that was
    /// already waiting is superseded: it will not be checked again, so a
    /// denied event for its credential `superseded` is recorded now.
    Deny { superseded: Option<u32> },
}

/// The outcome of checking a waiting scan after a sync.
#[derive(Debug, Clone, Copy, PartialEq, Eq, Structural)]
pub struct RecheckResult {
    /// Record an event for this credential with this outcome.
    pub credential: u32,
    pub allowed: bool,
}

/// Decision state of the real-time path.
pub struct AccessControl {
    backoff_until: u64,
    failed_attempts: u8,
    pending: Option<PendingScan>,
}

impl AccessControl {
    /// Scans are ignored before this time (ms).
    pub closed spec fn backoff_until_spec(&self) -> u64 {
        self.backoff_until
    }

    /// Denials in a row.
    pub closed spec fn failed_spec(&self) -> u8 {
        self.failed_attempts
    }

    /// The scan waiting for a sync.
    pub closed spec fn pending_spec(&self) -> Option<PendingScan> {
        self.pending
    }

    /// No backoff, no denials, nothing waiting.
    pub fn new() -> (r: AccessControl)
        ensures
            r.backoff_until_spec() == 0,
            r.failed_spec() == 0,
            r.pending_spec() is None,
    {
        AccessControl { backoff_until: 0, failed_attempts: 0, pending: None }
    }

    /// Decides on a scan at `now` of credential forms `fob` and `nfc`, given
    /// whether the cache holds each. A match on either grants; the fob form
    /// is reported when it matched. A denied scan waits for the sync it
    /// requests and replaces any scan already waiting; every scan yields
    /// exactly one event, from `Grant`, from `superseded`, or from `on_recheck`.
    pub fn on_scan(
        &mut self,
        now: u64,
        fob: u32,
        nfc: u32,
        fob_allowed: bool,
        nfc_allowed: bool,
    ) -> (r: ScanAction)
        ensures
            now < old(self).backoff_until_spec() ==> r == ScanAction::Ignored && *final(self)
                == *old(self),
            now >= old(self).backoff_until_spec() && fob_allowed ==> r == (ScanAction::Grant {
                credential: fob,
            }),
            now >= old(self).backoff_until_spec() && !fob_allowed && nfc_allowed ==> r == (
            ScanAction::Grant { credential: nfc }),
            r is Grant ==> final(self).failed_spec() == 0 && final(self).pending_spec()
                == old(self).pending_spec() && final(self).backoff_until_spec() == old(
                self,
            ).backoff_until_spec(),
            now >= old(self).backoff_until_spec() && !fob_allowed && !nfc_allowed ==> {
                &&& r == (ScanAction::Deny {
                    superseded: match old(self).pending_spec() {
                        Some(p) => Some(p.fob),
                        None => None,
                    },
                })
                &&& final(self).pending_spec() == Some(PendingScan { fob, nfc, scan_time: now })
                &&& final(self).failed_spec() == old(self).failed_spec()
                &&& final(self).backoff_until_spec() == old(self).backoff_until_spec()
            },
    {
        if now < self.backoff_until {
            return ScanAction::Ignored;
        }
        if fob_allowed || nfc_allowed {
            self.failed_attempts = 0;
            let credential = if fob_allowed {
                fob
            } else {
                nfc
            };
            return ScanAction::Grant { credential };
        }
        let superseded = match self.pending {
            Some(p) => Some(p.fob),
            None => None,
        };
        self.pending = Some(PendingScan { fob, nfc, scan_time: now });
        ScanAction::Deny { superseded }
    }

    /// Takes the waiting scan once the requested sync has completed.
    pub fn take_recheck(&mut self, sync_done: bool) -> (r: Option<PendingScan>)
        ensures
            sync_done ==> r == old(self).pending_spec() && final(self).pending_spec() is None,
            !sync_done ==> r is None && final(self).pending_spec() == old(self).pending_spec(),
            final(self).failed_spec() == old(self).failed_spec(),
            final(self).backoff_until_spec() == old(self).backoff_until_spec(),
    {
        if sync_done {
            let p = self.pending;
            self.pending = None;
            p
        } else {
            None
        }
    }

    /// Decides on a scan checked again after a sync: the caller records one
    /// event for `credential` with the outcome `allowed` (and pulses the door
    /// on a grant). A denial counts toward the backoff, which then runs from
    /// the time of the scan.
    pub fn on_recheck(&mut self, scan: PendingScan, fob_allowed: bool, nfc_allowed: bool) -> (r:
        RecheckResult)
        ensures
            r.allowed == (fob_allowed || nfc_allowed),
            r.credential == if fob_allowed {
                scan.fob
            } else {
                scan.nfc
            },
            final(self).pending_spec() == old(self).pending_spec(),
            r.allowed ==> final(self).failed_spec() == 0 && final(self).backoff_until_spec() == old(
                self,
            ).backoff_until_spec(),
            !r.allowed ==> {
                let f = if old(self).failed_spec() == u8::MAX {
                    u8::MAX
                } else {
                    (old(self).failed_spec() + 1) as u8
                };
                &&& final(self).failed_spec() == f
                &&& final(self).backoff_until_spec() == if scan.scan_time + backoff_ms_spec(f)
                    <= u64::MAX {
                    (scan.scan_time + backoff_ms_spec(f)) as u64
                } else {
                    u64::MAX
                }
            },
    {
        let allowed = fob_allowed || nfc_allowed;
        let credential = if fob_allowed {
            scan.fob
        } else {
            scan.nfc
        };
        if allowed {
            self.failed_attempts = 0;
        } else {
            self.failed_attempts = self.failed_attempts.saturating_add(1);
            self.backoff_until = scan.scan_time.saturating_add(backoff_ms(self.failed_attempts));
        }
        RecheckResult { credential, allowed }
    }
}

} // verus!
