//! The scan coordinator: which scan is active, the identity the next scan
//! gets, and the watch generation that tells a live watcher whether it has
//! been superseded.
//!
//! The coordinator holds no lock and no cancellation flag itself: its owner
//! keeps it behind one lock, beside the active scan's flag, and raises that
//! flag whenever a call here says that a scan is to stop.
use vstd::prelude::*;

verus! {

/// The number of distinct `u64` values.
pub open spec fn u64_count() -> int {
    0x1_0000_0000_0000_0000
}

/// `x + 1`, wrapping round to 0 after `u64::MAX`.
pub open spec fn next_u64(x: u64) -> u64 {
    if x == u64::MAX {
        0
    } else {
        (x + 1) as u64
    }
}

/// The generation after `k` more scans were started from generation `g`.
pub open spec fn generation_after(g: u64, k: nat) -> u64 {
    ((g + k) % u64_count()) as u64
}

/// The process-wide control state of scans.
pub struct ScanState {
    next_id: u64,
    active_id: Option<u64>,
    watch_generation: u64,
}

/// What starting a scan decided.
pub struct ScanStart {
    /// The identity of the new scan.
    pub scan_id: u64,
    /// The watch generation that belongs to the new scan.
    pub generation: u64,
    /// Whether a scan was active and is now to be cancelled.
    pub cancel_previous: bool,
}

impl ScanState {
    /// The identity the next scan gets.
    pub closed spec fn upcoming_id(&self) -> u64 {
        self.next_id
    }

    /// The scan that has not finished yet, if any.
    pub closed spec fn active(&self) -> Option<u64> {
        self.active_id
    }

    /// The live watch generation.
    pub closed spec fn generation(&self) -> u64 {
        self.watch_generation
    }

    /// Starts a scan: a scan that was active is to be cancelled, the new one
    /// takes the next identity and becomes the active scan, and the watch
    /// generation moves on, so that every watcher started before is stale.
    pub fn begin_scan(&mut self) -> (r: ScanStart)
        ensures
            r.cancel_previous == (old(self).active() is Some),
            r.scan_id == old(self).upcoming_id(),
            final(self).upcoming_id() == next_u64(old(self).upcoming_id()),
            final(self).active() == Some(r.scan_id),
            final(self).generation() == next_u64(old(self).generation()),
            r.generation == final(self).generation(),
    {
        let cancel_previous = self.active_id.is_some();
        let scan_id = self.next_id;
        self.next_id = self.next_id.wrapping_add(1);
        self.watch_generation = self.watch_generation.wrapping_add(1);
        self.active_id = Some(scan_id);
        ScanStart { scan_id, generation: self.watch_generation, cancel_previous }
    }

    /// Cancels the scan `scan_id` if it is the active one, and says whether it
    /// was; a finished or unknown scan is left alone.
    pub fn cancel(&mut self, scan_id: u64) -> (r: bool)
        ensures
            r == (old(self).active() == Some(scan_id)),
            r ==> final(self).active() is None,
            !r ==> final(self).active() == old(self).active(),
            final(self).upcoming_id() == old(self).upcoming_id(),
            final(self).generation() == old(self).generation(),
    {
        if self.active_id == Some(scan_id) {
            self.active_id = None;
            true
        } else {
            false
        }
    }

    /// Records that the scan `scan_id` has ended. It stops being the active
    /// scan only if it still is: an older scan that ends late leaves a newer
    /// one in place.
    pub fn finish(&mut self, scan_id: u64)
        ensures
            final(self).active() == if old(self).active() == Some(scan_id) {
                None
            } else {
                old(self).active()
            },
            final(self).upcoming_id() == old(self).upcoming_id(),
            final(self).generation() == old(self).generation(),
    {
        if self.active_id == Some(scan_id) {
            self.active_id = None;
        }
    }

    /// Whether a watcher that captured `generation` is still the current one.
    pub fn is_current(&self, generation: u64) -> (r: bool)
        ensures
            r == (generation == self.generation()),
    {
        self.watch_generation == generation
    }

    /// Whether a scan that ended, cancelled or not, with the watch generation
    /// `generation` captured when it started, gets a live watcher: only if it
    /// was not cancelled and no scan has started since.
    pub fn should_start_watcher(&self, cancelled: bool, generation: u64) -> (r: bool)
        ensures
            r == (!cancelled && generation == self.generation()),
    {
        !cancelled && self.is_current(generation)
    }
}

impl Default for ScanState {
    fn default() -> (r: ScanState)
        ensures
            r.upcoming_id() == 1,
            r.active() is None,
            r.generation() == 0,
    {
        ScanState { next_id: 1, active_id: None, watch_generation: 0 }
    }
}

/// The live watch generation of `state`.
pub fn watch_generation(state: &ScanState) -> (r: u64)
    ensures
        r == state.generation(),
{
    state.watch_generation
}

/// Starting a scan moves the generation on by one, wrapping round.
pub proof fn lemma_generation_step(g: u64, k: nat)
    ensures
        generation_after(g, 0) == g,
        next_u64(generation_after(g, k)) == generation_after(g, k + 1),
{
    let m = u64_count();
    assert(generation_after(g, 0) == g);
    let a = (g + k) % m;
    assert(0 <= a < m);
    assert((a + 1) % m == (g + k + 1) % m) by {
        vstd::arithmetic::div_mod::lemma_add_mod_noop(g + k, 1, m);
        vstd::arithmetic::div_mod::lemma_mod_twice(g + k, m);
        vstd::arithmetic::div_mod::lemma_add_mod_noop(a, 1, m);
        vstd::arithmetic::div_mod::lemma_small_mod(1, m as nat);
    }
    if a == u64::MAX {
        assert((a + 1) % m == 0) by {
            vstd::arithmetic::div_mod::lemma_mod_self_0(m);
        }
    } else {
        assert((a + 1) % m == a + 1) by {
            vstd::arithmetic::div_mod::lemma_small_mod((a + 1) as nat, m as nat);
        }
    }
}

/// A watcher goes stale when a scan starts after it: once the generation it
/// captured has moved on by any number of starts short of a full wrap round
/// of `u64`, it no longer matches, and the watcher stops at its next
/// notification.
pub proof fn lemma_new_scan_supersedes_watcher(g: u64, k: nat)
    requires
        0 < k < u64_count(),
    ensures
        generation_after(g, k) != g,
{
    let m = u64_count();
    if g + k < m {
        vstd::arithmetic::div_mod::lemma_small_mod((g + k) as nat, m as nat);
    } else {
        vstd::arithmetic::div_mod::lemma_mod_sub_multiples_vanish(g + k, m);
        vstd::arithmetic::div_mod::lemma_small_mod((g + k - m) as nat, m as nat);
    }
}

} // verus!
