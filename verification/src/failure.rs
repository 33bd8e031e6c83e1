//! The failure detector's memory: when each peer was last seen failing.
//!
//! A peer is *suspected down* while the time elapsed since its recorded
//! failure has not passed a fixed cool-down window. The clock enters as
//! a plain seconds count supplied by the caller; nothing here reads time
//! itself.
use vstd::prelude::*;
use vstd::hash_map::StringHashMap;

verus! {

/// How long a peer stays suspected after an observed failure, in seconds.
pub const FAILURE_WINDOW_SECS: u64 = 100;

/// Per-node table mapping a peer's node id to the instant it was last
/// observed failing, in seconds.
pub struct TimeoutTable {
    server_timestamp: StringHashMap<u64>,
}

/// Whether a peer whose failures are recorded in `m` is suspected down
/// at instant `now`: the time elapsed since its last recorded failure
/// (zero if the clock ran backwards) has not passed `window`. A peer
/// never seen failing is treated as having failed at instant zero.
pub open spec fn suspected(m: Map<Seq<char>, u64>, id: Seq<char>, window: u64, now: u64) -> bool {
    let last = if m.dom().contains(id) {
        m[id]
    } else {
        0u64
    };
    let elapsed = if last <= now {
        now - last
    } else {
        0int
    };
    elapsed <= window
}

impl View for TimeoutTable {
    type V = Map<Seq<char>, u64>;

    closed spec fn view(&self) -> Map<Seq<char>, u64> {
        self.server_timestamp@
    }
}

impl TimeoutTable {
    /// An empty table: no peer has ever been seen failing.
    pub fn new() -> (r: TimeoutTable)
        ensures
            r@ == Map::<Seq<char>, u64>::empty(),
    {
        TimeoutTable { server_timestamp: StringHashMap::new() }
    }

    /// Records a failure of this peer at instant `now`.
    pub fn update_timestamp(&mut self, server_id: &str, now: u64)
        ensures
            final(self)@ == old(self)@.insert(server_id@, now),
    {
        self.server_timestamp.insert(server_id.to_owned(), now);
    }

    /// Whether the peer is still inside its failure-suspicion cool-down
    /// of `timeout_secs` at instant `now`.
    pub fn is_timed_out(&self, server_id: &str, timeout_secs: u64, now: u64) -> (r: bool)
        ensures
            r == suspected(self@, server_id@, timeout_secs, now),
    {
        let last = match self.server_timestamp.get(server_id) {
            Some(t) => *t,
            None => 0,
        };
        let elapsed = if last <= now {
            now - last
        } else {
            0
        };
        elapsed <= timeout_secs
    }
}

} // verus!
