//! The per-node coordination logic: message classification, the shard
//! map, and the write-replication and quorum-read protocols.
//!
//! All peer traffic is a single string frame. The node decides; the
//! caller performs the sends and feeds outcomes back, so every decision
//! here is a verified function of node state and the event it is given.
use vstd::prelude::*;
use crate::crdt::AWSet;
use crate::crdt::AWSetView;
use crate::crdt::merge_abs;
use crate::failure::TimeoutTable;
use crate::failure::suspected;
use crate::strutil::chars_string;
use crate::strutil::str_chars;

verus! {

/// The write quorum: acknowledgments required among the non-owner
/// replicas for a write to succeed.
pub const WRITE_QUORUM: u32 = 2;

/// The read quorum: replica responses required for a quorum read.
pub const READ_QUORUM: u32 = 2;

// ------------------------------------------------------------------
// The shard map: one node's lists, keyed by their ids.
// ------------------------------------------------------------------

pub open spec fn sh_has(s: Seq<AWSetView>, k: Seq<char>) -> bool {
    exists|i: int| 0 <= i < s.len() && (#[trigger] s[i]).id == k
}

pub open spec fn sh_idx(s: Seq<AWSetView>, k: Seq<char>) -> int {
    choose|i: int| 0 <= i < s.len() && (#[trigger] s[i]).id == k
}

pub open spec fn sh_at(s: Seq<AWSetView>, k: Seq<char>) -> AWSetView {
    s[sh_idx(s, k)]
}

pub open spec fn sh_uniq(s: Seq<AWSetView>) -> bool {
    forall|i: int, j: int| 0 <= i < j < s.len() ==> (#[trigger] s[i]).id != (#[trigger] s[j]).id
}

/// The map a shard vector stands for, keyed by list id.
pub open spec fn sh_map(s: Seq<AWSetView>) -> Map<Seq<char>, AWSetView> {
    Map::new(|k: Seq<char>| sh_has(s, k), |k: Seq<char>| sh_at(s, k))
}

/// An entry of a duplicate-free shard vector is what lookup finds.
proof fn lemma_sh_entry(s: Seq<AWSetView>, i: int)
    requires
        sh_uniq(s),
        0 <= i < s.len(),
    ensures
        sh_has(s, s[i].id),
        sh_idx(s, s[i].id) == i,
        sh_at(s, s[i].id) == s[i],
{
    assert(sh_has(s, s[i].id)) by {
        assert(0 <= i < s.len() && s[i].id == s[i].id);
    }
    let j = sh_idx(s, s[i].id);
    if i < j {
        assert(s[i].id != s[j].id);
    } else if j < i {
        assert(s[j].id != s[i].id);
    }
}

/// Replacing the entry that already carries a key sets that key's set.
proof fn lemma_sh_update(s: Seq<AWSetView>, i: int, v: AWSetView)
    requires
        sh_uniq(s),
        0 <= i < s.len(),
        s[i].id == v.id,
    ensures
        sh_uniq(s.update(i, v)),
        sh_map(s.update(i, v)) == sh_map(s).insert(v.id, v),
{
    let s2 = s.update(i, v);
    assert forall|x: Seq<char>| true implies {
        &&& sh_has(s2, x) == sh_map(s).insert(v.id, v).dom().contains(x)
        &&& (sh_has(s2, x) ==> sh_at(s2, x) == sh_map(s).insert(v.id, v)[x])
    } by {
        if x == v.id {
            lemma_sh_entry(s2, i);
        } else {
            if sh_has(s, x) {
                let j = sh_idx(s, x);
                lemma_sh_entry(s, j);
                assert(s2[j] == s[j]);
                lemma_sh_entry(s2, j);
            }
            if sh_has(s2, x) {
                let j = sh_idx(s2, x);
                lemma_sh_entry(s2, j);
                assert(s[j].id == x);
                lemma_sh_entry(s, j);
            }
        }
    }
    assert(sh_map(s2) =~= sh_map(s).insert(v.id, v));
}

/// Appending a set of a fresh id extends the map by that id.
proof fn lemma_sh_push(s: Seq<AWSetView>, v: AWSetView)
    requires
        sh_uniq(s),
        !sh_has(s, v.id),
    ensures
        sh_uniq(s.push(v)),
        sh_map(s.push(v)) == sh_map(s).insert(v.id, v),
{
    let s2 = s.push(v);
    assert(s2[s.len() as int].id == v.id);
    assert forall|i: int, j: int|
        0 <= i < j < s2.len() implies (#[trigger] s2[i]).id != (#[trigger] s2[j]).id by {
        if j < s.len() {
            assert(s2[i] == s[i] && s2[j] == s[j]);
        } else {
            assert(s2[j] == v && s2[i] == s[i]);
            if s[i].id == v.id {
                assert(sh_has(s, v.id));
            }
        }
    }
    assert forall|x: Seq<char>| true implies {
        &&& sh_has(s2, x) == sh_map(s).insert(v.id, v).dom().contains(x)
        &&& (sh_has(s2, x) ==> sh_at(s2, x) == sh_map(s).insert(v.id, v)[x])
    } by {
        if x == v.id {
            lemma_sh_entry(s2, s.len() as int);
        } else {
            if sh_has(s, x) {
                let j = sh_idx(s, x);
                lemma_sh_entry(s, j);
                assert(s2[j] == s[j]);
                lemma_sh_entry(s2, j);
            }
            if sh_has(s2, x) {
                let j = sh_idx(s2, x);
                lemma_sh_entry(s2, j);
                assert(j < s.len());
                assert(s[j].id == x);
                lemma_sh_entry(s, j);
            }
        }
    }
    assert(sh_map(s2) =~= sh_map(s).insert(v.id, v));
}

/// One node's lists. Every stored set is well-formed and stands under
/// its own id; the in-memory map is the node's write cache of the
/// persisted shard file.
pub struct ShardMap {
    lists: Vec<AWSet>,
}

impl View for ShardMap {
    type V = Seq<AWSetView>;

    closed spec fn view(&self) -> Seq<AWSetView> {
        Seq::new(self.lists@.len(), |i: int| self.lists@[i]@)
    }
}

impl ShardMap {
    /// No id repeats, and every stored set is well-formed.
    pub open spec fn wf(self) -> bool {
        sh_uniq(self@) && forall|i: int| 0 <= i < self@.len() ==> (#[trigger] self@[i]).wf()
    }

    /// The lists as a map from id to set value.
    pub open spec fn as_map(self) -> Map<Seq<char>, AWSetView> {
        sh_map(self@)
    }

    /// An empty shard map.
    pub fn new() -> (r: ShardMap)
        ensures
            r.wf(),
            r@.len() == 0,
            r.as_map() == Map::<Seq<char>, AWSetView>::empty(),
    {
        let r = ShardMap { lists: Vec::new() };
        proof {
            assert(r@ =~= Seq::<AWSetView>::empty());
            assert(r.as_map() =~= Map::<Seq<char>, AWSetView>::empty());
        }
        r
    }

    /// How many lists are stored.
    pub fn count(&self) -> (r: usize)
        ensures
            r == self@.len(),
    {
        self.lists.len()
    }

    /// The stored set at one storage index.
    pub fn at(&self, i: usize) -> (r: &AWSet)
        requires
            i < self@.len(),
        ensures
            r@ == self@[i as int],
    {
        &self.lists[i]
    }

    /// Looks a list up by id.
    pub fn get(&self, key: &String) -> (r: Option<&AWSet>)
        requires
            self.wf(),
        ensures
            match r {
                Some(s) => self.as_map().dom().contains(key@) && s@ == self.as_map()[key@],
                None => !self.as_map().dom().contains(key@),
            },
    {
        let mut i: usize = 0;
        while i < self.lists.len()
            invariant
                i <= self.lists.len(),
                self.wf(),
                forall|j: int| 0 <= j < i ==> (#[trigger] self@[j]).id != key@,
            decreases self.lists@.len() - i,
        {
            if self.lists[i].id_is(key) {
                proof {
                    lemma_sh_entry(self@, i as int);
                }
                return Some(&self.lists[i]);
            }
            i = i + 1;
        }
        proof {
            if sh_has(self@, key@) {
                let j = sh_idx(self@, key@);
                assert(0 <= j < self@.len() && self@[j].id == key@);
            }
        }
        None
    }

    /// Stores a set under its own id, replacing any previous copy: a
    /// replica accepts the pushed state as authoritative, it does not
    /// merge on receipt.
    pub fn put(&mut self, set: AWSet)
        requires
            old(self).wf(),
            set@.wf(),
        ensures
            final(self).wf(),
            final(self).as_map() == old(self).as_map().insert(set@.id, set@),
    {
        let ghost sv = set@;
        let key = set.id_string();
        let mut i: usize = 0;
        while i < self.lists.len()
            invariant
                i <= self.lists.len(),
                self@ == old(self)@,
                self.wf(),
                set@ == sv,
                sv.wf(),
                key@ == sv.id,
                forall|j: int| 0 <= j < i ==> (#[trigger] self@[j]).id != key@,
            decreases self.lists@.len() - i,
        {
            if self.lists[i].id_is(&key) {
                let ghost pre = self@;
                proof {
                    lemma_sh_entry(self@, i as int);
                }
                self.lists.remove(i);
                self.lists.insert(i, set);
                proof {
                    assert(self@ =~= pre.update(i as int, sv));
                    lemma_sh_update(pre, i as int, sv);
                    assert forall|k2: int|
                        0 <= k2 < self@.len() implies (#[trigger] self@[k2]).wf() by {
                        if k2 != i as int {
                            assert(self@[k2] == pre[k2]);
                            assert(pre[k2].wf());
                        } else {
                            assert(self@[k2] == sv);
                        }
                    }
                }
                return;
            }
            i = i + 1;
        }
        proof {
            if sh_has(self@, key@) {
                let j = sh_idx(self@, key@);
                assert(0 <= j < self@.len() && self@[j].id == key@);
            }
        }
        let ghost pre = self@;
        self.lists.push(set);
        proof {
            assert(self@ =~= pre.push(sv));
            lemma_sh_push(pre, sv);
            assert forall|k2: int|
                0 <= k2 < self@.len() implies (#[trigger] self@[k2]).wf() by {
                if k2 < pre.len() {
                    assert(self@[k2] == pre[k2]);
                }
            }
        }
    }
}

// ------------------------------------------------------------------
// Message classification.
// ------------------------------------------------------------------

/// One inbound peer frame, classified by its leading keyword.
pub enum PeerMessage {
    /// `WRITE` + a serialized set: store it as authoritative.
    Write { payload: String },
    /// `READ` + a list id: serve or coordinate a read.
    Read { key: String },
    /// `REROUTE` + a one-character node id + an inner frame to forward.
    Reroute { target: String, payload: String },
    /// Anything else: a client-style write body, a JSON object.
    Other { payload: String },
}

/// One inbound relay frame: a read request or a write body.
pub enum RelayMessage {
    /// `READ` + a list id.
    Read { key: String },
    /// Anything else: a write body, a JSON object keyed by list id.
    Other { payload: String },
}

/// Whether the frame begins with the given keyword.
fn has_prefix(cs: &Vec<char>, pat: &Vec<char>) -> (r: bool)
    ensures
        r == (cs@.len() >= pat@.len() && cs@.take(pat@.len() as int) == pat@),
{
    if cs.len() < pat.len() {
        return false;
    }
    let mut i: usize = 0;
    while i < pat.len()
        invariant
            i <= pat.len() <= cs.len(),
            forall|j: int| 0 <= j < i ==> cs@[j] == pat@[j],
        decreases pat@.len() - i,
    {
        if cs[i] != pat[i] {
            proof {
                assert(cs@.take(pat@.len() as int)[i as int] != pat@[i as int]);
            }
            return false;
        }
        i = i + 1;
    }
    proof {
        assert(cs@.take(pat@.len() as int) =~= pat@);
    }
    true
}

/// The frame's characters from one position on, as a string.
fn suffix_from(cs: &Vec<char>, from: usize) -> (r: String)
    requires
        from <= cs@.len(),
    ensures
        r@ == cs@.skip(from as int),
{
    let mut out: Vec<char> = Vec::new();
    let mut i: usize = from;
    while i < cs.len()
        invariant
            from <= i <= cs.len(),
            out@.len() == i - from,
            forall|j: int| 0 <= j < out@.len() ==> #[trigger] out@[j] == cs@[from + j],
        decreases cs@.len() - i,
    {
        out.push(cs[i]);
        i = i + 1;
    }
    proof {
        assert(out@ =~= cs@.skip(from as int));
    }
    chars_string(&out)
}

/// Classifies one peer frame by its leading keyword. A `REROUTE` frame
/// too short to carry a target and an inner frame is left as `Other`,
/// for the caller to reject.
pub fn classify_peer_message(msg: &str) -> (r: PeerMessage)
    ensures
        match r {
            PeerMessage::Write { payload } => msg@.len() >= 5 && msg@.take(5)
                == seq!['W', 'R', 'I', 'T', 'E'] && payload@ == msg@.skip(5),
            PeerMessage::Reroute { target, payload } => msg@.len() >= 8 && msg@.take(7)
                == seq!['R', 'E', 'R', 'O', 'U', 'T', 'E'] && target@ == seq![msg@[7]]
                && payload@ == msg@.skip(8),
            PeerMessage::Read { key } => msg@.len() >= 4 && msg@.take(4)
                == seq!['R', 'E', 'A', 'D'] && key@ == msg@.skip(4),
            PeerMessage::Other { payload } => payload@ == msg@ && !(msg@.len() >= 5
                && msg@.take(5) == seq!['W', 'R', 'I', 'T', 'E']) && !(msg@.len() >= 8
                && msg@.take(7) == seq!['R', 'E', 'R', 'O', 'U', 'T', 'E']) && !(msg@.len() >= 4
                && msg@.take(4) == seq!['R', 'E', 'A', 'D']),
        },
{
    let cs = str_chars(msg);
    let w: Vec<char> = vec!['W', 'R', 'I', 'T', 'E'];
    let rr: Vec<char> = vec!['R', 'E', 'R', 'O', 'U', 'T', 'E'];
    let rd: Vec<char> = vec!['R', 'E', 'A', 'D'];
    proof {
        assert(w@ =~= seq!['W', 'R', 'I', 'T', 'E']);
        assert(rr@ =~= seq!['R', 'E', 'R', 'O', 'U', 'T', 'E']);
        assert(rd@ =~= seq!['R', 'E', 'A', 'D']);
    }
    if has_prefix(&cs, &w) {
        PeerMessage::Write { payload: suffix_from(&cs, 5) }
    } else if has_prefix(&cs, &rr) && cs.len() >= 8 {
        let mut t: Vec<char> = Vec::new();
        t.push(cs[7]);
        proof {
            assert(t@ =~= seq![cs@[7]]);
        }
        PeerMessage::Reroute { target: chars_string(&t), payload: suffix_from(&cs, 8) }
    } else if has_prefix(&cs, &rd) {
        PeerMessage::Read { key: suffix_from(&cs, 4) }
    } else {
        proof {
            assert(cs@.skip(0) =~= cs@);
        }
        PeerMessage::Other { payload: suffix_from(&cs, 0) }
    }
}

/// Classifies one relay frame: a read request or a write body.
pub fn classify_relay_message(msg: &str) -> (r: RelayMessage)
    ensures
        match r {
            RelayMessage::Read { key } => msg@.len() >= 4 && msg@.take(4)
                == seq!['R', 'E', 'A', 'D'] && key@ == msg@.skip(4),
            RelayMessage::Other { payload } => payload@ == msg@ && !(msg@.len() >= 4
                && msg@.take(4) == seq!['R', 'E', 'A', 'D']),
        },
{
    let cs = str_chars(msg);
    let rd: Vec<char> = vec!['R', 'E', 'A', 'D'];
    proof {
        assert(rd@ =~= seq!['R', 'E', 'A', 'D']);
    }
    if has_prefix(&cs, &rd) {
        RelayMessage::Read { key: suffix_from(&cs, 4) }
    } else {
        proof {
            assert(cs@.skip(0) =~= cs@);
        }
        RelayMessage::Other { payload: suffix_from(&cs, 0) }
    }
}

// ------------------------------------------------------------------
// Preference lists.
// ------------------------------------------------------------------

/// The two nodes after the owner in ring order: the non-owner members
/// of the key's preference list under replication factor three.
pub fn preference_list(owner: u32, cluster_size: u32) -> (r: Vec<u32>)
    requires
        cluster_size >= 1,
        owner < cluster_size,
    ensures
        r@.len() == crate::REPLICATION_FACTOR - 1,
        forall|i: int|
            0 <= i < 2 ==> #[trigger] r@[i] == ((owner + i + 1) % (cluster_size as int)) as u32,
        forall|i: int| 0 <= i < 2 ==> #[trigger] r@[i] < cluster_size,
{
    let first = (((owner as u64) + 1) % (cluster_size as u64)) as u32;
    let second = (((owner as u64) + 2) % (cluster_size as u64)) as u32;
    let mut r: Vec<u32> = Vec::new();
    r.push(first);
    r.push(second);
    r
}

// ------------------------------------------------------------------
// The write-replication walk: sloppy quorum with hinted handoff.
// ------------------------------------------------------------------

/// What the replication walk asks the caller to do at its current ring
/// position.
pub enum WriteStep {
    /// Send the merged set as `WRITE` directly to this node.
    SendWrite { to: u32 },
    /// Ask `via`, a healthy node off the preference list, to `REROUTE`
    /// the `WRITE` to the suspected node `target` on our behalf.
    SendReroute { via: u32, target: u32 },
    /// Defer the current node: it is on the preference list but
    /// suspected down, so it joins the hint list.
    Defer,
    /// Nothing to do at this position.
    Pass,
}

/// The state of one write-replication walk around the ring. The caller
/// alternates [`WritePlan::current_step`], the send it prescribes, and
/// [`WritePlan::record_send`] / [`WritePlan::advance`], until
/// [`WritePlan::finished`].
pub struct WritePlan {
    /// The owner that started the walk; the walk stops back here.
    pub owner: u32,
    /// Cluster size; ring positions wrap at it.
    pub cluster_size: u32,
    /// The ring position under consideration.
    pub number: u32,
    /// Acknowledged sends so far.
    pub successes: u32,
    /// Preference-list nodes deferred while suspected down, oldest first.
    pub hints: Vec<u32>,
    /// The non-owner preference list.
    pub prefs: Vec<u32>,
}

impl WritePlan {
    pub open spec fn wf(self) -> bool {
        &&& self.cluster_size >= 1
        &&& self.owner < self.cluster_size
        &&& self.number < self.cluster_size
        &&& self.prefs@.len() == 2
        &&& forall|i: int| 0 <= i < self.prefs@.len() ==> #[trigger] self.prefs@[i]
            < self.cluster_size
    }

    /// The walk is over once the write quorum is met or the walk has
    /// come back around to the owner.
    pub open spec fn finished(self) -> bool {
        self.successes >= WRITE_QUORUM || self.number == self.owner
    }

    /// Starts a walk at the ring position after the owner.
    pub fn new(owner: u32, cluster_size: u32) -> (r: WritePlan)
        requires
            cluster_size >= 1,
            owner < cluster_size,
        ensures
            r.wf(),
            r.owner == owner,
            r.cluster_size == cluster_size,
            r.number == ((owner + 1) % (cluster_size as int)) as u32,
            r.successes == 0,
            r.hints@.len() == 0,
            forall|i: int|
                0 <= i < 2 ==> #[trigger] r.prefs@[i] == ((owner + i + 1) % (
                cluster_size as int)) as u32,
    {
        let prefs = preference_list(owner, cluster_size);
        let number = (((owner as u64) + 1) % (cluster_size as u64)) as u32;
        WritePlan { owner, cluster_size, number, successes: 0, hints: Vec::new(), prefs }
    }

    /// Whether the current ring position is on the preference list.
    pub fn on_pref(&self) -> (r: bool)
        ensures
            r == self.prefs@.contains(self.number),
    {
        let mut i: usize = 0;
        while i < self.prefs.len()
            invariant
                i <= self.prefs@.len(),
                forall|j: int| 0 <= j < i ==> self.prefs@[j] != self.number,
            decreases self.prefs@.len() - i,
        {
            if self.prefs[i] == self.number {
                return true;
            }
            i = i + 1;
        }
        false
    }

    /// The decision at the current ring position, exactly the sloppy-
    /// quorum rule: a live preference node is written to directly; a
    /// suspected preference node is deferred onto the hint list; a live
    /// node off the list carries one pending hint as a `REROUTE`; any
    /// other position is passed over.
    pub fn current_step(&self, table: &TimeoutTable, window: u64, now: u64) -> (s: WriteStep)
        requires
            !self.finished(),
        ensures
            ({
                let on = self.prefs@.contains(self.number);
                let sus = suspected(
                    table@,
                    crate::strutil::dec_str(self.number as nat),
                    window,
                    now,
                );
                match s {
                    WriteStep::SendWrite { to } => on && !sus && to == self.number,
                    WriteStep::Defer => on && sus,
                    WriteStep::SendReroute { via, target } => !on && !sus && via == self.number
                        && self.hints@.len() > 0 && target == self.hints@[0],
                    WriteStep::Pass => !on && (sus || self.hints@.len() == 0),
                }
            }),
    {
        let id = crate::strutil::u64_to_dec(self.number as u64);
        let sus = table.is_timed_out(id.as_str(), window, now);
        if self.on_pref() {
            if !sus {
                WriteStep::SendWrite { to: self.number }
            } else {
                WriteStep::Defer
            }
        } else if !sus && self.hints.len() > 0 {
            WriteStep::SendReroute { via: self.number, target: self.hints[0] }
        } else {
            WriteStep::Pass
        }
    }

    /// Records the outcome of a prescribed send: an acknowledged send
    /// counts toward the quorum, a failed one marks the contacted node
    /// as suspected at `now`. A send that carried a hint consumes it.
    pub fn record_send(
        &mut self,
        table: &mut TimeoutTable,
        now: u64,
        to: u32,
        carried_hint: bool,
        ok: bool,
    )
        requires
            old(self).wf(),
            carried_hint ==> old(self).hints@.len() > 0,
            old(self).successes < WRITE_QUORUM,
        ensures
            final(self).wf(),
            final(self).owner == old(self).owner,
            final(self).cluster_size == old(self).cluster_size,
            final(self).number == old(self).number,
            final(self).prefs@ == old(self).prefs@,
            final(self).successes == if ok {
                old(self).successes + 1
            } else {
                old(self).successes as int
            },
            final(self).hints@ == if carried_hint {
                old(self).hints@.drop_first()
            } else {
                old(self).hints@
            },
            final(table)@ == if ok {
                old(table)@
            } else {
                old(table)@.insert(crate::strutil::dec_str(to as nat), now)
            },
    {
        if carried_hint {
            self.hints.remove(0);
            proof {
                assert(self.hints@ =~= old(self).hints@.drop_first());
            }
        }
        if ok {
            self.successes = self.successes + 1;
        } else {
            let id = crate::strutil::u64_to_dec(to as u64);
            table.update_timestamp(id.as_str(), now);
        }
    }

    /// Defers the current node onto the hint list.
    pub fn defer_current(&mut self)
        requires
            old(self).wf(),
        ensures
            final(self).wf(),
            final(self).owner == old(self).owner,
            final(self).cluster_size == old(self).cluster_size,
            final(self).number == old(self).number,
            final(self).prefs@ == old(self).prefs@,
            final(self).successes == old(self).successes,
            final(self).hints@ == old(self).hints@.push(old(self).number),
    {
        let n = self.number;
        self.hints.push(n);
    }

    /// Moves to the next ring position, wrapping at the cluster size.
    pub fn advance(&mut self)
        requires
            old(self).wf(),
        ensures
            final(self).wf(),
            final(self).owner == old(self).owner,
            final(self).cluster_size == old(self).cluster_size,
            final(self).successes == old(self).successes,
            final(self).hints@ == old(self).hints@,
            final(self).prefs@ == old(self).prefs@,
            final(self).number == ((old(self).number + 1) % (
            old(self).cluster_size as int)) as u32,
    {
        self.number = (((self.number as u64) + 1) % (self.cluster_size as u64)) as u32;
    }

    /// Whether the walk met its quorum.
    pub fn quorum_met(&self) -> (r: bool)
        ensures
            r == (self.successes >= WRITE_QUORUM),
    {
        self.successes >= WRITE_QUORUM
    }

    /// The walk's stop rule, as executable code: run the loop on this,
    /// not on a restatement of it.
    pub fn is_finished(&self) -> (r: bool)
        ensures
            r == self.finished(),
    {
        self.successes >= WRITE_QUORUM || self.number == self.owner
    }
}

// ------------------------------------------------------------------
// The quorum read: merge replies, then repair stale replicas.
// ------------------------------------------------------------------

/// Whether two set values count as equal for repair-diffing: same list
/// id and the same stored item names. This is the store's replica
/// equality: item identity is the name alone and the causal context is
/// ignored.
pub open spec fn repair_eq(a: AWSetView, b: AWSetView) -> bool {
    a.id == b.id && crate::crdt::imap(a.items).dom() == crate::crdt::imap(b.items).dom()
}

/// The state of one quorum read run by a key's owner. The accumulator
/// starts from the owner's local copy; each parseable replica response
/// is merged in and remembered for repair-diffing afterwards.
pub struct ReadPlan {
    /// The accumulator: the owner's local copy joined with every
    /// response received so far.
    pub acc: AWSet,
    /// The parsed replica responses, in arrival order.
    pub responses: Vec<AWSet>,
    /// The node that gave each response.
    pub responders: Vec<u32>,
    /// The non-owner preference list to ask.
    pub prefs: Vec<u32>,
    /// The next preference-list position to ask.
    pub next_pref: usize,
    /// Responses counted toward the read quorum.
    pub successes: u32,
}

impl ReadPlan {
    pub open spec fn wf(self) -> bool {
        &&& self.acc@.wf()
        &&& self.responses@.len() == self.responders@.len()
        &&& self.next_pref <= self.prefs@.len()
        &&& forall|i: int| 0 <= i < self.responses@.len() ==> (#[trigger] self.responses@[i])@.wf()
    }

    /// The merged accumulator so far.
    pub open spec fn acc_view(self) -> AWSetView {
        self.acc@
    }

    /// Starts a read at the owner, seeded with its local copy; the
    /// local copy itself does not count toward the read quorum, and the
    /// walk asks the same preference list as the write fan-out: the two
    /// ring successors of the owner, in order.
    pub fn new(local: AWSet, owner: u32, cluster_size: u32) -> (r: ReadPlan)
        requires
            local@.wf(),
            cluster_size >= 1,
            owner < cluster_size,
        ensures
            r.wf(),
            r.acc_view() == local@,
            r.successes == 0,
            r.responses@.len() == 0,
            r.responders@.len() == 0,
            r.next_pref == 0,
            r.prefs@.len() == crate::REPLICATION_FACTOR - 1,
            forall|i: int|
                0 <= i < r.prefs@.len() ==> #[trigger] r.prefs@[i] == ((owner + i + 1) % (
                cluster_size as int)) as u32,
    {
        let prefs = preference_list(owner, cluster_size);
        ReadPlan {
            acc: local,
            responses: Vec::new(),
            responders: Vec::new(),
            prefs,
            next_pref: 0,
            successes: 0,
        }
    }

    /// Acknowledged responses so far.
    pub fn successes(&self) -> (r: u32)
        ensures
            r == self.successes,
    {
        self.successes
    }

    /// The next replica to ask, while the quorum is unmet and
    /// preference-list nodes remain.
    pub fn next_target(&self) -> (r: Option<u32>)
        ensures
            match r {
                Some(n) => self.successes < READ_QUORUM && self.next_pref < self.prefs@.len()
                    && n == self.prefs@[self.next_pref as int],
                None => self.successes >= READ_QUORUM || self.next_pref >= self.prefs@.len(),
            },
    {
        if self.successes >= READ_QUORUM {
            return None;
        }
        if self.next_pref >= self.prefs.len() {
            return None;
        }
        Some(self.prefs[self.next_pref])
    }

    /// Records that the current replica gave no usable response.
    pub fn record_failure(&mut self)
        requires
            old(self).wf(),
            old(self).next_pref < old(self).prefs@.len(),
        ensures
            final(self).wf(),
            final(self).acc_view() == old(self).acc_view(),
            final(self).successes == old(self).successes,
            final(self).responses@ == old(self).responses@,
            final(self).responders@ == old(self).responders@,
            final(self).prefs@ == old(self).prefs@,
            final(self).next_pref == old(self).next_pref + 1,
    {
        let cap = self.prefs.len();
        proof {
            assert(self.next_pref < cap);
        }
        self.next_pref = self.next_pref + 1;
    }

    /// Merges one replica's parsed response into the accumulator and
    /// remembers it, with its node id, for repair-diffing.
    pub fn record_response(&mut self, replica: u32, set: AWSet)
        requires
            old(self).wf(),
            set@.wf(),
            old(self).next_pref < old(self).prefs@.len(),
            old(self).successes < READ_QUORUM,
        ensures
            final(self).wf(),
            final(self).acc_view().abs() == merge_abs(old(self).acc_view().abs(), set@.abs()),
            final(self).acc_view().id == old(self).acc_view().id,
            final(self).successes == old(self).successes + 1,
            final(self).responses@ == old(self).responses@.push(set),
            final(self).responders@ == old(self).responders@.push(replica),
            final(self).prefs@ == old(self).prefs@,
            final(self).next_pref == old(self).next_pref + 1,
    {
        let cap = self.prefs.len();
        proof {
            assert(self.next_pref < cap);
        }
        self.acc.merge(&set);
        self.responses.push(set);
        self.responders.push(replica);
        self.successes = self.successes + 1;
        self.next_pref = self.next_pref + 1;
    }

    /// Whether the read met its quorum.
    pub fn quorum_met(&self) -> (r: bool)
        ensures
            r == (self.successes >= READ_QUORUM),
    {
        self.successes >= READ_QUORUM
    }

    /// The merged result, to be persisted locally and returned.
    pub fn result(&self) -> (r: &AWSet)
        ensures
            r@ == self.acc_view(),
    {
        &self.acc
    }

    /// How many replica responses were collected.
    pub fn response_count(&self) -> (r: usize)
        ensures
            r == self.responses@.len(),
    {
        self.responses.len()
    }

    /// The node that gave the response at this index.
    pub fn responder_at(&self, i: usize) -> (r: u32)
        requires
            i < self.responders@.len(),
        ensures
            r == self.responders@[i as int],
    {
        self.responders[i]
    }

    /// Whether the replica behind this response reported a state that
    /// differs from the merged result and so must be repaired with a
    /// `WRITE` of the result.
    pub fn needs_repair(&self, i: usize) -> (r: bool)
        requires
            self.wf(),
            i < self.responses@.len(),
        ensures
            r == !repair_eq(self.acc_view(), self.responses@[i as int]@),
    {
        let resp = &self.responses[i];
        if !self.acc.id_is(&resp.id_string()) {
            return true;
        }
        // Same id: compare the stored name sets both ways.
        let n_acc = self.acc.item_count();
        let mut k: usize = 0;
        while k < n_acc
            invariant
                self.wf(),
                i < self.responses@.len(),
                resp@ == self.responses@[i as int]@,
                k <= self.acc@.items.len(),
                n_acc == self.acc@.items.len(),
                forall|j: int|
                    0 <= j < k ==> crate::crdt::items_has(
                        resp@.items,
                        (#[trigger] self.acc@.items[j]).name,
                    ),
            decreases self.acc@.items.len() - k,
        {
            let it = self.acc.item_at(k);
            if !resp.contains(it.item_name.as_str()) {
                proof {
                    assert(!crate::crdt::imap(resp@.items).dom().contains(
                        self.acc@.items[k as int].name,
                    ));
                    assert(crate::crdt::imap(self.acc@.items).dom().contains(
                        self.acc@.items[k as int].name,
                    )) by {
                        assert(crate::crdt::items_has(
                            self.acc@.items,
                            self.acc@.items[k as int].name,
                        ));
                    }
                }
                return true;
            }
            k = k + 1;
        }
        let n_resp = resp.item_count();
        let mut k2: usize = 0;
        while k2 < n_resp
            invariant
                self.wf(),
                i < self.responses@.len(),
                resp@ == self.responses@[i as int]@,
                k2 <= resp@.items.len(),
                n_resp == resp@.items.len(),
                forall|j: int|
                    0 <= j < k2 ==> crate::crdt::items_has(
                        self.acc@.items,
                        (#[trigger] resp@.items[j]).name,
                    ),
            decreases resp@.items.len() - k2,
        {
            let it = resp.item_at(k2);
            if !self.acc.contains(it.item_name.as_str()) {
                proof {
                    assert(crate::crdt::imap(resp@.items).dom().contains(
                        resp@.items[k2 as int].name,
                    )) by {
                        assert(crate::crdt::items_has(resp@.items, resp@.items[k2 as int].name));
                    }
                }
                return true;
            }
            k2 = k2 + 1;
        }
        proof {
            assert(crate::crdt::imap(self.acc@.items).dom() =~= crate::crdt::imap(
                resp@.items,
            ).dom()) by {
                assert forall|n: Seq<char>|
                    crate::crdt::items_has(self.acc@.items, n) implies crate::crdt::items_has(
                    resp@.items,
                    n,
                ) by {
                    let j = crate::crdt::items_idx(self.acc@.items, n);
                    assert(0 <= j < self.acc@.items.len() && self.acc@.items[j].name == n);
                }
                assert forall|n: Seq<char>|
                    crate::crdt::items_has(resp@.items, n) implies crate::crdt::items_has(
                    self.acc@.items,
                    n,
                ) by {
                    let j = crate::crdt::items_idx(resp@.items, n);
                    assert(0 <= j < resp@.items.len() && resp@.items[j].name == n);
                }
            }
        }
        false
    }
}

// ------------------------------------------------------------------
// Owner-side write handling.
// ------------------------------------------------------------------

/// A replica stores a pushed set as authoritative and acknowledges.
pub fn handle_replica_write(shards: &mut ShardMap, incoming: AWSet) -> (r: String)
    requires
        old(shards).wf(),
        incoming@.wf(),
    ensures
        final(shards).wf(),
        final(shards).as_map() == old(shards).as_map().insert(incoming@.id, incoming@),
        r@ == "Received"@,
{
    shards.put(incoming);
    String::from_str("Received")
}

/// The owner folds an incoming write into its local copy: the incoming
/// set absorbs the stored one (if any), the merged result replaces it
/// in the shard map and is returned for replication to the other
/// preference-list nodes.
pub fn handle_owner_write(shards: &mut ShardMap, incoming: AWSet) -> (r: AWSet)
    requires
        old(shards).wf(),
        incoming@.wf(),
    ensures
        final(shards).wf(),
        r@.wf(),
        r@.id == incoming@.id,
        r@.abs() == if old(shards).as_map().dom().contains(incoming@.id) {
            merge_abs(incoming@.abs(), old(shards).as_map()[incoming@.id].abs())
        } else {
            incoming@.abs()
        },
        final(shards).as_map() == old(shards).as_map().insert(incoming@.id, r@),
{
    let key = incoming.id_string();
    let mut merged = incoming;
    match shards.get(&key) {
        Some(local) => {
            let local_copy = local.duplicate();
            merged.merge(&local_copy);
        },
        None => {},
    }
    let out = merged.duplicate();
    shards.put(merged);
    out
}

} // verus!
