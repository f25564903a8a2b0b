//! The session controller: targets, rounds and the decisions of each tick.
//! The caller performs the I/O: it sends what `begin_round` hands out,
//! reports each send, feeds every received packet to `on_packet` and the
//! clock to `on_tick`, and closes the round at its deadline.

use vstd::prelude::*;
use crate::stats::{empty_stats, sat_add, Stats};
use crate::codec::{decode, decodes, checksum_valid, is_echo_type, field16, request_packet, DecodeError, Packet, ECHO_REPLY, ECHO_REPLY_V6, HEADER_LEN};
use crate::table::{
    expired, has_host, is_pending, next_after, rtt_of, table_wf, timed_out_seq, is_expired, is_live,
    not_of_target, Host, Probe, ProbeState, ProbeTable, TableError, TableModel,
};

verus! {

/// A resolved network address.
#[derive(Debug, Clone, Copy, PartialEq, Eq, Structural)]
pub enum Address {
    V4(u32),
    V6(u128),
}

/// Why a probe could not be sent.
#[derive(Debug, Clone, Copy, PartialEq, Eq, Structural)]
pub enum SendFailure {
    PermissionDenied,
    Unreachable,
    Io,
    /// A probe of this target with the same sequence number is still
    /// outstanding, so the table refused the new one.
    SequenceInUse,
}

/// The outcome of one round for one target.
#[derive(Debug, Clone, Copy, PartialEq, Eq, Structural)]
pub enum RoundResult {
    Rtt(u64),
    Loss,
    Error(SendFailure),
}

/// A target's slot in the current round; `None` while its probe is outstanding.
#[derive(Debug, Clone, Copy, PartialEq, Eq, Structural)]
pub struct RoundEntry {
    pub target: u64,
    /// The sequence number of the probe this round sent to `target`.
    pub sequence: u16,
    pub result: Option<RoundResult>,
}

/// What became of one received packet.
#[derive(Debug, Clone, Copy, PartialEq, Eq, Structural)]
pub enum Verdict {
    /// The reply completed the outstanding probe of `target`.
    Matched { target: u64, rtt: u64 },
    /// Not a valid echo packet.
    Undecodable(DecodeError),
    /// A valid echo packet that is not a reply (our own request looped back).
    NotReply,
    /// A reply that matches no outstanding probe: duplicate, late or foreign.
    CorrelationMiss,
}

/// A monitored destination.
#[derive(Debug)]
pub struct Target {
    pub handle: u64,
    pub address: Address,
    pub name: String,
}

/// An Echo Request for the caller to send.
#[derive(Debug)]
pub struct Outgoing {
    pub target: u64,
    pub address: Address,
    pub sequence: u16,
    pub bytes: Vec<u8>,
}

pub struct Session {
    identifier: u16,
    timeout: u64,
    next_handle: u64,
    table: ProbeTable,
    targets: Vec<Target>,
    stats: Vec<Stats>,
    round: Vec<RoundEntry>,
}

pub struct SessionModel {
    pub identifier: u16,
    pub timeout: u64,
    pub next_handle: u64,
    pub table: TableModel,
    pub targets: Seq<Target>,
    /// Statistics of each target, in target order.
    pub stats: Seq<Stats>,
    pub round: Seq<RoundEntry>,
}

impl View for Session {
    type V = SessionModel;

    closed spec fn view(&self) -> SessionModel {
        SessionModel {
            identifier: self.identifier,
            timeout: self.timeout,
            next_handle: self.next_handle,
            table: self.table@,
            targets: self.targets@,
            stats: self.stats@,
            round: self.round@,
        }
    }
}

pub open spec fn round_targets_unique(r: Seq<RoundEntry>) -> bool {
    forall|i: int, j: int|
        0 <= i < r.len() && 0 <= j < r.len() && i != j ==> (#[trigger] r[i]).target != (
        #[trigger] r[j]).target
}

/// The table tracks exactly the session's targets, in the same order, every
/// handle was issued before `next_handle`, and target addresses are distinct.
pub open spec fn session_wf(m: SessionModel) -> bool {
    &&& table_wf(m.table)
    &&& m.table.identifier == m.identifier
    &&& m.table.hosts.len() == m.targets.len()
    &&& m.stats.len() == m.targets.len()
    &&& forall|i: int| 0 <= i < m.targets.len() ==> (#[trigger] m.table.hosts[i]).target == m.targets[i].handle
    &&& forall|i: int| 0 <= i < m.targets.len() ==> (#[trigger] m.targets[i]).handle < m.next_handle
    &&& round_targets_unique(m.round)
    &&& addresses_unique(m.targets)
}

/// No two targets share an address, so a reply's source names one target.
pub open spec fn addresses_unique(t: Seq<Target>) -> bool {
    forall|i: int, j: int|
        0 <= i < t.len() && 0 <= j < t.len() && i != j ==> (#[trigger] t[i]).address != (
        #[trigger] t[j]).address
}

pub open spec fn has_address(t: Seq<Target>, address: Address) -> bool {
    exists|i: int| 0 <= i < t.len() && (#[trigger] t[i]).address == address
}

pub open spec fn is_reply_type(t: u8) -> bool {
    t == ECHO_REPLY || t == ECHO_REPLY_V6
}

/// The round with the slot of `target` set to `result`, when that slot
/// belongs to the probe numbered `sequence`.
pub open spec fn round_set(r: Seq<RoundEntry>, target: u64, sequence: u16, result: RoundResult) -> Seq<RoundEntry> {
    Seq::new(
        r.len(),
        |k: int|
            if r[k].target == target && r[k].sequence == sequence {
                RoundEntry { target, sequence, result: Some(result) }
            } else {
                r[k]
            },
    )
}

/// Every host's counter advanced by one.
pub open spec fn advanced(h: Seq<Host>) -> Seq<Host> {
    Seq::new(h.len(), |i: int| Host { target: h[i].target, next_seq: next_after(h[i].next_seq) })
}

/// A round with an open slot for each target, in target order, holding the
/// sequence number that the target's probe of this round carries.
pub open spec fn fresh_round(t: Seq<Target>, h: Seq<Host>) -> Seq<RoundEntry> {
    Seq::new(t.len(), |i: int| RoundEntry { target: t[i].handle, sequence: h[i].next_seq, result: None })
}

pub open spec fn has_probe_for(out: Seq<Probe>, target: u64, sequence: u16) -> bool {
    exists|j: int| 0 <= j < out.len() && (#[trigger] out[j]).target == target && out[j].sequence == sequence
}

/// The round after the probes in `out` timed out: an open slot becomes
/// `Loss` when its own probe is among them. Probes of earlier rounds leave
/// the slots alone.
pub open spec fn round_after_timeouts(r: Seq<RoundEntry>, out: Seq<Probe>) -> Seq<RoundEntry> {
    Seq::new(
        r.len(),
        |k: int|
            if r[k].result is None && has_probe_for(out, r[k].target, r[k].sequence) {
                RoundEntry { result: Some(RoundResult::Loss), ..r[k] }
            } else {
                r[k]
            },
    )
}

/// Number of probes in `out` that belong to `target`.
pub open spec fn count_for(out: Seq<Probe>, target: u64) -> nat
    decreases out.len(),
{
    if out.len() == 0 {
        0
    } else {
        count_for(out.drop_last(), target) + if out.last().target == target {
            1nat
        } else {
            0nat
        }
    }
}

/// Each target's statistics after the probes in `out` timed out: one loss
/// per probe of that target.
pub open spec fn stats_after_timeouts(s: Seq<Stats>, t: Seq<Target>, out: Seq<Probe>) -> Seq<Stats> {
    Seq::new(s.len(), |k: int| s[k].after_losses(count_for(out, t[k].handle) as u64))
}

/// Counts the probes in `out` that belong to `target`.
pub fn count_probes(out: &Vec<Probe>, target: u64) -> (r: u64)
    ensures
        r == count_for(out@, target),
{
    let mut n: u64 = 0;
    let mut j: usize = 0;
    while j < out.len()
        invariant
            j <= out@.len(),
            n == count_for(out@.take(j as int), target),
            n <= j,
        decreases out@.len() - j,
    {
        proof {
            assert(out@.take(j + 1).drop_last() =~= out@.take(j as int));
        }
        if out[j].target == target {
            n = n + 1;
        }
        j = j + 1;
    }
    assert(out@.take(j as int) =~= out@);
    n
}

/// The final result of a slot: an open slot at the deadline is a loss.
pub open spec fn closed_result(e: RoundEntry) -> RoundResult {
    match e.result {
        Some(r) => r,
        None => RoundResult::Loss,
    }
}

/// The round with every open slot filled as a loss.
pub open spec fn closed_round(r: Seq<RoundEntry>) -> Seq<RoundEntry> {
    Seq::new(r.len(), |k: int| RoundEntry { result: Some(closed_result(r[k])), ..r[k] })
}

/// Whether `out` holds the probe of `target` numbered `sequence`.
pub fn any_for_target(out: &Vec<Probe>, target: u64, sequence: u16) -> (r: bool)
    ensures
        r == has_probe_for(out@, target, sequence),
{
    let mut j: usize = 0;
    while j < out.len()
        invariant
            j <= out@.len(),
            forall|k: int| 0 <= k < j ==> !((#[trigger] out@[k]).target == target && out@[k].sequence == sequence),
        decreases out@.len() - j,
    {
        if out[j].target == target && out[j].sequence == sequence {
            return true;
        }
        j = j + 1;
    }
    false
}

/// A target at `address` has an outstanding probe with `sequence` and the
/// reply carries this session's identifier.
pub open spec fn reply_matches(m: SessionModel, address: Address, identifier: u16, sequence: u16) -> bool {
    identifier == m.identifier && exists|i: int|
        0 <= i < m.targets.len() && (#[trigger] m.targets[i]).address == address && is_pending(
            m.table.pending,
            m.targets[i].handle,
            sequence,
        )
}

impl Session {
    pub open spec fn wf(&self) -> bool {
        session_wf(self@)
    }

    /// A session with no targets whose probes carry `identifier` and time out
    /// after `timeout`.
    pub fn new(identifier: u16, timeout: u64) -> (s: Session)
        ensures
            s.wf(),
            s@.identifier == identifier,
            s@.timeout == timeout,
            s@.targets.len() == 0,
            s@.round.len() == 0,
            s@.table.pending.len() == 0,
    {
        Session {
            identifier,
            timeout,
            next_handle: 0,
            table: ProbeTable::new(identifier),
            targets: Vec::new(),
            stats: Vec::new(),
            round: Vec::new(),
        }
    }

    pub fn identifier(&self) -> (r: u16)
        ensures
            r == self@.identifier,
    {
        self.identifier
    }

    /// The statistics of the target with `handle`.
    pub fn stats(&self, handle: u64) -> (r: Option<Stats>)
        requires
            self.wf(),
        ensures
            r is None <==> forall|i: int| 0 <= i < self@.targets.len() ==> (#[trigger] self@.targets[i]).handle != handle,
            r matches Some(st) ==> exists|i: int|
                0 <= i < self@.targets.len() && self@.targets[i].handle == handle && st == self@.stats[i],
    {
        match self.find_target(handle) {
            None => None,
            Some(i) => Some(self.stats[i]),
        }
    }

    pub fn target_count(&self) -> (r: usize)
        ensures
            r == self@.targets.len(),
    {
        self.targets.len()
    }

    /// Number of probes still outstanding.
    pub fn pending_count(&self) -> (r: usize)
        ensures
            r == self@.table.pending.len(),
    {
        self.table.pending_count()
    }

    fn find_target(&self, handle: u64) -> (r: Option<usize>)
        ensures
            r is None ==> forall|k: int| 0 <= k < self@.targets.len() ==> (#[trigger] self@.targets[k]).handle != handle,
            r matches Some(i) ==> i < self@.targets.len() && self@.targets[i as int].handle == handle,
    {
        let mut i: usize = 0;
        while i < self.targets.len()
            invariant
                i <= self@.targets.len(),
                forall|k: int| 0 <= k < i ==> (#[trigger] self@.targets[k]).handle != handle,
            decreases self@.targets.len() - i,
        {
            if self.targets[i].handle == handle {
                return Some(i);
            }
            i = i + 1;
        }
        None
    }

    /// Adds a target and returns its handle; `None`, changing nothing, when a
    /// target already has this address or every handle has been issued.
    pub fn add_target(&mut self, address: Address, name: String) -> (r: Option<u64>)
        requires
            old(self).wf(),
        ensures
            final(self).wf(),
            r is None <==> old(self)@.next_handle == u64::MAX || has_address(old(self)@.targets, address),
            r is None ==> final(self)@ == old(self)@,
            r matches Some(h) ==> h == old(self)@.next_handle && final(self)@ == (SessionModel {
                next_handle: (h + 1) as u64,
                targets: old(self)@.targets.push(Target { handle: h, address, name }),
                stats: old(self)@.stats.push(empty_stats()),
                table: TableModel {
                    hosts: old(self)@.table.hosts.push(Host { target: h, next_seq: 0 }),
                    ..old(self)@.table
                },
                ..old(self)@
            }),
    {
        if self.next_handle == u64::MAX {
            return None;
        }
        let mut k: usize = 0;
        while k < self.targets.len()
            invariant
                self@ == old(self)@,
                self.wf(),
                k <= self@.targets.len(),
                forall|j: int| 0 <= j < k ==> (#[trigger] self@.targets[j]).address != address,
            decreases self@.targets.len() - k,
        {
            if self.targets[k].address == address {
                return None;
            }
            k = k + 1;
        }
        let h = self.next_handle;
        proof {
            if has_host(self@.table.hosts, h) {
                let i = choose|i: int| 0 <= i < self@.table.hosts.len() && self@.table.hosts[i].target == h;
                assert(self@.targets[i].handle < h);
            }
        }
        let added = self.table.add_host(h);
        assert(added);
        self.targets.push(Target { handle: h, address, name });
        self.stats.push(Stats::new());
        self.next_handle = h + 1;
        proof {
            let m = self@;
            assert forall|i: int| 0 <= i < m.targets.len() implies (#[trigger] m.table.hosts[i]).target
                == m.targets[i].handle by {
                if i < m.targets.len() - 1 {
                    assert(m.table.hosts[i] == old(self)@.table.hosts[i]);
                    assert(m.targets[i] == old(self)@.targets[i]);
                }
            }
            assert forall|i: int| 0 <= i < m.targets.len() implies (#[trigger] m.targets[i]).handle
                < m.next_handle by {
                if i < m.targets.len() - 1 {
                    assert(m.targets[i] == old(self)@.targets[i]);
                }
            }
            assert forall|a: int, b: int|
                0 <= a < m.targets.len() && 0 <= b < m.targets.len() && a != b implies (
            #[trigger] m.targets[a]).address != (#[trigger] m.targets[b]).address by {
                if a < m.targets.len() - 1 {
                    assert(m.targets[a] == old(self)@.targets[a]);
                }
                if b < m.targets.len() - 1 {
                    assert(m.targets[b] == old(self)@.targets[b]);
                }
            }
        }
        Some(h)
    }

    /// Removes a target with its statistics and drops its outstanding
    /// probes; other targets are untouched, and the current round keeps the
    /// removed target's slot until it closes. Returns false, changing
    /// nothing, for an unknown handle.
    pub fn remove_target(&mut self, handle: u64) -> (r: bool)
        requires
            old(self).wf(),
        ensures
            final(self).wf(),
            r == has_host(old(self)@.table.hosts, handle),
            !r ==> final(self)@ == old(self)@,
            r ==> exists|i: int|
                0 <= i < old(self)@.targets.len() && old(self)@.targets[i].handle == handle
                    && final(self)@ == (SessionModel {
                    targets: old(self)@.targets.remove(i),
                    stats: old(self)@.stats.remove(i),
                    table: TableModel {
                        hosts: old(self)@.table.hosts.remove(i),
                        pending: old(self)@.table.pending.filter(not_of_target(handle)),
                        ..old(self)@.table
                    },
                    ..old(self)@
                }),
    {
        let ghost before = self@;
        let found = self.find_target(handle);
        if found.is_none() {
            proof {
                if has_host(before.table.hosts, handle) {
                    let k = choose|k: int| 0 <= k < before.table.hosts.len() && before.table.hosts[k].target == handle;
                    assert(before.targets[k].handle == handle);
                }
            }
            return false;
        }
        let i = found.unwrap();
        assert(before.table.hosts[i as int].target == handle);
        let removed = self.table.remove_host(handle);
        proof {
            let j = choose|j: int|
                0 <= j < before.table.hosts.len() && before.table.hosts[j].target == handle
                    && self@.table.hosts == before.table.hosts.remove(j);
            assert(j == i);
        }
        self.targets.remove(i);
        self.stats.remove(i);
        proof {
            let m = self@;
            assert forall|k: int| 0 <= k < m.targets.len() implies (#[trigger] m.table.hosts[k]).target
                == m.targets[k].handle by {
                let k0 = if k < i { k } else { k + 1 };
                assert(m.table.hosts[k] == before.table.hosts[k0]);
                assert(m.targets[k] == before.targets[k0]);
            }
            assert forall|k: int| 0 <= k < m.targets.len() implies (#[trigger] m.targets[k]).handle
                < m.next_handle by {
                let k0 = if k < i { k } else { k + 1 };
                assert(m.targets[k] == before.targets[k0]);
            }
            assert forall|a: int, b: int|
                0 <= a < m.targets.len() && 0 <= b < m.targets.len() && a != b implies (
            #[trigger] m.targets[a]).address != (#[trigger] m.targets[b]).address by {
                let a0 = if a < i { a } else { a + 1 };
                let b0 = if b < i { b } else { b + 1 };
                assert(m.targets[a] == before.targets[a0]);
                assert(m.targets[b] == before.targets[b0]);
            }
            assert(m =~= (SessionModel {
                targets: before.targets.remove(i as int),
                stats: before.stats.remove(i as int),
                table: TableModel {
                    hosts: before.table.hosts.remove(i as int),
                    pending: before.table.pending.filter(not_of_target(handle)),
                    ..before.table
                },
                ..before
            }));
        }
        removed
    }

    fn set_result(&mut self, target: u64, sequence: u16, result: RoundResult)
        requires
            old(self).wf(),
        ensures
            final(self).wf(),
            final(self)@ == (SessionModel { round: round_set(old(self)@.round, target, sequence, result), ..old(self)@ }),
    {
        let ghost r0 = self@.round;
        let mut k: usize = 0;
        while k < self.round.len()
            invariant
                self@ == old(self)@,
                self.wf(),
                r0 == self@.round,
                k <= r0.len(),
                forall|j: int| 0 <= j < k ==> (#[trigger] r0[j]).target != target,
            decreases r0.len() - k,
        {
            if self.round[k].target == target {
                proof {
                    assert forall|j: int| 0 <= j < r0.len() && j != k implies (#[trigger] r0[j]).target
                        != target by {
                        assert(r0[k as int].target == target);
                    }
                }
                if self.round[k].sequence != sequence {
                    assert(self@.round =~= round_set(r0, target, sequence, result));
                    return;
                }
                self.round.set(k, RoundEntry { target, sequence, result: Some(result) });
                proof {
                    assert(self@.round =~= round_set(r0, target, sequence, result));
                    let m = self@.round;
                    assert forall|a: int, b: int|
                        0 <= a < m.len() && 0 <= b < m.len() && a != b implies (#[trigger] m[a]).target
                        != (#[trigger] m[b]).target by {
                        assert(m[a].target == r0[a].target && m[b].target == r0[b].target);
                    }
                }
                return;
            }
            k = k + 1;
        }
        assert(self@.round =~= round_set(r0, target, sequence, result));
    }

    /// Starts a round: draws the next sequence number of every target and
    /// returns one Echo Request per target, in target order, each carrying
    /// `timestamp` as its payload. Every target's slot opens empty.
    pub fn begin_round(&mut self, timestamp: [u8; 8]) -> (r: Vec<Outgoing>)
        requires
            old(self).wf(),
        ensures
            final(self).wf(),
            r@.len() == old(self)@.targets.len(),
            forall|i: int|
                0 <= i < r@.len() ==> (#[trigger] r@[i]).target == old(self)@.targets[i].handle
                    && r@[i].address == old(self)@.targets[i].address && r@[i].sequence
                    == old(self)@.table.hosts[i].next_seq && r@[i].bytes@ == request_packet(
                    old(self)@.identifier,
                    r@[i].sequence,
                    timestamp@,
                ),
            final(self)@ == (SessionModel {
                table: TableModel { hosts: advanced(old(self)@.table.hosts), ..old(self)@.table },
                round: fresh_round(old(self)@.targets, old(self)@.table.hosts),
                ..old(self)@
            }),
    {
        let ghost h0 = self@.table.hosts;
        let ghost m0 = self@;
        let mut out: Vec<Outgoing> = Vec::new();
        let mut round: Vec<RoundEntry> = Vec::new();
        let mut i: usize = 0;
        while i < self.targets.len()
            invariant
                session_wf(m0),
                h0 == m0.table.hosts,
                i <= m0.targets.len(),
                self@.targets == m0.targets,
                self@.stats == m0.stats,
                self@.identifier == m0.identifier,
                self@.timeout == m0.timeout,
                self@.next_handle == m0.next_handle,
                self@.round == m0.round,
                self.table.wf(),
                self@.table.identifier == m0.table.identifier,
                self@.table.pending == m0.table.pending,
                self@.table.hosts.len() == h0.len(),
                forall|k: int| 0 <= k < i ==> (#[trigger] self@.table.hosts[k]) == advanced(h0)[k],
                forall|k: int| i <= k < h0.len() ==> (#[trigger] self@.table.hosts[k]) == h0[k],
                out@.len() == i,
                forall|k: int|
                    0 <= k < i ==> (#[trigger] out@[k]).target == m0.targets[k].handle
                        && out@[k].address == m0.targets[k].address && out@[k].sequence
                        == h0[k].next_seq && out@[k].bytes@ == request_packet(
                        m0.identifier,
                        out@[k].sequence,
                        timestamp@,
                    ),
                round@ == fresh_round(m0.targets, h0).take(i as int),
            decreases m0.targets.len() - i,
        {
            let handle = self.targets[i].handle;
            let address = self.targets[i].address;
            proof {
                assert(self@.table.hosts[i as int].target == handle);
                assert(has_host(self@.table.hosts, handle));
            }
            let ghost hb = self@.table.hosts;
            let seq = self.table.next_sequence(handle).unwrap();
            proof {
                let j = choose|j: int|
                    0 <= j < hb.len() && hb[j].target == handle && hb[j].next_seq == seq
                        && self@.table == (TableModel {
                        hosts: hb.update(j, Host { target: handle, next_seq: next_after(seq) }),
                        ..self@.table
                    });
                assert(hb[i as int].target == handle);
                assert(j == i);
            }
            let bytes = Packet::request(self.identifier, seq, timestamp).to_bytes();
            out.push(Outgoing { target: handle, address, sequence: seq, bytes });
            round.push(RoundEntry { target: handle, sequence: seq, result: None });
            proof {
                assert(round@ =~= fresh_round(m0.targets, h0).take(i + 1));
            }
            i = i + 1;
        }
        self.round = round;
        proof {
            assert(self@.table.hosts =~= advanced(h0));
            assert(round@ =~= fresh_round(m0.targets, h0));
            let r = self@.round;
            assert forall|a: int, b: int|
                0 <= a < r.len() && 0 <= b < r.len() && a != b implies (#[trigger] r[a]).target != (
                #[trigger] r[b]).target by {
                assert(r[a].target == h0[a].target && r[b].target == h0[b].target);
            }
            assert forall|k: int| 0 <= k < m0.targets.len() implies (#[trigger] self@.table.hosts[k]).target
                == m0.targets[k].handle by {
                assert(self@.table.hosts[k] == advanced(h0)[k]);
            }
        }
        out
    }

    /// Records that the probe `sequence` to `target` left at `now`.
    pub fn on_sent(&mut self, target: u64, sequence: u16, now: u64) -> (r: Result<(), TableError>)
        requires
            old(self).wf(),
        ensures
            final(self).wf(),
            r is Ok <==> has_host(old(self)@.table.hosts, target) && !is_pending(
                old(self)@.table.pending,
                target,
                sequence,
            ),
            r is Ok ==> final(self)@ == (SessionModel {
                table: TableModel {
                    pending: old(self)@.table.pending.push(
                        Probe { target, sequence, sent_at: now, state: ProbeState::Pending },
                    ),
                    ..old(self)@.table
                },
                ..old(self)@
            }),
            r is Err ==> final(self)@ == old(self)@,
    {
        self.table.record_sent(target, sequence, now)
    }

    /// Records that the probe `sequence` to `target` could not be sent; the
    /// other targets' slots are untouched.
    pub fn on_send_failed(&mut self, target: u64, sequence: u16, failure: SendFailure)
        requires
            old(self).wf(),
        ensures
            final(self).wf(),
            final(self)@ == (SessionModel {
                round: round_set(old(self)@.round, target, sequence, RoundResult::Error(failure)),
                ..old(self)@
            }),
    {
        self.set_result(target, sequence, RoundResult::Error(failure));
    }

    /// Classifies one received packet from `source` and, when it is the
    /// reply to an outstanding probe, completes that probe, counts the reply
    /// in the target's statistics and, when the probe is the one this round
    /// sent, fills the target's slot with its round-trip time. Anything else leaves the
    /// session as it was.
    pub fn on_packet(&mut self, source: Address, bytes: &[u8], now: u64) -> (r: Verdict)
        requires
            old(self).wf(),
        ensures
            final(self).wf(),
            r is Undecodable <==> !decodes(bytes@),
            bytes@.len() < HEADER_LEN ==> r == Verdict::Undecodable(DecodeError::Truncated),
            bytes@.len() >= HEADER_LEN && !checksum_valid(bytes@) ==> r == Verdict::Undecodable(
                DecodeError::ChecksumMismatch,
            ),
            bytes@.len() >= HEADER_LEN && checksum_valid(bytes@) && !is_echo_type(bytes@[0]) ==> r
                == Verdict::Undecodable(DecodeError::UnsupportedType { icmp_type: bytes@[0], code: bytes@[1] }),
            r == Verdict::NotReply <==> decodes(bytes@) && !is_reply_type(bytes@[0]),
            r is Matched <==> decodes(bytes@) && is_reply_type(bytes@[0]) && reply_matches(
                old(self)@,
                source,
                field16(bytes@, 4) as u16,
                field16(bytes@, 6) as u16,
            ),
            !(r is Matched) ==> final(self)@ == old(self)@,
            r matches Verdict::Matched { target, rtt } ==> exists|i: int, j: int|
                0 <= i < old(self)@.targets.len() && old(self)@.targets[i].address == source
                    && old(self)@.targets[i].handle == target && 0 <= j < old(self)@.table.pending.len()
                    && old(self)@.table.pending[j].target == target
                    && old(self)@.table.pending[j].sequence == field16(bytes@, 6)
                    && rtt == rtt_of(old(self)@.table.pending[j].sent_at, now)
                    && final(self)@ == (SessionModel {
                    table: TableModel { pending: old(self)@.table.pending.remove(j), ..old(self)@.table },
                    stats: old(self)@.stats.update(i, old(self)@.stats[i].after_reply(rtt)),
                    round: round_set(old(self)@.round, target, field16(bytes@, 6) as u16, RoundResult::Rtt(rtt)),
                    ..old(self)@
                }),
    {
        let p = match decode(bytes) {
            Err(e) => return Verdict::Undecodable(e),
            Ok(p) => p,
        };
        if !(p.icmp_type == ECHO_REPLY || p.icmp_type == ECHO_REPLY_V6) {
            return Verdict::NotReply;
        }
        let ghost m0 = self@;
        let mut i: usize = 0;
        while i < self.targets.len()
            invariant
                self@ == m0,
                m0 == old(self)@,
                self.wf(),
                decodes(bytes@),
                is_reply_type(bytes@[0]),
                p.identifier == field16(bytes@, 4),
                p.sequence == field16(bytes@, 6),
                i <= m0.targets.len(),
                forall|k: int|
                    0 <= k < i && (#[trigger] m0.targets[k]).address == source ==> !(p.identifier
                        == m0.identifier && is_pending(m0.table.pending, m0.targets[k].handle, p.sequence)),
            decreases m0.targets.len() - i,
        {
            if self.targets[i].address == source {
                let handle = self.targets[i].handle;
                match self.table.record_reply(handle, p.identifier, p.sequence, now) {
                    Some(done) => {
                        let rtt: u64 = match done.state {
                            ProbeState::Replied { rtt } => rtt,
                            _ => 0,
                        };
                        let ghost m1 = self@;
                        let mut st = self.stats[i];
                        st.record_reply(rtt);
                        self.stats.set(i, st);
                        self.set_result(handle, p.sequence, RoundResult::Rtt(rtt));
                        proof {
                            let j = choose|j: int|
                                0 <= j < m0.table.pending.len() && m0.table.pending[j].target == handle
                                    && m0.table.pending[j].sequence == p.sequence && done == (Probe {
                                    state: ProbeState::Replied { rtt: rtt_of(m0.table.pending[j].sent_at, now) },
                                    ..m0.table.pending[j]
                                }) && m1.table == (TableModel { pending: m0.table.pending.remove(j), ..m0.table });
                            assert(m0.targets[i as int].address == source);
                            assert(field16(bytes@, 4) as u16 == p.identifier);
                            assert(field16(bytes@, 6) as u16 == p.sequence);
                            assert(is_pending(m0.table.pending, m0.targets[i as int].handle, p.sequence));
                            assert(self@ == (SessionModel {
                                table: TableModel { pending: m0.table.pending.remove(j), ..m0.table },
                                stats: m0.stats.update(i as int, m0.stats[i as int].after_reply(rtt)),
                                round: round_set(m0.round, handle, p.sequence, RoundResult::Rtt(rtt)),
                                ..m0
                            }));
                        }
                        return Verdict::Matched { target: handle, rtt };
                    },
                    None => {},
                }
            }
            i = i + 1;
        }
        Verdict::CorrelationMiss
    }

    /// Retires every probe older than the session's timeout at `now` and
    /// returns them, marked `TimedOut`; each open slot of their targets
    /// becomes `Loss`.
    pub fn on_tick(&mut self, now: u64) -> (r: Vec<Probe>)
        requires
            old(self).wf(),
        ensures
            final(self).wf(),
            r@ == timed_out_seq(old(self)@.table.pending.filter(is_expired(now, old(self)@.timeout))),
            final(self)@ == (SessionModel {
                table: TableModel {
                    pending: old(self)@.table.pending.filter(is_live(now, old(self)@.timeout)),
                    ..old(self)@.table
                },
                stats: stats_after_timeouts(old(self)@.stats, old(self)@.targets, r@),
                round: round_after_timeouts(old(self)@.round, r@),
                ..old(self)@
            }),
    {
        let out = self.table.sweep_timeouts(now, self.timeout);
        let ghost r0 = self@.round;
        let mut round: Vec<RoundEntry> = Vec::new();
        let mut k: usize = 0;
        while k < self.round.len()
            invariant
                r0 == self@.round,
                k <= r0.len(),
                round@ == round_after_timeouts(r0, out@).take(k as int),
            decreases r0.len() - k,
        {
            let e = self.round[k];
            if e.result.is_none() && any_for_target(&out, e.target, e.sequence) {
                round.push(RoundEntry { result: Some(RoundResult::Loss), ..e });
            } else {
                round.push(e);
            }
            proof {
                assert(round@ =~= round_after_timeouts(r0, out@).take(k + 1));
            }
            k = k + 1;
        }
        self.round = round;
        let ghost t0 = self@.targets;
        let ghost s0 = self@.stats;
        let mut stats: Vec<Stats> = Vec::new();
        let mut k: usize = 0;
        while k < self.stats.len()
            invariant
                s0 == self@.stats,
                t0 == self@.targets,
                s0.len() == t0.len(),
                k <= s0.len(),
                stats@ == stats_after_timeouts(s0, t0, out@).take(k as int),
            decreases s0.len() - k,
        {
            let mut st = self.stats[k];
            st.record_losses(count_probes(&out, self.targets[k].handle));
            stats.push(st);
            proof {
                assert(stats@ =~= stats_after_timeouts(s0, t0, out@).take(k + 1));
            }
            k = k + 1;
        }
        assert(stats@ =~= stats_after_timeouts(s0, t0, out@));
        self.stats = stats;
        proof {
            assert(round@ =~= round_after_timeouts(r0, out@));
            let m = self@.round;
            assert forall|a: int, b: int|
                0 <= a < m.len() && 0 <= b < m.len() && a != b implies (#[trigger] m[a]).target != (
                #[trigger] m[b]).target by {
                assert(m[a].target == r0[a].target && m[b].target == r0[b].target);
            }
        }
        out
    }

    /// The slots of the current round, in target order. Each call starts
    /// over from the first slot.
    pub fn results(&self) -> (r: Vec<RoundEntry>)
        ensures
            r@ == self@.round,
    {
        let mut r: Vec<RoundEntry> = Vec::new();
        let mut k: usize = 0;
        while k < self.round.len()
            invariant
                k <= self@.round.len(),
                r@ == self@.round.take(k as int),
            decreases self@.round.len() - k,
        {
            r.push(self.round[k]);
            k = k + 1;
            assert(r@ =~= self@.round.take(k as int));
        }
        assert(r@ =~= self@.round);
        r
    }

    /// Whether every slot of the current round is filled.
    pub fn round_finished(&self) -> (r: bool)
        ensures
            r == forall|k: int| 0 <= k < self@.round.len() ==> (#[trigger] self@.round[k]).result is Some,
    {
        let mut k: usize = 0;
        while k < self.round.len()
            invariant
                k <= self@.round.len(),
                forall|j: int| 0 <= j < k ==> (#[trigger] self@.round[j]).result is Some,
            decreases self@.round.len() - k,
        {
            if self.round[k].result.is_none() {
                return false;
            }
            k = k + 1;
        }
        true
    }

    /// Ends the round at its deadline: every open slot becomes `Loss`, and
    /// the result of each target is returned in target order.
    pub fn close_round(&mut self) -> (r: Vec<RoundEntry>)
        requires
            old(self).wf(),
        ensures
            final(self).wf(),
            r@ == closed_round(old(self)@.round),
            final(self)@ == (SessionModel { round: closed_round(old(self)@.round), ..old(self)@ }),
    {
        let ghost r0 = self@.round;
        let mut round: Vec<RoundEntry> = Vec::new();
        let mut k: usize = 0;
        while k < self.round.len()
            invariant
                r0 == self@.round,
                k <= r0.len(),
                round@ == closed_round(r0).take(k as int),
            decreases r0.len() - k,
        {
            let e = self.round[k];
            let result = match e.result {
                Some(x) => x,
                None => RoundResult::Loss,
            };
            round.push(RoundEntry { result: Some(result), ..e });
            proof {
                assert(round@ =~= closed_round(r0).take(k + 1));
            }
            k = k + 1;
        }
        assert(round@ =~= closed_round(r0));
        self.round = round;
        let r = self.results();
        proof {
            let m = self@.round;
            assert forall|a: int, b: int|
                0 <= a < m.len() && 0 <= b < m.len() && a != b implies (#[trigger] m[a]).target != (
                #[trigger] m[b]).target by {
                assert(m[a].target == r0[a].target && m[b].target == r0[b].target);
            }
        }
        r
    }
}

/// Number of probes of `target` in `s` that are older than `timeout` at `now`.
pub open spec fn expired_count(s: Seq<Probe>, target: u64, now: u64, timeout: u64) -> nat
    decreases s.len(),
{
    if s.len() == 0 {
        0
    } else {
        expired_count(s.drop_last(), target, now, timeout) + if s.last().target == target && expired(
            s.last(),
            now,
            timeout,
        ) {
            1nat
        } else {
            0nat
        }
    }
}

/// The probes of `target` that a sweep reports are exactly its expired
/// probes, counted one each.
pub proof fn lemma_swept_count(s: Seq<Probe>, target: u64, now: u64, timeout: u64)
    ensures
        count_for(timed_out_seq(s.filter(is_expired(now, timeout))), target) == expired_count(
            s,
            target,
            now,
            timeout,
        ),
    decreases s.len(),
{
    if s.len() > 0 {
        let init = s.drop_last();
        let x = s.last();
        lemma_swept_count(init, target, now, timeout);
        assert(s =~= init.push(x));
        init.lemma_filter_push(x, is_expired(now, timeout));
        let f = init.filter(is_expired(now, timeout));
        if expired(x, now, timeout) {
            let q = timed_out_seq(f.push(x));
            assert(q.drop_last() =~= timed_out_seq(f));
            assert(q.last().target == x.target);
        }
    }
}

/// Each target's loss count rises by exactly the number of its probes that
/// expired, so a probe that times out adds exactly one loss; together with
/// `lemma_timeout_once` no probe is counted twice.
pub proof fn lemma_losses_counted_once(m: SessionModel, now: u64, k: int)
    requires
        session_wf(m),
        0 <= k < m.targets.len(),
    ensures
        stats_after_timeouts(
            m.stats,
            m.targets,
            timed_out_seq(m.table.pending.filter(is_expired(now, m.timeout))),
        )[k].losses == sat_add(
            m.stats[k].losses,
            expired_count(m.table.pending, m.targets[k].handle, now, m.timeout) as u64,
        ),
{
    lemma_swept_count(m.table.pending, m.targets[k].handle, now, m.timeout);
}

proof fn lemma_no_expiry_counts_zero(s: Seq<Probe>, target: u64, now: u64, timeout: u64)
    requires
        forall|i: int| 0 <= i < s.len() && (#[trigger] s[i]).target == target ==> !expired(s[i], now, timeout),
    ensures
        expired_count(s, target, now, timeout) == 0,
    decreases s.len(),
{
    if s.len() > 0 {
        let init = s.drop_last();
        assert forall|i: int| 0 <= i < init.len() && (#[trigger] init[i]).target == target implies !expired(
            init[i],
            now,
            timeout,
        ) by {
            assert(init[i] == s[i]);
        }
        lemma_no_expiry_counts_zero(init, target, now, timeout);
        assert(s.last() == s[s.len() - 1]);
    }
}

/// A target with a single expired probe gets exactly one loss from the sweep.
pub proof fn lemma_single_expiry_counts_one(s: Seq<Probe>, target: u64, now: u64, timeout: u64, j: int)
    requires
        0 <= j < s.len(),
        s[j].target == target,
        expired(s[j], now, timeout),
        forall|i: int|
            0 <= i < s.len() && i != j && (#[trigger] s[i]).target == target ==> !expired(s[i], now, timeout),
    ensures
        expired_count(s, target, now, timeout) == 1,
    decreases s.len(),
{
    let init = s.drop_last();
    assert(s.last() == s[s.len() - 1]);
    if j == s.len() - 1 {
        assert forall|i: int| 0 <= i < init.len() && (#[trigger] init[i]).target == target implies !expired(
            init[i],
            now,
            timeout,
        ) by {
            assert(init[i] == s[i]);
        }
        lemma_no_expiry_counts_zero(init, target, now, timeout);
    } else {
        assert forall|i: int|
            0 <= i < init.len() && i != j && (#[trigger] init[i]).target == target implies !expired(
            init[i],
            now,
            timeout,
        ) by {
            assert(init[i] == s[i]);
        }
        assert(init[j] == s[j]);
        lemma_single_expiry_counts_one(init, target, now, timeout, j);
    }
}

} // verus!
