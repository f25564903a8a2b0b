//! The probe table: per-target sequence counters and the outstanding probes,
//! keyed by (target, sequence).

use vstd::prelude::*;
use vstd::arithmetic::div_mod::{lemma_add_mod_noop, lemma_fundamental_div_mod};

verus! {

broadcast use vstd::seq_lib::group_filter_ensures;

/// Where a probe stands. A probe leaves `Pending` exactly once.
#[derive(Debug, Clone, Copy, PartialEq, Eq, Structural)]
pub enum ProbeState {
    Pending,
    Replied { rtt: u64 },
    TimedOut,
}

/// One Echo Request sent to a target.
#[derive(Debug, Clone, Copy, PartialEq, Eq, Structural)]
pub struct Probe {
    pub target: u64,
    pub sequence: u16,
    pub sent_at: u64,
    pub state: ProbeState,
}

/// A monitored target and the sequence number its next probe will carry.
#[derive(Debug, Clone, Copy, PartialEq, Eq, Structural)]
pub struct Host {
    pub target: u64,
    pub next_seq: u16,
}

#[derive(Debug, Clone, Copy, PartialEq, Eq, Structural)]
pub enum TableError {
    /// No host with that handle is in the table.
    UnknownTarget,
    /// A probe with that (target, sequence) is still outstanding.
    SequenceInUse,
}

pub struct ProbeTable {
    identifier: u16,
    hosts: Vec<Host>,
    pending: Vec<Probe>,
}

/// The abstract state of a `ProbeTable`.
pub struct TableModel {
    pub identifier: u16,
    pub hosts: Seq<Host>,
    pub pending: Seq<Probe>,
}

impl View for ProbeTable {
    type V = TableModel;

    closed spec fn view(&self) -> TableModel {
        TableModel { identifier: self.identifier, hosts: self.hosts@, pending: self.pending@ }
    }
}

/// The sequence number that follows `s`, wrapping to 0 after 65535.
pub open spec fn next_after(s: u16) -> u16 {
    ((s + 1) % 65536) as u16
}

pub open spec fn same_key(a: Probe, b: Probe) -> bool {
    a.target == b.target && a.sequence == b.sequence
}

pub open spec fn keys_unique(s: Seq<Probe>) -> bool {
    forall|i: int, j: int|
        0 <= i < s.len() && 0 <= j < s.len() && i != j ==> !same_key(#[trigger] s[i], #[trigger] s[j])
}

pub open spec fn targets_unique(h: Seq<Host>) -> bool {
    forall|i: int, j: int|
        0 <= i < h.len() && 0 <= j < h.len() && i != j ==> (#[trigger] h[i]).target != (
        #[trigger] h[j]).target
}

pub open spec fn all_pending(s: Seq<Probe>) -> bool {
    forall|i: int| 0 <= i < s.len() ==> (#[trigger] s[i]).state == ProbeState::Pending
}

pub open spec fn has_host(h: Seq<Host>, target: u64) -> bool {
    exists|i: int| 0 <= i < h.len() && (#[trigger] h[i]).target == target
}

pub open spec fn is_pending(s: Seq<Probe>, target: u64, sequence: u16) -> bool {
    exists|i: int| 0 <= i < s.len() && (#[trigger] s[i]).target == target && s[i].sequence == sequence
}

/// Outstanding probes have distinct keys and are all pending, and hosts
/// have distinct handles.
pub open spec fn table_wf(m: TableModel) -> bool {
    &&& keys_unique(m.pending)
    &&& targets_unique(m.hosts)
    &&& all_pending(m.pending)
}

/// Round-trip time from `sent_at` to `now`; a clock that stepped back gives 0.
pub open spec fn rtt_of(sent_at: u64, now: u64) -> u64 {
    if now >= sent_at {
        (now - sent_at) as u64
    } else {
        0
    }
}

/// A probe older than `timeout` at time `now`.
pub open spec fn expired(p: Probe, now: u64, timeout: u64) -> bool {
    now as int - p.sent_at as int > timeout as int
}

pub open spec fn is_expired(now: u64, timeout: u64) -> spec_fn(Probe) -> bool {
    |p: Probe| expired(p, now, timeout)
}

pub open spec fn is_live(now: u64, timeout: u64) -> spec_fn(Probe) -> bool {
    |p: Probe| !expired(p, now, timeout)
}

pub open spec fn not_of_target(target: u64) -> spec_fn(Probe) -> bool {
    |p: Probe| p.target != target
}

pub open spec fn mark_timed_out(p: Probe) -> Probe {
    Probe { state: ProbeState::TimedOut, ..p }
}

pub open spec fn timed_out_seq(s: Seq<Probe>) -> Seq<Probe> {
    Seq::new(s.len(), |i: int| mark_timed_out(s[i]))
}

/// Filtering keeps keys distinct and every element pending.
pub proof fn lemma_filter_keeps_wf(s: Seq<Probe>, pred: spec_fn(Probe) -> bool)
    requires
        keys_unique(s),
        all_pending(s),
    ensures
        keys_unique(s.filter(pred)),
        all_pending(s.filter(pred)),
    decreases s.len(),
{
    reveal(Seq::filter);
    if s.len() > 0 {
        let init = s.drop_last();
        lemma_filter_keeps_wf(init, pred);
        let f = init.filter(pred);
        assert(s =~= init.push(s.last()));
        init.lemma_filter_push(s.last(), pred);
        if pred(s.last()) {
            let g = f.push(s.last());
            assert(s[s.len() - 1] == s.last());
            assert forall|k: int| 0 <= k < f.len() implies !same_key(f[k], s.last()) by {
                assert(f.contains(f[k]));
                init.lemma_filter_contains_rev(pred, f[k]);
                let j = choose|j: int| 0 <= j < init.len() && init[j] == f[k];
                assert(s[j] == init[j]);
            }
            assert forall|a: int, b: int|
                0 <= a < g.len() && 0 <= b < g.len() && a != b implies !same_key(#[trigger] g[a], #[trigger] g[b]) by {
                if a < f.len() && b < f.len() {
                    assert(g[a] == f[a] && g[b] == f[b]);
                } else if a < f.len() {
                    assert(g[a] == f[a]);
                } else {
                    assert(g[b] == f[b]);
                }
            }
            assert forall|k: int| 0 <= k < g.len() implies (#[trigger] g[k]).state == ProbeState::Pending by {
                if k < f.len() {
                    assert(g[k] == f[k]);
                }
            }
        }
    }
}

impl ProbeTable {
    pub open spec fn wf(&self) -> bool {
        table_wf(self@)
    }

    /// An empty table whose probes carry `identifier`.
    pub fn new(identifier: u16) -> (t: ProbeTable)
        ensures
            t.wf(),
            t@.identifier == identifier,
            t@.hosts.len() == 0,
            t@.pending.len() == 0,
    {
        ProbeTable { identifier, hosts: Vec::new(), pending: Vec::new() }
    }

    pub fn identifier(&self) -> (r: u16)
        ensures
            r == self@.identifier,
    {
        self.identifier
    }

    /// Number of outstanding probes.
    pub fn pending_count(&self) -> (r: usize)
        ensures
            r == self@.pending.len(),
    {
        self.pending.len()
    }

    fn find_host(&self, target: u64) -> (r: Option<usize>)
        ensures
            r is None <==> !has_host(self@.hosts, target),
            r matches Some(i) ==> i < self@.hosts.len() && self@.hosts[i as int].target == target,
    {
        let mut i: usize = 0;
        while i < self.hosts.len()
            invariant
                i <= self@.hosts.len(),
                forall|k: int| 0 <= k < i ==> (#[trigger] self@.hosts[k]).target != target,
            decreases self@.hosts.len() - i,
        {
            if self.hosts[i].target == target {
                return Some(i);
            }
            i = i + 1;
        }
        None
    }

    fn find_pending(&self, target: u64, sequence: u16) -> (r: Option<usize>)
        ensures
            r is None <==> !is_pending(self@.pending, target, sequence),
            r matches Some(i) ==> i < self@.pending.len() && self@.pending[i as int].target == target
                && self@.pending[i as int].sequence == sequence,
    {
        let mut i: usize = 0;
        while i < self.pending.len()
            invariant
                i <= self@.pending.len(),
                forall|k: int|
                    0 <= k < i ==> !((#[trigger] self@.pending[k]).target == target
                        && self@.pending[k].sequence == sequence),
            decreases self@.pending.len() - i,
        {
            if self.pending[i].target == target && self.pending[i].sequence == sequence {
                return Some(i);
            }
            i = i + 1;
        }
        None
    }

    /// Whether a probe with this key is outstanding.
    pub fn has_pending(&self, target: u64, sequence: u16) -> (r: bool)
        ensures
            r == is_pending(self@.pending, target, sequence),
    {
        self.find_pending(target, sequence).is_some()
    }

    /// Starts tracking `target`, its first probe numbered 0. Returns false,
    /// changing nothing, when the target is already tracked.
    pub fn add_host(&mut self, target: u64) -> (r: bool)
        requires
            old(self).wf(),
        ensures
            final(self).wf(),
            r == !has_host(old(self)@.hosts, target),
            r ==> final(self)@ == (TableModel {
                hosts: old(self)@.hosts.push(Host { target, next_seq: 0 }),
                ..old(self)@
            }),
            !r ==> final(self)@ == old(self)@,
    {
        if self.find_host(target).is_some() {
            return false;
        }
        self.hosts.push(Host { target, next_seq: 0 });
        assert(self@.hosts.last().target == target);
        true
    }

    /// Stops tracking `target` and drops its outstanding probes; other targets
    /// are untouched. Returns false, changing nothing, for an unknown target.
    pub fn remove_host(&mut self, target: u64) -> (r: bool)
        requires
            old(self).wf(),
        ensures
            final(self).wf(),
            r == has_host(old(self)@.hosts, target),
            final(self)@.identifier == old(self)@.identifier,
            r ==> exists|i: int|
                0 <= i < old(self)@.hosts.len() && old(self)@.hosts[i].target == target
                    && final(self)@.hosts == old(self)@.hosts.remove(i),
            r ==> final(self)@.pending == old(self)@.pending.filter(not_of_target(target)),
            !r ==> final(self)@ == old(self)@,
    {
        let idx = match self.find_host(target) {
            None => return false,
            Some(i) => i,
        };
        let ghost old_pending = self@.pending;
        let ghost hosts_before = self@.hosts;
        self.hosts.remove(idx);
        let mut kept: Vec<Probe> = Vec::new();
        let mut i: usize = 0;
        while i < self.pending.len()
            invariant
                i <= old_pending.len(),
                self@.pending == old_pending,
                kept@ == old_pending.take(i as int).filter(not_of_target(target)),
            decreases old_pending.len() - i,
        {
            let p = self.pending[i];
            proof {
                assert(old_pending.take(i + 1) =~= old_pending.take(i as int).push(p));
                old_pending.take(i as int).lemma_filter_push(p, not_of_target(target));
            }
            if p.target != target {
                kept.push(p);
            }
            i = i + 1;
        }
        assert(old_pending.take(i as int) =~= old_pending);
        self.pending = kept;
        proof {
            lemma_filter_keeps_wf(old_pending, not_of_target(target));
            assert forall|a: int, b: int|
                0 <= a < self@.hosts.len() && 0 <= b < self@.hosts.len() && a != b implies (
            #[trigger] self@.hosts[a]).target != (#[trigger] self@.hosts[b]).target by {
                let a0 = if a < idx { a } else { a + 1 };
                let b0 = if b < idx { b } else { b + 1 };
                assert(self@.hosts[a] == hosts_before[a0]);
                assert(self@.hosts[b] == hosts_before[b0]);
            }
        }
        true
    }

    /// Returns the sequence number for the next probe to `target` and advances
    /// the target's counter, wrapping to 0 after 65535.
    pub fn next_sequence(&mut self, target: u64) -> (r: Option<u16>)
        requires
            old(self).wf(),
        ensures
            final(self).wf(),
            r is Some <==> has_host(old(self)@.hosts, target),
            r matches Some(s) ==> exists|i: int|
                0 <= i < old(self)@.hosts.len() && old(self)@.hosts[i].target == target
                    && old(self)@.hosts[i].next_seq == s && final(self)@ == (TableModel {
                    hosts: old(self)@.hosts.update(i, Host { target, next_seq: next_after(s) }),
                    ..old(self)@
                }),
            r is None ==> final(self)@ == old(self)@,
    {
        let i = match self.find_host(target) {
            None => return None,
            Some(i) => i,
        };
        let s = self.hosts[i].next_seq;
        let n: u16 = if s == 65535 {
            0
        } else {
            s + 1
        };
        self.hosts.set(i, Host { target, next_seq: n });
        assert(self@.hosts =~= old(self)@.hosts.update(i as int, Host { target, next_seq: next_after(s) }));
        Some(s)
    }

    /// Records a probe to `target` with `sequence`, sent at `sent_at`, as pending.
    pub fn record_sent(&mut self, target: u64, sequence: u16, sent_at: u64) -> (r: Result<(), TableError>)
        requires
            old(self).wf(),
        ensures
            final(self).wf(),
            r is Ok <==> has_host(old(self)@.hosts, target) && !is_pending(old(self)@.pending, target, sequence),
            r == Err::<(), TableError>(TableError::UnknownTarget) <==> !has_host(old(self)@.hosts, target),
            r is Ok ==> final(self)@ == (TableModel {
                pending: old(self)@.pending.push(
                    Probe { target, sequence, sent_at, state: ProbeState::Pending },
                ),
                ..old(self)@
            }),
            r is Err ==> final(self)@ == old(self)@,
    {
        if self.find_host(target).is_none() {
            return Err(TableError::UnknownTarget);
        }
        if self.find_pending(target, sequence).is_some() {
            return Err(TableError::SequenceInUse);
        }
        self.pending.push(Probe { target, sequence, sent_at, state: ProbeState::Pending });
        proof {
            let s = self@.pending;
            assert forall|i: int, j: int|
                0 <= i < s.len() && 0 <= j < s.len() && i != j implies !same_key(#[trigger] s[i], #[trigger] s[j]) by {
                if i < s.len() - 1 && j < s.len() - 1 {
                    assert(s[i] == old(self)@.pending[i] && s[j] == old(self)@.pending[j]);
                } else if i < s.len() - 1 {
                    assert(s[i] == old(self)@.pending[i]);
                } else {
                    assert(s[j] == old(self)@.pending[j]);
                }
            }
        }
        Ok(())
    }

    /// Matches a reply to its outstanding probe. On a match the probe leaves
    /// the table and comes back `Replied` with its round-trip time; a reply
    /// with a foreign identifier or an unknown sequence changes nothing.
    pub fn record_reply(&mut self, target: u64, identifier: u16, sequence: u16, now: u64) -> (r: Option<Probe>)
        requires
            old(self).wf(),
        ensures
            final(self).wf(),
            r is Some <==> identifier == old(self)@.identifier && is_pending(old(self)@.pending, target, sequence),
            r matches Some(p) ==> exists|i: int|
                0 <= i < old(self)@.pending.len() && old(self)@.pending[i].target == target
                    && old(self)@.pending[i].sequence == sequence
                    && p == (Probe {
                    state: ProbeState::Replied { rtt: rtt_of(old(self)@.pending[i].sent_at, now) },
                    ..old(self)@.pending[i]
                }) && final(self)@ == (TableModel {
                    pending: old(self)@.pending.remove(i),
                    ..old(self)@
                }),
            r is None ==> final(self)@ == old(self)@,
    {
        if identifier != self.identifier {
            return None;
        }
        let i = match self.find_pending(target, sequence) {
            None => return None,
            Some(i) => i,
        };
        let ghost before = self@.pending;
        let p = self.pending.remove(i);
        let rtt: u64 = if now >= p.sent_at {
            now - p.sent_at
        } else {
            0
        };
        proof {
            let s = self@.pending;
            assert forall|a: int, b: int|
                0 <= a < s.len() && 0 <= b < s.len() && a != b implies !same_key(#[trigger] s[a], #[trigger] s[b]) by {
                let a0 = if a < i { a } else { a + 1 };
                let b0 = if b < i { b } else { b + 1 };
                assert(s[a] == before[a0]);
                assert(s[b] == before[b0]);
            }
            assert forall|a: int| 0 <= a < s.len() implies (#[trigger] s[a]).state == ProbeState::Pending by {
                let a0 = if a < i { a } else { a + 1 };
                assert(s[a] == before[a0]);
            }
        }
        Some(Probe { state: ProbeState::Replied { rtt }, ..p })
    }

    /// Removes every probe older than `timeout` at `now` and returns them,
    /// in table order, marked `TimedOut`.
    pub fn sweep_timeouts(&mut self, now: u64, timeout: u64) -> (r: Vec<Probe>)
        requires
            old(self).wf(),
        ensures
            final(self).wf(),
            r@ == timed_out_seq(old(self)@.pending.filter(is_expired(now, timeout))),
            final(self)@ == (TableModel {
                pending: old(self)@.pending.filter(is_live(now, timeout)),
                ..old(self)@
            }),
    {
        let ghost s = self@.pending;
        let mut kept: Vec<Probe> = Vec::new();
        let mut out: Vec<Probe> = Vec::new();
        let mut i: usize = 0;
        while i < self.pending.len()
            invariant
                i <= s.len(),
                self@.pending == s,
                kept@ == s.take(i as int).filter(is_live(now, timeout)),
                out@ == timed_out_seq(s.take(i as int).filter(is_expired(now, timeout))),
            decreases s.len() - i,
        {
            let p = self.pending[i];
            proof {
                assert(s.take(i + 1) =~= s.take(i as int).push(p));
                s.take(i as int).lemma_filter_push(p, is_live(now, timeout));
                s.take(i as int).lemma_filter_push(p, is_expired(now, timeout));
            }
            let old_enough = now >= p.sent_at && now - p.sent_at > timeout;
            if old_enough {
                out.push(Probe { state: ProbeState::TimedOut, ..p });
                assert(out@ =~= timed_out_seq(s.take(i + 1).filter(is_expired(now, timeout))));
            } else {
                kept.push(p);
            }
            i = i + 1;
        }
        assert(s.take(i as int) =~= s);
        self.pending = kept;
        proof {
            lemma_filter_keeps_wf(s, is_live(now, timeout));
        }
        out
    }
}

/// The sequence number of the `k`-th probe after one numbered `start`.
pub open spec fn nth_sequence(start: u16, k: nat) -> u16
    decreases k,
{
    if k == 0 {
        start
    } else {
        next_after(nth_sequence(start, (k - 1) as nat))
    }
}

/// Successive probes to a target are numbered `start`, `start + 1`, ...
/// modulo 65536, and no two among 65536 consecutive probes share a number.
pub proof fn lemma_sequences_distinct(start: u16, i: nat, j: nat)
    requires
        i < j < 65536,
    ensures
        nth_sequence(start, i) as int == (start + i) % 65536,
        nth_sequence(start, j) as int == (start + j) % 65536,
        nth_sequence(start, i) != nth_sequence(start, j),
{
    lemma_nth_sequence(start, i);
    lemma_nth_sequence(start, j);
    let a = start + i;
    let d = j - i;
    lemma_fundamental_div_mod(a, 65536);
    lemma_fundamental_div_mod(a + d, 65536);
    if (a % 65536) == ((a + d) % 65536) {
        assert(false) by (nonlinear_arith)
            requires
                a == 65536 * (a / 65536) + a % 65536,
                a + d == 65536 * ((a + d) / 65536) + (a + d) % 65536,
                (a % 65536) == ((a + d) % 65536),
                0 < d < 65536,
        ;
    }
}

proof fn lemma_nth_sequence(start: u16, k: nat)
    ensures
        nth_sequence(start, k) as int == (start + k) % 65536,
    decreases k,
{
    if k > 0 {
        lemma_nth_sequence(start, (k - 1) as nat);
        lemma_add_mod_noop(start + k - 1, 1, 65536);
    }
}

/// A probe recorded as sent at `t` to a target with no outstanding probe of
/// that sequence is the one a reply at `t + d` matches, and its round-trip
/// time is exactly `d`.
pub proof fn lemma_rtt_exact(m: TableModel, target: u64, sequence: u16, t: u64, d: u64)
    requires
        table_wf(m),
        !is_pending(m.pending, target, sequence),
        t + d <= u64::MAX,
    ensures
        ({
            let s = m.pending.push(Probe { target, sequence, sent_at: t, state: ProbeState::Pending });
            &&& is_pending(s, target, sequence)
            &&& forall|i: int|
                0 <= i < s.len() && (#[trigger] s[i]).target == target && s[i].sequence == sequence
                    ==> rtt_of(s[i].sent_at, (t + d) as u64) == d
        }),
{
    let s = m.pending.push(Probe { target, sequence, sent_at: t, state: ProbeState::Pending });
    assert(s[s.len() - 1].target == target);
    assert forall|i: int|
        0 <= i < s.len() && (#[trigger] s[i]).target == target && s[i].sequence == sequence implies rtt_of(
        s[i].sent_at,
        (t + d) as u64,
    ) == d by {
        if i < m.pending.len() {
            assert(s[i] == m.pending[i]);
        }
    }
}

/// A sweep moves each expired probe to `TimedOut` exactly once: every
/// expired probe is reported, no key is reported twice, and no reported
/// key stays outstanding, so no later sweep or reply can report it again.
pub proof fn lemma_timeout_once(m: TableModel, now: u64, timeout: u64)
    requires
        table_wf(m),
    ensures
        ({
            let out = timed_out_seq(m.pending.filter(is_expired(now, timeout)));
            let rest = m.pending.filter(is_live(now, timeout));
            &&& forall|k: int|
                0 <= k < m.pending.len() && expired(#[trigger] m.pending[k], now, timeout)
                    ==> exists|j: int| 0 <= j < out.len() && out[j] == mark_timed_out(m.pending[k])
            &&& forall|j: int| 0 <= j < out.len() ==> (#[trigger] out[j]).state == ProbeState::TimedOut
            &&& keys_unique(out)
            &&& forall|j: int, k: int|
                0 <= j < out.len() && 0 <= k < rest.len() ==> !same_key(#[trigger] out[j], #[trigger] rest[k])
        }),
{
    let ex = m.pending.filter(is_expired(now, timeout));
    let out = timed_out_seq(ex);
    let rest = m.pending.filter(is_live(now, timeout));
    lemma_filter_keeps_wf(m.pending, is_expired(now, timeout));
    assert forall|k: int|
        0 <= k < m.pending.len() && expired(#[trigger] m.pending[k], now, timeout) implies exists|j: int|
        0 <= j < out.len() && out[j] == mark_timed_out(m.pending[k]) by {
        assert(is_expired(now, timeout)(m.pending[k]));
        assert(ex.contains(m.pending[k]));
        let j = choose|j: int| 0 <= j < ex.len() && ex[j] == m.pending[k];
        assert(out[j] == mark_timed_out(ex[j]));
    }
    assert forall|a: int, b: int|
        0 <= a < out.len() && 0 <= b < out.len() && a != b implies !same_key(#[trigger] out[a], #[trigger] out[b]) by {
        assert(out[a] == mark_timed_out(ex[a]) && out[b] == mark_timed_out(ex[b]));
    }
    assert forall|j: int, k: int|
        0 <= j < out.len() && 0 <= k < rest.len() implies !same_key(#[trigger] out[j], #[trigger] rest[k]) by {
        assert(out[j] == mark_timed_out(ex[j]));
        assert(ex.contains(ex[j]));
        assert(rest.contains(rest[k]));
        m.pending.lemma_filter_contains_rev(is_expired(now, timeout), ex[j]);
        m.pending.lemma_filter_contains_rev(is_live(now, timeout), rest[k]);
        let a = choose|a: int| 0 <= a < m.pending.len() && m.pending[a] == ex[j];
        let b = choose|b: int| 0 <= b < m.pending.len() && m.pending[b] == rest[k];
        assert(is_expired(now, timeout)(ex[j]));
        assert(is_live(now, timeout)(rest[k]));
        assert(a != b);
    }
}

} // verus!
