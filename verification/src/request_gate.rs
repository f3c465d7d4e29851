//! Request gates: per-key running-request counters and the table that keeps
//! one gate per key.
use vstd::prelude::*;
use crate::text::{concat, non_blank, non_blank_opt, str_eq, to_owned_string, trim, trim_str};

verus! {

/// Seconds after its last use from which an idle gate may be dropped.
pub const REQUEST_GATE_LOCK_TTL_SECS: i64 = 1800;

/// Minimum seconds between two sweeps of the table of gates.
pub const REQUEST_GATE_LOCK_CLEANUP_INTERVAL_SECS: i64 = 60;

/// Requests of one client IP that may run at once.
pub const CLIENT_IP_GATE_MAX_RUNNING: usize = 4;

/// Running-request counter of one gate; at most `max_running` requests hold it.
pub struct RequestGateState {
    running: usize,
    max_running: usize,
}

impl RequestGateState {
    #[verifier::type_invariant]
    spec fn inv(self) -> bool {
        1 <= self.max_running && self.running <= self.max_running
    }

    pub closed spec fn spec_running(self) -> nat {
        self.running as nat
    }

    pub closed spec fn spec_max_running(self) -> nat {
        self.max_running as nat
    }

    /// A gate that admits one request at a time.
    pub fn new() -> (r: Self)
        ensures
            r.spec_running() == 0,
            r.spec_max_running() == 1,
    {
        RequestGateState { running: 0, max_running: 1 }
    }

    /// The same gate admitting `max_running` requests (at least one).
    pub fn with_max_running(self, max_running: usize) -> (r: Self)
        requires
            self.spec_running() == 0,
        ensures
            r.spec_running() == 0,
            r.spec_max_running() == if max_running == 0 {
                1
            } else {
                max_running as nat
            },
    {
        let m = if max_running == 0 {
            1
        } else {
            max_running
        };
        RequestGateState { running: 0, max_running: m }
    }

    pub fn running(&self) -> (r: usize)
        ensures
            r == self.spec_running(),
            r <= self.spec_max_running(),
    {
        proof {
            use_type_invariant(self);
        }
        self.running
    }

    pub fn max_running(&self) -> (r: usize)
        ensures
            r == self.spec_max_running(),
            r >= 1,
    {
        proof {
            use_type_invariant(self);
        }
        self.max_running
    }

    /// Whether a new request has to wait.
    pub fn is_full(&self) -> (r: bool)
        ensures
            r == (self.spec_running() >= self.spec_max_running()),
    {
        self.running >= self.max_running
    }

    /// Admits one more request when this gate is not full.
    pub fn try_acquire(&mut self) -> (r: bool)
        ensures
            r == (old(self).spec_running() < old(self).spec_max_running()),
            final(self).spec_max_running() == old(self).spec_max_running(),
            final(self).spec_running() == running_after_acquire(
                old(self).spec_running(),
                old(self).spec_max_running(),
            ),
            final(self).spec_running() <= final(self).spec_max_running(),
    {
        proof {
            use_type_invariant(&*self);
        }
        if self.running >= self.max_running {
            return false;
        }
        self.running = self.running + 1;
        true
    }

    /// Lets one request go (saturating at zero).
    pub fn release(&mut self)
        ensures
            final(self).spec_max_running() == old(self).spec_max_running(),
            final(self).spec_running() == running_after_release(old(self).spec_running()),
    {
        proof {
            use_type_invariant(&*self);
        }
        self.running = self.running.saturating_sub(1);
    }
}

/// The number of requests running after an acquire attempt: one more when
/// there is room, unchanged when the limit is reached.
pub open spec fn running_after_acquire(running: nat, max_running: nat) -> nat {
    if running < max_running {
        running + 1
    } else {
        running
    }
}

/// The number of requests running after a release (saturating at zero).
pub open spec fn running_after_release(running: nat) -> nat {
    if running == 0 {
        0
    } else {
        (running - 1) as nat
    }
}

/// An acquire that succeeds, followed by a release, leaves the number of
/// running requests as it was; an acquire on a full gate changes nothing.
pub proof fn lemma_acquire_release_restores(running: nat, max_running: nat)
    ensures
        running < max_running ==> running_after_release(running_after_acquire(running, max_running))
            == running,
        running >= max_running ==> running_after_acquire(running, max_running) == running,
{
}

/// The model part of a gate key: the trimmed model, `-` when absent or blank.
pub open spec fn gate_model_part(model: Option<Seq<char>>) -> Seq<char> {
    match model {
        Some(m) => match non_blank(m) {
            Some(t) => t,
            None => "-"@,
        },
        None => "-"@,
    }
}

pub open spec fn spec_gate_key(key_id: Seq<char>, path: Seq<char>, model: Option<Seq<char>>) -> Seq<char> {
    trim(key_id) + "|"@ + trim(path) + "|"@ + gate_model_part(model)
}

/// Requests of one scope share one gate key: the key id and path count once
/// trimmed, and an absent, blank or `-` model counts as `-`.
pub proof fn lemma_same_scope_same_key(
    key_a: Seq<char>,
    path_a: Seq<char>,
    model_a: Option<Seq<char>>,
    key_b: Seq<char>,
    path_b: Seq<char>,
    model_b: Option<Seq<char>>,
)
    requires
        trim(key_a) == trim(key_b),
        trim(path_a) == trim(path_b),
        gate_model_part(model_a) == gate_model_part(model_b),
    ensures
        spec_gate_key(key_a, path_a, model_a) == spec_gate_key(key_b, path_b, model_b),
        gate_model_part(None) == gate_model_part(Some("-"@)),
        forall|m: Seq<char>| non_blank(m) is None ==> gate_model_part(Some(m)) == gate_model_part(None),
{
    reveal_strlit("-");
    crate::text::lemma_dash_non_blank();
}

/// Gate key of a request: key id, path and model (`-` when absent), trimmed
/// and joined by `|`.
pub fn gate_key(key_id: &str, path: &str, model: Option<&str>) -> (r: String)
    ensures
        r@ == spec_gate_key(key_id@, path@, match model {
            Some(m) => Some(m@),
            None => None,
        }),
{
    let m = match non_blank_opt(model) {
        Some(t) => t,
        None => to_owned_string("-"),
    };
    let mut r = trim_str(key_id);
    r.append("|");
    r.append(trim_str(path).as_str());
    r.append("|");
    r.append(m.as_str());
    r
}

/// Gate key of a client IP.
pub fn client_ip_gate_key(client_ip: &str) -> (r: String)
    ensures
        r@ == "client_ip|"@ + trim(client_ip@),
{
    concat("client_ip|", trim_str(client_ip).as_str())
}

/// `a - b` saturating at the bounds of `i64`.
pub open spec fn spec_sat_sub(a: i64, b: i64) -> i64 {
    if a - b > i64::MAX {
        i64::MAX
    } else if a - b < i64::MIN {
        i64::MIN
    } else {
        (a - b) as i64
    }
}

pub fn sat_sub_i64(a: i64, b: i64) -> (r: i64)
    ensures
        r == spec_sat_sub(a, b),
{
    let d: i128 = (a as i128) - (b as i128);
    if d > (i64::MAX as i128) {
        i64::MAX
    } else if d < (i64::MIN as i128) {
        i64::MIN
    } else {
        d as i64
    }
}

/// One gate of the table with the time it was last handed out.
pub struct GateLockEntry<L> {
    pub key: String,
    pub lock: L,
    pub last_seen_at: i64,
}

/// The gates by key.
pub struct RequestGateLockTable<L> {
    entries: Vec<GateLockEntry<L>>,
    last_cleanup_at: i64,
}

pub open spec fn keys_of<L>(e: Seq<GateLockEntry<L>>) -> Seq<Seq<char>> {
    e.map_values(|x: GateLockEntry<L>| x.key@)
}

pub open spec fn is_stale(now: i64, last_seen_at: i64) -> bool {
    spec_sat_sub(now, last_seen_at) > REQUEST_GATE_LOCK_TTL_SECS
}

/// The gates that a sweep at `now` keeps: the fresh ones and those in use.
pub open spec fn kept_entries<L>(e: Seq<GateLockEntry<L>>, in_use: Seq<bool>, now: i64) -> Seq<
    GateLockEntry<L>,
>
    decreases e.len(),
{
    if e.len() == 0 {
        e
    } else {
        let r = kept_entries(e.drop_last(), in_use.drop_last(), now);
        if !is_stale(now, e.last().last_seen_at) || in_use.last() {
            r.push(e.last())
        } else {
            r
        }
    }
}

pub open spec fn cleanup_due(last_cleanup_at: i64, now: i64) -> bool {
    !(last_cleanup_at != 0 && spec_sat_sub(now, last_cleanup_at)
        < REQUEST_GATE_LOCK_CLEANUP_INTERVAL_SECS)
}

impl<L> RequestGateLockTable<L> {
    pub closed spec fn spec_entries(self) -> Seq<GateLockEntry<L>> {
        self.entries@
    }

    pub closed spec fn spec_last_cleanup_at(self) -> i64 {
        self.last_cleanup_at
    }

    pub fn new() -> (r: Self)
        ensures
            r.spec_entries().len() == 0,
            r.spec_last_cleanup_at() == 0,
    {
        RequestGateLockTable { entries: Vec::new(), last_cleanup_at: 0 }
    }

    pub fn len(&self) -> (r: usize)
        ensures
            r == self.spec_entries().len(),
    {
        self.entries.len()
    }

    /// The lock kept at `index`.
    pub fn lock_at(&self, index: usize) -> (r: &L)
        requires
            index < self.spec_entries().len(),
        ensures
            *r == self.spec_entries()[index as int].lock,
    {
        &self.entries[index].lock
    }

    /// The key kept at `index`.
    pub fn key_at(&self, index: usize) -> (r: &String)
        requires
            index < self.spec_entries().len(),
        ensures
            *r == self.spec_entries()[index as int].key,
    {
        &self.entries[index].key
    }

    /// Position of `key` in the table.
    pub fn find(&self, key: &str) -> (r: Option<usize>)
        ensures
            match r {
                Some(i) => i < self.spec_entries().len() && self.spec_entries()[i as int].key@
                    == key@,
                None => !keys_of(self.spec_entries()).contains(key@),
            },
    {
        let mut i: usize = 0;
        while i < self.entries.len()
            invariant
                i <= self.entries@.len(),
                forall|k: int| 0 <= k < i ==> self.entries@[k].key@ != key@,
            decreases self.entries.len() - i,
        {
            if str_eq(self.entries[i].key.as_str(), key) {
                return Some(i);
            }
            i = i + 1;
        }
        proof {
            if keys_of(self.entries@).contains(key@) {
                let j = choose|j: int| 0 <= j < keys_of(self.entries@).len() && keys_of(self.entries@)[j] == key@;
                assert(self.entries@[j].key@ == key@);
            }
        }
        None
    }

    /// The position of `key`, last seen now; `fresh` becomes its
    /// gate when the key has none yet (and is dropped otherwise).
    pub fn touch_or_insert(&mut self, key: String, now: i64, fresh: L) -> (r: usize)
        ensures
            r < final(self).spec_entries().len(),
            final(self).spec_entries()[r as int].key@ == key@,
            final(self).spec_entries()[r as int].last_seen_at == now,
            final(self).spec_last_cleanup_at() == old(self).spec_last_cleanup_at(),
            keys_of(old(self).spec_entries()).no_duplicates() ==> keys_of(
                final(self).spec_entries(),
            ).no_duplicates(),
            keys_of(old(self).spec_entries()).contains(key@) ==> {
                &&& old(self).spec_entries()[r as int].key@ == key@
                &&& final(self).spec_entries().len() == old(self).spec_entries().len()
                &&& final(self).spec_entries()[r as int].lock == old(self).spec_entries()[r as int].lock
                &&& forall|k: int| 0 <= k < old(self).spec_entries().len() && k != r ==>
                    final(self).spec_entries()[k] == old(self).spec_entries()[k]
            },
            !keys_of(old(self).spec_entries()).contains(key@) ==> {
                &&& final(self).spec_entries().len() == old(self).spec_entries().len() + 1
                &&& r == old(self).spec_entries().len()
                &&& final(self).spec_entries()[r as int].lock == fresh
                &&& forall|k: int| 0 <= k < old(self).spec_entries().len() ==>
                    final(self).spec_entries()[k] == old(self).spec_entries()[k]
            },
    {
        match self.find(key.as_str()) {
            Some(i) => {
                let ghost before = self.entries@;
                let mut entries: Vec<GateLockEntry<L>> = Vec::new();
                std::mem::swap(&mut entries, &mut self.entries);
                let mut tail = entries.split_off(i);
                let mut e = tail.remove(0);
                e.last_seen_at = now;
                entries.push(e);
                entries.append(&mut tail);
                proof {
                    assert(keys_of(before)[i as int] == key@);
                    assert(entries@ =~= before.update(i as int, entries@[i as int]));
                    assert(keys_of(entries@) =~= keys_of(before));
                }
                self.entries = entries;
                i
            },
            None => {
                let ghost before = self.entries@;
                let n = self.entries.len();
                let mut entries: Vec<GateLockEntry<L>> = Vec::new();
                std::mem::swap(&mut entries, &mut self.entries);
                entries.push(GateLockEntry { key, lock: fresh, last_seen_at: now });
                proof {
                    assert(keys_of(entries@) =~= keys_of(before).push(key@));
                    if keys_of(before).no_duplicates() {
                        assert forall|a: int, b: int| 0 <= a < b < keys_of(entries@).len() implies keys_of(entries@)[a] != keys_of(entries@)[b] by {
                            if b == before.len() {
                                assert(keys_of(before)[a] == keys_of(entries@)[a]);
                            }
                        }
                    }
                }
                self.entries = entries;
                n
            },
        }
    }

    /// Sweeps idle gates when a sweep is due: gates unused for more than the
    /// TTL go, unless `in_use[i]` says that the one at position `i` is still
    /// held elsewhere; a sweep records `now` as the last cleanup time.
    pub fn maybe_cleanup(&mut self, now: i64, in_use: &Vec<bool>)
        requires
            in_use@.len() == old(self).spec_entries().len(),
        ensures
            !cleanup_due(old(self).spec_last_cleanup_at(), now) ==> final(self).spec_entries()
                == old(self).spec_entries() && final(self).spec_last_cleanup_at() == old(
                self,
            ).spec_last_cleanup_at(),
            cleanup_due(old(self).spec_last_cleanup_at(), now) ==> final(self).spec_last_cleanup_at()
                == now && final(self).spec_entries() == kept_entries(
                old(self).spec_entries(),
                in_use@,
                now,
            ),
    {
        if self.last_cleanup_at != 0 && sat_sub_i64(now, self.last_cleanup_at)
            < REQUEST_GATE_LOCK_CLEANUP_INTERVAL_SECS {
            return;
        }
        self.last_cleanup_at = now;
        let ghost all = self.entries@;
        let mut rest: Vec<GateLockEntry<L>> = Vec::new();
        std::mem::swap(&mut rest, &mut self.entries);
        let mut kept: Vec<GateLockEntry<L>> = Vec::new();
        let n = rest.len();
        let mut i: usize = 0;
        while i < n
            invariant
                i <= n,
                n == all.len(),
                in_use@.len() == n,
                rest@ == all.subrange(i as int, n as int),
                kept@ == kept_entries(all.subrange(0, i as int), in_use@.subrange(0, i as int), now),
            decreases n - i,
        {
            let e = rest.remove(0);
            let keep = sat_sub_i64(now, e.last_seen_at) <= REQUEST_GATE_LOCK_TTL_SECS || in_use[i];
            proof {
                assert(all.subrange(0, i + 1).drop_last() =~= all.subrange(0, i as int));
                assert(in_use@.subrange(0, i + 1).drop_last() =~= in_use@.subrange(0, i as int));
                assert(all.subrange(0, i + 1).last() == all[i as int]);
                assert(in_use@.subrange(0, i + 1).last() == in_use@[i as int]);
            }
            if keep {
                kept.push(e);
            }
            proof {
                assert(rest@ =~= all.subrange(i + 1, n as int));
            }
            i = i + 1;
        }
        proof {
            assert(all.subrange(0, n as int) =~= all);
            assert(in_use@.subrange(0, n as int) =~= in_use@);
        }
        self.entries = kept;
    }

    /// Drops every gate.
    pub fn clear(&mut self)
        ensures
            final(self).spec_entries().len() == 0,
            final(self).spec_last_cleanup_at() == 0,
    {
        self.entries = Vec::new();
        self.last_cleanup_at = 0;
    }
}

proof fn lemma_kept_contains<L>(e: Seq<GateLockEntry<L>>, in_use: Seq<bool>, now: i64, i: int)
    requires
        in_use.len() == e.len(),
        0 <= i < e.len(),
        in_use[i] || !is_stale(now, e[i].last_seen_at),
    ensures
        kept_entries(e, in_use, now).contains(e[i]),
    decreases e.len(),
{
    let ei = e.drop_last();
    let ui = in_use.drop_last();
    let r = kept_entries(ei, ui, now);
    let k = kept_entries(e, in_use, now);
    if i == e.len() - 1 {
        assert(k == r.push(e.last()));
        assert(k[r.len() as int] == e[i]);
    } else {
        assert(ei[i] == e[i]);
        assert(ui[i] == in_use[i]);
        lemma_kept_contains(ei, ui, now, i);
        let j = choose|j: int| 0 <= j < r.len() && r[j] == ei[i];
        if k == r.push(e.last()) {
            assert(k[j] == e[i]);
        }
    }
}

proof fn lemma_kept_from_table<L>(e: Seq<GateLockEntry<L>>, in_use: Seq<bool>, now: i64, x: GateLockEntry<L>)
    requires
        in_use.len() == e.len(),
        kept_entries(e, in_use, now).contains(x),
    ensures
        e.contains(x),
    decreases e.len(),
{
    let ei = e.drop_last();
    let ui = in_use.drop_last();
    let r = kept_entries(ei, ui, now);
    let k = kept_entries(e, in_use, now);
    let j = choose|j: int| 0 <= j < k.len() && k[j] == x;
    if j < r.len() {
        assert(r[j] == x);
        lemma_kept_from_table(ei, ui, now, x);
        let m = choose|m: int| 0 <= m < ei.len() && ei[m] == x;
        assert(e[m] == x);
    } else {
        assert(e[e.len() - 1] == x);
    }
}

/// A sweep keeps every gate that is still held elsewhere or was handed out
/// within the TTL, and keeps nothing that the table did not hold.
pub proof fn lemma_sweep_keeps_live_gates<L>(e: Seq<GateLockEntry<L>>, in_use: Seq<bool>, now: i64)
    requires
        in_use.len() == e.len(),
    ensures
        forall|i: int|
            0 <= i < e.len() && (in_use[i] || !is_stale(now, e[i].last_seen_at))
                ==> #[trigger] kept_entries(e, in_use, now).contains(e[i]),
        forall|x: GateLockEntry<L>| #[trigger] kept_entries(e, in_use, now).contains(x) ==> e.contains(x),
{
    assert forall|i: int|
        0 <= i < e.len() && (in_use[i] || !is_stale(now, e[i].last_seen_at))
            implies #[trigger] kept_entries(e, in_use, now).contains(e[i]) by {
        lemma_kept_contains(e, in_use, now, i);
    }
    assert forall|x: GateLockEntry<L>| #[trigger] kept_entries(e, in_use, now).contains(x) implies e.contains(x) by {
        lemma_kept_from_table(e, in_use, now, x);
    }
}

} // verus!
