//! Requests in flight through the gateway: one entry per trace id, queued or
//! running, and the dashboard snapshot built from them (counts, the oldest
//! running requests first, and per-client-IP groups).
//!
//! Times come from the caller: `now` on a monotonic clock in nanoseconds, and
//! `now_ms` as wall-clock milliseconds since the Unix epoch.
use vstd::prelude::*;
use crate::text::{non_blank, non_blank_opt, non_blank_str, seq_lt, str_eq, str_lt, to_owned_string,
    trim, trim_str};

verus! {

/// Whether a request waits for a slot or runs.
#[derive(Clone, Copy, Debug, PartialEq, Eq, Structural)]
pub enum ActivityStatus {
    Queued,
    Running,
}

impl ActivityStatus {
    /// `"queued"` or `"running"`.
    pub fn as_str(&self) -> (r: &'static str)
        ensures
            r@ == status_text(*self),
    {
        match self {
            ActivityStatus::Queued => "queued",
            ActivityStatus::Running => "running",
        }
    }
}

pub open spec fn status_text(s: ActivityStatus) -> Seq<char> {
    match s {
        ActivityStatus::Queued => "queued"@,
        ActivityStatus::Running => "running"@,
    }
}

/// What a request reports when it enters the gateway.
pub struct RequestActivityStart<'a> {
    pub trace_id: &'a str,
    pub client_ip: Option<&'a str>,
    pub key_id: &'a str,
    pub path: &'a str,
    pub method: &'a str,
    pub model: Option<&'a str>,
}

/// One request in flight.
pub struct RequestActivityEntry {
    pub trace_id: String,
    pub status: ActivityStatus,
    pub client_ip: Option<String>,
    pub key_id: String,
    pub path: String,
    pub method: String,
    pub model: Option<String>,
    pub route_kind: String,
    pub source_kind: Option<String>,
    pub source_id: Option<String>,
    pub created_at: u64,
    pub created_at_ms: i64,
    pub queued_at: Option<u64>,
    pub queued_at_ms: Option<i64>,
    pub running_at: Option<u64>,
    pub running_at_ms: Option<i64>,
}

/// An entry as a value.
pub struct ActivityV {
    pub trace_id: Seq<char>,
    pub status: ActivityStatus,
    pub client_ip: Option<Seq<char>>,
    pub key_id: Seq<char>,
    pub path: Seq<char>,
    pub method: Seq<char>,
    pub model: Option<Seq<char>>,
    pub route_kind: Seq<char>,
    pub source_kind: Option<Seq<char>>,
    pub source_id: Option<Seq<char>>,
    pub created_at: u64,
    pub created_at_ms: i64,
    pub queued_at: Option<u64>,
    pub queued_at_ms: Option<i64>,
    pub running_at: Option<u64>,
    pub running_at_ms: Option<i64>,
}

pub open spec fn ostr(o: Option<String>) -> Option<Seq<char>> {
    match o {
        Some(s) => Some(s@),
        None => None,
    }
}

pub open spec fn oref(o: Option<&str>) -> Option<Seq<char>> {
    match o {
        Some(s) => Some(s@),
        None => None,
    }
}

/// `Option<&str>` trimmed and kept when not empty.
pub open spec fn clean_opt(o: Option<Seq<char>>) -> Option<Seq<char>> {
    match o {
        Some(s) => non_blank(s),
        None => None,
    }
}

impl View for RequestActivityEntry {
    type V = ActivityV;

    open spec fn view(&self) -> ActivityV {
        ActivityV {
            trace_id: self.trace_id@,
            status: self.status,
            client_ip: ostr(self.client_ip),
            key_id: self.key_id@,
            path: self.path@,
            method: self.method@,
            model: ostr(self.model),
            route_kind: self.route_kind@,
            source_kind: ostr(self.source_kind),
            source_id: ostr(self.source_id),
            created_at: self.created_at,
            created_at_ms: self.created_at_ms,
            queued_at: self.queued_at,
            queued_at_ms: self.queued_at_ms,
            running_at: self.running_at,
            running_at_ms: self.running_at_ms,
        }
    }
}

pub open spec fn entry_views(e: Seq<RequestActivityEntry>) -> Seq<ActivityV> {
    Seq::new(e.len(), |i: int| e[i]@)
}

/// The entry of a request that just arrived: queued, on the `gateway` route.
pub open spec fn started_entry(s: RequestActivityStart, now: u64, now_ms: i64) -> ActivityV {
    ActivityV {
        trace_id: trim(s.trace_id@),
        status: ActivityStatus::Queued,
        client_ip: clean_opt(oref(s.client_ip)),
        key_id: trim(s.key_id@),
        path: trim(s.path@),
        method: trim(s.method@),
        model: clean_opt(oref(s.model)),
        route_kind: "gateway"@,
        source_kind: None,
        source_id: None,
        created_at: now,
        created_at_ms: now_ms,
        queued_at: Some(now),
        queued_at_ms: Some(now_ms),
        running_at: None,
        running_at_ms: None,
    }
}

/// Index of the entry with the trace id, or -1.
pub open spec fn act_index(c: Seq<ActivityV>, id: Seq<char>) -> int
    decreases c.len(),
{
    if c.len() == 0 {
        -1
    } else if c[0].trace_id == id {
        0
    } else {
        let r = act_index(c.drop_first(), id);
        if r < 0 {
            -1
        } else {
            r + 1
        }
    }
}

/// The table with `e` under its trace id (replacing an entry of that id).
pub open spec fn act_upsert(c: Seq<ActivityV>, e: ActivityV) -> Seq<ActivityV> {
    let i = act_index(c, e.trace_id);
    if i >= 0 {
        c.update(i, e)
    } else {
        c.push(e)
    }
}

/// The table without the entry of the trace id.
pub open spec fn act_remove(c: Seq<ActivityV>, id: Seq<char>) -> Seq<ActivityV> {
    let i = act_index(c, id);
    if i >= 0 {
        c.remove(i)
    } else {
        c
    }
}

/// Back in the queue on `route_kind`.
pub open spec fn queued_again(e: ActivityV, route_kind: Seq<char>, now: u64, now_ms: i64) -> ActivityV {
    ActivityV {
        status: ActivityStatus::Queued,
        route_kind: trim(route_kind),
        queued_at: Some(now),
        queued_at_ms: Some(now_ms),
        running_at: None,
        running_at_ms: None,
        ..e
    }
}

/// Running on `route_kind`; a request never queued counts as queued from its
/// creation.
pub open spec fn now_running(e: ActivityV, route_kind: Seq<char>, now: u64, now_ms: i64) -> ActivityV {
    ActivityV {
        status: ActivityStatus::Running,
        route_kind: trim(route_kind),
        queued_at: if e.queued_at is None {
            Some(e.created_at)
        } else {
            e.queued_at
        },
        queued_at_ms: if e.queued_at is None {
            Some(e.created_at_ms)
        } else {
            e.queued_at_ms
        },
        running_at: Some(now),
        running_at_ms: Some(now_ms),
        ..e
    }
}

/// The upstream source that serves the request.
pub open spec fn with_source(e: ActivityV, kind: Seq<char>, id: Seq<char>) -> ActivityV {
    ActivityV { source_kind: non_blank(kind), source_id: non_blank(id), ..e }
}

pub open spec fn ids_unique(c: Seq<ActivityV>) -> bool {
    forall|a: int, b: int| 0 <= a < b < c.len() ==> c[a].trace_id != c[b].trace_id
}

proof fn lemma_act_scan(c: Seq<ActivityV>, id: Seq<char>, i: int)
    requires
        0 <= i <= c.len(),
        forall|j: int| 0 <= j < i ==> c[j].trace_id != id,
    ensures
        i < c.len() && c[i].trace_id == id ==> act_index(c, id) == i,
        i == c.len() ==> act_index(c, id) == -1,
    decreases i,
{
    if i > 0 {
        lemma_act_scan(c.drop_first(), id, i - 1);
    }
}

proof fn lemma_act_index_bounds(c: Seq<ActivityV>, id: Seq<char>)
    ensures
        -1 <= act_index(c, id) < c.len(),
        act_index(c, id) >= 0 ==> c[act_index(c, id)].trace_id == id,
        act_index(c, id) < 0 ==> forall|j: int| 0 <= j < c.len() ==> c[j].trace_id != id,
    decreases c.len(),
{
    if c.len() > 0 && c[0].trace_id != id {
        lemma_act_index_bounds(c.drop_first(), id);
        assert forall|j: int| 1 <= j < c.len() implies c[j] == c.drop_first()[j - 1] by {}
    }
}

/// The entry that the request holds while it is in flight; finishing it
/// removes the entry.
pub struct RequestActivityGuard {
    pub trace_id: String,
}

/// Requests in flight, one entry per trace id.
pub struct RequestActivityTable {
    entries: Vec<RequestActivityEntry>,
}

impl RequestActivityTable {
    #[verifier::type_invariant]
    spec fn inv(self) -> bool {
        ids_unique(entry_views(self.entries@))
    }

    pub closed spec fn spec_entries(self) -> Seq<ActivityV> {
        entry_views(self.entries@)
    }

    pub fn new() -> (r: Self)
        ensures
            r.spec_entries().len() == 0,
    {
        let r = RequestActivityTable { entries: Vec::new() };
        assert(entry_views(r.entries@).len() == 0);
        r
    }

    fn index_of(&self, id: &str) -> (r: Option<usize>)
        ensures
            match r {
                Some(i) => i < self.spec_entries().len() && act_index(self.spec_entries(), id@)
                    == i && self.spec_entries()[i as int].trace_id == id@,
                None => act_index(self.spec_entries(), id@) == -1 && forall|j: int|
                    0 <= j < self.spec_entries().len() ==> self.spec_entries()[j].trace_id != id@,
            },
    {
        let ghost c = self.spec_entries();
        let mut i: usize = 0;
        while i < self.entries.len()
            invariant
                i <= self.entries@.len(),
                c == entry_views(self.entries@),
                forall|j: int| 0 <= j < i ==> c[j].trace_id != id@,
            decreases self.entries.len() - i,
        {
            if str_eq(self.entries[i].trace_id.as_str(), id) {
                proof {
                    lemma_act_scan(c, id@, i as int);
                }
                return Some(i);
            }
            i = i + 1;
        }
        proof {
            lemma_act_scan(c, id@, i as int);
        }
        None
    }

    /// Replaces the entry at `i` by one of the same trace id.
    fn replace_at(&mut self, i: usize, e: RequestActivityEntry)
        requires
            i < old(self).spec_entries().len(),
            e.trace_id@ == old(self).spec_entries()[i as int].trace_id,
        ensures
            final(self).spec_entries() == old(self).spec_entries().update(i as int, e@),
            ids_unique(final(self).spec_entries()),
    {
        proof {
            use_type_invariant(&*self);
        }
        let mut entries: Vec<RequestActivityEntry> = Vec::new();
        std::mem::swap(&mut entries, &mut self.entries);
        let ghost c = entry_views(entries@);
        let mut tail = entries.split_off(i);
        let _old = tail.remove(0);
        entries.push(e);
        entries.append(&mut tail);
        proof {
            assert(entry_views(entries@) =~= c.update(i as int, e@));
            assert(ids_unique(entry_views(entries@))) by {
                let d = entry_views(entries@);
                assert forall|a: int, b: int| 0 <= a < b < d.len() implies d[a].trace_id
                    != d[b].trace_id by {
                    assert(c[a].trace_id != c[b].trace_id);
                }
            }
        }
        self.entries = entries;
    }

    /// Records a request that arrives; a blank trace id records nothing. An
    /// entry of the same trace id is replaced.
    pub fn begin(&mut self, start: RequestActivityStart, now: u64, now_ms: i64) -> (guard:
        RequestActivityGuard)
        ensures
            ids_unique(final(self).spec_entries()),
            guard.trace_id@ == trim(start.trace_id@),
            final(self).spec_entries() == if trim(start.trace_id@).len() == 0 {
                old(self).spec_entries()
            } else {
                act_upsert(old(self).spec_entries(), started_entry(start, now, now_ms))
            },
    {
        proof {
            use_type_invariant(&*self);
        }
        let trace_id = trim_str(start.trace_id);
        if trace_id.as_str().is_empty() {
            return RequestActivityGuard { trace_id };
        }
        let entry = RequestActivityEntry {
            trace_id: trace_id.clone(),
            status: ActivityStatus::Queued,
            client_ip: non_blank_opt(start.client_ip),
            key_id: trim_str(start.key_id),
            path: trim_str(start.path),
            method: trim_str(start.method),
            model: non_blank_opt(start.model),
            route_kind: to_owned_string("gateway"),
            source_kind: None,
            source_id: None,
            created_at: now,
            created_at_ms: now_ms,
            queued_at: Some(now),
            queued_at_ms: Some(now_ms),
            running_at: None,
            running_at_ms: None,
        };
        proof {
            assert(entry@ == started_entry(start, now, now_ms));
        }
        match self.index_of(trace_id.as_str()) {
            Some(i) => {
                self.replace_at(i, entry);
            },
            None => {
                proof {
                    use_type_invariant(&*self);
                }
                let mut entries: Vec<RequestActivityEntry> = Vec::new();
                std::mem::swap(&mut entries, &mut self.entries);
                let ghost c = entry_views(entries@);
                let ghost ev = entry@;
                entries.push(entry);
                proof {
                    assert(entry_views(entries@) =~= c.push(ev));
                    assert(ids_unique(entry_views(entries@))) by {
                        let d = entry_views(entries@);
                        assert forall|a: int, b: int| 0 <= a < b < d.len() implies d[a].trace_id
                            != d[b].trace_id by {
                            if b < c.len() {
                                assert(c[a].trace_id != c[b].trace_id);
                            } else {
                                assert(d[a] == c[a]);
                            }
                        }
                    }
                }
                self.entries = entries;
            },
        }
        RequestActivityGuard { trace_id }
    }

    /// Puts a request back in the queue on the given route.
    pub fn mark_queued(&mut self, trace_id: &str, route_kind: &str, now: u64, now_ms: i64)
        ensures
            ids_unique(final(self).spec_entries()),
            final(self).spec_entries() == ({
                let c = old(self).spec_entries();
                let i = act_index(c, trace_id@);
                if i >= 0 {
                    c.update(i, queued_again(c[i], route_kind@, now, now_ms))
                } else {
                    c
                }
            }),
    {
        proof {
            use_type_invariant(&*self);
        }
        let i = match self.index_of(trace_id) {
            Some(i) => i,
            None => return,
        };
        let old_entry = &self.entries[i];
        let e = RequestActivityEntry {
            trace_id: old_entry.trace_id.clone(),
            status: ActivityStatus::Queued,
            client_ip: old_entry.client_ip.clone(),
            key_id: old_entry.key_id.clone(),
            path: old_entry.path.clone(),
            method: old_entry.method.clone(),
            model: old_entry.model.clone(),
            route_kind: trim_str(route_kind),
            source_kind: old_entry.source_kind.clone(),
            source_id: old_entry.source_id.clone(),
            created_at: old_entry.created_at,
            created_at_ms: old_entry.created_at_ms,
            queued_at: Some(now),
            queued_at_ms: Some(now_ms),
            running_at: None,
            running_at_ms: None,
        };
        proof {
            assert(e@ == queued_again(self.spec_entries()[i as int], route_kind@, now, now_ms));
        }
        self.replace_at(i, e);
    }

    /// Marks a request as running on the given route.
    pub fn mark_running(&mut self, trace_id: &str, route_kind: &str, now: u64, now_ms: i64)
        ensures
            ids_unique(final(self).spec_entries()),
            final(self).spec_entries() == ({
                let c = old(self).spec_entries();
                let i = act_index(c, trace_id@);
                if i >= 0 {
                    c.update(i, now_running(c[i], route_kind@, now, now_ms))
                } else {
                    c
                }
            }),
    {
        proof {
            use_type_invariant(&*self);
        }
        let i = match self.index_of(trace_id) {
            Some(i) => i,
            None => return,
        };
        let old_entry = &self.entries[i];
        let (queued_at, queued_at_ms) = if old_entry.queued_at.is_none() {
            (Some(old_entry.created_at), Some(old_entry.created_at_ms))
        } else {
            (old_entry.queued_at, old_entry.queued_at_ms)
        };
        let e = RequestActivityEntry {
            trace_id: old_entry.trace_id.clone(),
            status: ActivityStatus::Running,
            client_ip: old_entry.client_ip.clone(),
            key_id: old_entry.key_id.clone(),
            path: old_entry.path.clone(),
            method: old_entry.method.clone(),
            model: old_entry.model.clone(),
            route_kind: trim_str(route_kind),
            source_kind: old_entry.source_kind.clone(),
            source_id: old_entry.source_id.clone(),
            created_at: old_entry.created_at,
            created_at_ms: old_entry.created_at_ms,
            queued_at,
            queued_at_ms,
            running_at: Some(now),
            running_at_ms: Some(now_ms),
        };
        proof {
            assert(e@ == now_running(self.spec_entries()[i as int], route_kind@, now, now_ms));
        }
        self.replace_at(i, e);
    }

    /// Records which upstream source serves a request.
    pub fn update_source(&mut self, trace_id: &str, source_kind: &str, source_id: &str)
        ensures
            ids_unique(final(self).spec_entries()),
            final(self).spec_entries() == ({
                let c = old(self).spec_entries();
                let i = act_index(c, trace_id@);
                if i >= 0 {
                    c.update(i, with_source(c[i], source_kind@, source_id@))
                } else {
                    c
                }
            }),
    {
        proof {
            use_type_invariant(&*self);
        }
        let i = match self.index_of(trace_id) {
            Some(i) => i,
            None => return,
        };
        let old_entry = &self.entries[i];
        let e = RequestActivityEntry {
            trace_id: old_entry.trace_id.clone(),
            status: old_entry.status,
            client_ip: old_entry.client_ip.clone(),
            key_id: old_entry.key_id.clone(),
            path: old_entry.path.clone(),
            method: old_entry.method.clone(),
            model: old_entry.model.clone(),
            route_kind: old_entry.route_kind.clone(),
            source_kind: non_blank_str(source_kind),
            source_id: non_blank_str(source_id),
            created_at: old_entry.created_at,
            created_at_ms: old_entry.created_at_ms,
            queued_at: old_entry.queued_at,
            queued_at_ms: old_entry.queued_at_ms,
            running_at: old_entry.running_at,
            running_at_ms: old_entry.running_at_ms,
        };
        proof {
            assert(e@ == with_source(self.spec_entries()[i as int], source_kind@, source_id@));
        }
        self.replace_at(i, e);
    }

    /// Ends a request: its entry goes (a guard with a blank trace id holds
    /// none).
    pub fn finish(&mut self, guard: RequestActivityGuard)
        ensures
            ids_unique(final(self).spec_entries()),
            final(self).spec_entries() == if guard.trace_id@.len() == 0 {
                old(self).spec_entries()
            } else {
                act_remove(old(self).spec_entries(), guard.trace_id@)
            },
    {
        proof {
            use_type_invariant(&*self);
        }
        if guard.trace_id.as_str().is_empty() {
            return;
        }
        let i = match self.index_of(guard.trace_id.as_str()) {
            Some(i) => i,
            None => return,
        };
        proof {
            use_type_invariant(&*self);
        }
        let mut entries: Vec<RequestActivityEntry> = Vec::new();
        std::mem::swap(&mut entries, &mut self.entries);
        let ghost c = entry_views(entries@);
        let _gone = entries.remove(i);
        proof {
            assert(entry_views(entries@) =~= c.remove(i as int));
            assert(ids_unique(entry_views(entries@))) by {
                let d = entry_views(entries@);
                assert forall|a: int, b: int| 0 <= a < b < d.len() implies d[a].trace_id
                    != d[b].trace_id by {
                    let a2 = if a < i { a } else { a + 1 };
                    let b2 = if b < i { b } else { b + 1 };
                    assert(d[a] == c[a2]);
                    assert(d[b] == c[b2]);
                }
            }
        }
        self.entries = entries;
    }

    /// Removes every entry.
    pub fn clear(&mut self)
        ensures
            final(self).spec_entries().len() == 0,
    {
        self.entries = Vec::new();
        assert(entry_views(self.entries@).len() == 0);
    }
}


/// A sort key: two integers, then a name, each ascending.
pub struct SortKey {
    pub major: i128,
    pub minor: i128,
    pub name: String,
}

pub type KeyTriple = (int, int, Seq<char>);

pub open spec fn key_of(k: SortKey) -> KeyTriple {
    (k.major as int, k.minor as int, k.name@)
}

pub open spec fn key_views(v: Seq<SortKey>) -> Seq<KeyTriple> {
    Seq::new(v.len(), |i: int| key_of(v[i]))
}

/// Lexicographic order of sort keys.
pub open spec fn key_lt(a: KeyTriple, b: KeyTriple) -> bool {
    a.0 < b.0 || (a.0 == b.0 && (a.1 < b.1 || (a.1 == b.1 && seq_lt(a.2, b.2))))
}

proof fn lemma_key_order(a: KeyTriple, b: KeyTriple, c: KeyTriple)
    ensures
        !key_lt(a, a),
        !(key_lt(a, b) && key_lt(b, a)),
        a == b || key_lt(a, b) || key_lt(b, a),
        key_lt(a, b) && key_lt(b, c) ==> key_lt(a, c),
{
    crate::text::lemma_seq_lt_irreflexive(a.2);
    crate::text::lemma_seq_lt_total(a.2, b.2);
    if key_lt(a, b) && key_lt(b, c) && a.0 == b.0 && b.0 == c.0 && a.1 == b.1 && b.1 == c.1 {
        crate::text::lemma_seq_lt_transitive(a.2, b.2, c.2);
    }
}

fn sort_key_lt(a: &SortKey, b: &SortKey) -> (r: bool)
    ensures
        r == key_lt(key_of(*a), key_of(*b)),
{
    if a.major != b.major {
        return a.major < b.major;
    }
    if a.minor != b.minor {
        return a.minor < b.minor;
    }
    str_lt(a.name.as_str(), b.name.as_str())
}

pub open spec fn keys_distinct(k: Seq<KeyTriple>) -> bool {
    forall|a: int, b: int| 0 <= a < b < k.len() ==> k[a] != k[b]
}

/// How many of the indices below `n` the selection holds.
pub open spec fn count_in(sel: Seq<int>, n: int) -> nat
    decreases n,
{
    if n <= 0 {
        0
    } else {
        count_in(sel, n - 1) + if sel.contains(n - 1) {
            1nat
        } else {
            0nat
        }
    }
}

proof fn lemma_count_empty(n: int)
    ensures
        count_in(Seq::<int>::empty(), n) == 0,
    decreases n,
{
    if n > 0 {
        lemma_count_empty(n - 1);
    }
}

proof fn lemma_count_push(sel: Seq<int>, b: int, n: int)
    requires
        !sel.contains(b),
    ensures
        count_in(sel.push(b), n) == count_in(sel, n) + if 0 <= b < n {
            1nat
        } else {
            0nat
        },
    decreases n,
{
    if n > 0 {
        lemma_count_push(sel, b, n - 1);
        assert(sel.push(b).contains(n - 1) == (sel.contains(n - 1) || b == n - 1)) by {
            if sel.contains(n - 1) {
                let j = choose|j: int| 0 <= j < sel.len() && sel[j] == n - 1;
                assert(sel.push(b)[j] == n - 1);
            }
            if b == n - 1 {
                assert(sel.push(b)[sel.len() as int] == b);
            }
            if sel.push(b).contains(n - 1) {
                let j = choose|j: int| 0 <= j < sel.push(b).len() && sel.push(b)[j] == n - 1;
                if j < sel.len() {
                    assert(sel[j] == n - 1);
                }
            }
        }
    }
}

proof fn lemma_count_bound(sel: Seq<int>, n: int)
    ensures
        count_in(sel, n) <= if n >= 0 {
            n
        } else {
            0
        },
        count_in(sel, n) == n ==> forall|i: int| 0 <= i < n ==> sel.contains(i),
        (forall|i: int| 0 <= i < n ==> sel.contains(i)) ==> count_in(sel, n) == if n >= 0 {
            n
        } else {
            0
        },
    decreases n,
{
    if n > 0 {
        lemma_count_bound(sel, n - 1);
    }
}

/// `sel` lists, in ascending key order, the `min(len, lim)` smallest keys.
pub open spec fn sorted_prefix(k: Seq<KeyTriple>, sel: Seq<int>, lim: nat) -> bool {
    &&& sel.len() == if k.len() < lim {
        k.len()
    } else {
        lim
    }
    &&& forall|j: int| 0 <= j < sel.len() ==> 0 <= #[trigger] sel[j] < k.len()
    &&& forall|a: int, b: int| 0 <= a < b < sel.len() ==> key_lt(k[sel[a]], k[sel[b]])
    &&& forall|i: int|
        0 <= i < k.len() && !sel.contains(i) ==> forall|j: int|
            0 <= j < sel.len() ==> key_lt(#[trigger] k[sel[j]], k[i])
}

pub open spec fn as_ints(s: Seq<usize>) -> Seq<int> {
    s.map_values(|x: usize| x as int)
}

/// Whether key `x` may come next after the selection's last key.
pub open spec fn may_follow(k: Seq<KeyTriple>, has_last: bool, last: int, x: int) -> bool {
    !has_last || key_lt(k[last], k[x])
}

/// The indices of the `lim` smallest keys, smallest first.
pub fn sorted_selection(keys: &Vec<SortKey>, lim: usize) -> (sel: Vec<usize>)
    requires
        keys_distinct(key_views(keys@)),
    ensures
        sorted_prefix(key_views(keys@), as_ints(sel@), lim as nat),
        sel@.len() == keys@.len() ==> forall|i: int|
            0 <= i < keys@.len() ==> as_ints(sel@).contains(i),
{
    let ghost k = key_views(keys@);
    let n = keys.len();
    let mut sel: Vec<usize> = Vec::new();
    proof {
        assert(as_ints(sel@) =~= Seq::<int>::empty());
        lemma_count_empty(n as int);
    }
    loop
        invariant
            k == key_views(keys@),
            n == keys@.len(),
            keys_distinct(k),
            sel@.len() <= lim,
            count_in(as_ints(sel@), n as int) == sel@.len(),
            forall|j: int| 0 <= j < sel@.len() ==> 0 <= #[trigger] as_ints(sel@)[j] < n,
            forall|a: int, b: int|
                0 <= a < b < sel@.len() ==> key_lt(k[as_ints(sel@)[a]], k[as_ints(sel@)[b]]),
            forall|i: int|
                0 <= i < n && !as_ints(sel@).contains(i) ==> forall|j: int|
                    0 <= j < sel@.len() ==> key_lt(#[trigger] k[as_ints(sel@)[j]], k[i]),
        ensures
            sel@.len() == if n < lim {
                n
            } else {
                lim
            },
            count_in(as_ints(sel@), n as int) == sel@.len(),
            forall|j: int| 0 <= j < sel@.len() ==> 0 <= #[trigger] as_ints(sel@)[j] < n,
            forall|a: int, b: int|
                0 <= a < b < sel@.len() ==> key_lt(k[as_ints(sel@)[a]], k[as_ints(sel@)[b]]),
            forall|i: int|
                0 <= i < n && !as_ints(sel@).contains(i) ==> forall|j: int|
                    0 <= j < sel@.len() ==> key_lt(#[trigger] k[as_ints(sel@)[j]], k[i]),
        decreases lim - sel@.len(),
    {
        proof {
            lemma_count_bound(as_ints(sel@), n as int);
        }
        if sel.len() >= lim {
            break;
        }
        let ghost si = as_ints(sel@);
        let has_last = sel.len() > 0;
        let last: usize = if has_last { sel[sel.len() - 1] } else { 0 };
        proof {
            if has_last {
                assert(si[sel@.len() - 1] == sel@[sel@.len() - 1] as int);
            }
        }
        let mut best: Option<usize> = None;
        let mut i: usize = 0;
        while i < n
            invariant
                i <= n,
                n == keys@.len(),
                k == key_views(keys@),
                si == as_ints(sel@),
                has_last == (sel@.len() > 0),
                has_last ==> last == sel@[sel@.len() - 1] && last < n,
                match best {
                    Some(b) => b < i && may_follow(k, has_last, last as int, b as int)
                        && forall|x: int|
                        0 <= x < i && #[trigger] may_follow(k, has_last, last as int, x) ==> k[x]
                            == k[b as int] || key_lt(k[b as int], k[x]),
                    None => forall|x: int|
                        0 <= x < i ==> !#[trigger] may_follow(k, has_last, last as int, x),
                },
            decreases n - i,
        {
            let candidate = !has_last || sort_key_lt(&keys[last], &keys[i]);
            if candidate {
                let better = match best {
                    None => true,
                    Some(b) => sort_key_lt(&keys[i], &keys[b]),
                };
                if better {
                    proof {
                        if let Some(b) = best {
                            assert forall|x: int|
                                0 <= x < i && #[trigger] may_follow(k, has_last, last as int, x) implies k[x]
                                == k[i as int] || key_lt(k[i as int], k[x]) by {
                                lemma_key_order(k[i as int], k[b as int], k[x]);
                            }
                        }
                    }
                    best = Some(i);
                } else {
                    proof {
                        let b = best->0;
                        lemma_key_order(k[b as int], k[i as int], k[i as int]);
                    }
                }
            }
            i = i + 1;
        }
        match best {
            None => {
                proof {
                    assert forall|x: int| 0 <= x < n implies si.contains(x) by {
                        if !si.contains(x) {
                            assert(!may_follow(k, has_last, last as int, x));
                            if has_last {
                                let j = (sel@.len() - 1) as int;
                                assert(si[j] == last as int);
                                assert(key_lt(k[si[j]], k[x]));
                            }
                        }
                    }
                    lemma_count_bound(si, n as int);
                }
                break;
            },
            Some(b) => {
                proof {
                    if si.contains(b as int) {
                        let j = choose|j: int| 0 <= j < si.len() && si[j] == b as int;
                        let lj = si.len() - 1;
                        if j < lj {
                            assert(key_lt(k[si[j]], k[si[lj]]));
                        }
                        lemma_key_order(k[b as int], k[last as int], k[b as int]);
                    }
                    lemma_count_push(si, b as int, n as int);
                }
                sel.push(b);
                proof {
                    let s2 = as_ints(sel@);
                    assert(s2 =~= si.push(b as int));
                    assert forall|a: int, c: int| 0 <= a < c < s2.len() implies key_lt(k[s2[a]], k[s2[c]]) by {
                        if c == s2.len() - 1 && a < c {
                            let lj = si.len() - 1;
                            if a < lj {
                                assert(key_lt(k[si[a]], k[si[lj]]));
                                lemma_key_order(k[si[a]], k[si[lj]], k[b as int]);
                            }
                        }
                    }
                    assert forall|x: int|
                        0 <= x < n && !s2.contains(x) implies forall|j: int|
                            0 <= j < s2.len() ==> key_lt(#[trigger] k[s2[j]], k[x]) by {
                        assert(!si.contains(x)) by {
                            if si.contains(x) {
                                let j = choose|j: int| 0 <= j < si.len() && si[j] == x;
                                assert(s2[j] == x);
                            }
                        }
                        assert(x != b as int) by {
                            assert(s2[si.len() as int] == b as int);
                        }
                        assert forall|j: int| 0 <= j < s2.len() implies key_lt(#[trigger] k[s2[j]], k[x]) by {
                            if j < si.len() {
                                assert(s2[j] == si[j]);
                            } else {
                                let cand = may_follow(k, has_last, last as int, x);
                                if has_last {
                                    let lj = si.len() - 1;
                                    assert(key_lt(k[si[lj]], k[x]));
                                }
                                assert(cand);
                                assert(k[x] != k[b as int]);
                            }
                        }
                    }
                }
            },
        }
    }
    proof {
        if sel@.len() == n {
            lemma_count_bound(as_ints(sel@), n as int);
        }
    }
    sel
}


/// One request of the dashboard.
pub struct DashboardActiveRequestItem {
    pub id: String,
    pub trace_id: String,
    pub status: String,
    pub client_ip: Option<String>,
    pub key_id: String,
    pub path: String,
    pub method: String,
    pub model: Option<String>,
    pub route_kind: String,
    pub source_kind: Option<String>,
    pub source_id: Option<String>,
    pub created_at_ms: i64,
    pub queued_at_ms: Option<i64>,
    pub running_at_ms: Option<i64>,
    pub wait_ms: i64,
    pub running_ms: i64,
}

/// The requests of one client IP.
pub struct DashboardActiveRequestIpGroup {
    pub client_ip: String,
    pub total_count: i64,
    pub queued_count: i64,
    pub running_count: i64,
    pub max_wait_ms: i64,
    pub max_running_ms: i64,
}

/// The dashboard view of requests in flight.
pub struct DashboardActiveRequestsResult {
    pub total_count: i64,
    pub queued_count: i64,
    pub running_count: i64,
    pub items: Vec<DashboardActiveRequestItem>,
    pub ip_groups: Vec<DashboardActiveRequestIpGroup>,
}

/// Whole milliseconds from `from` to `to` (nanoseconds), 0 when `to` is
/// earlier.
pub open spec fn span_ms(from: u64, to: u64) -> int {
    if to >= from {
        (to - from) / 1_000_000
    } else {
        0
    }
}

/// How long the request waited: until it started running, or until now.
pub open spec fn wait_ms_of(e: ActivityV, now: u64) -> int {
    match e.queued_at {
        Some(q) => match e.running_at {
            Some(r) => span_ms(q, r),
            None => span_ms(q, now),
        },
        None => 0,
    }
}

/// How long a running request has run.
pub open spec fn running_ms_of(e: ActivityV, now: u64) -> int {
    if e.status == ActivityStatus::Running {
        match e.running_at {
            Some(r) => span_ms(r, now),
            None => 0,
        }
    } else {
        0
    }
}

pub open spec fn rank(s: ActivityStatus) -> int {
    match s {
        ActivityStatus::Running => 0,
        ActivityStatus::Queued => 1,
    }
}

/// Items come running first, then by creation time, then by trace id.
pub open spec fn item_key(e: ActivityV) -> KeyTriple {
    (rank(e.status), e.created_at_ms as int, e.trace_id)
}

pub open spec fn item_keys(c: Seq<ActivityV>) -> Seq<KeyTriple> {
    Seq::new(c.len(), |i: int| item_key(c[i]))
}

pub open spec fn item_matches(it: DashboardActiveRequestItem, e: ActivityV, now: u64) -> bool {
    &&& it.id@ == e.trace_id
    &&& it.trace_id@ == e.trace_id
    &&& it.status@ == status_text(e.status)
    &&& ostr(it.client_ip) == e.client_ip
    &&& it.key_id@ == e.key_id
    &&& it.path@ == e.path
    &&& it.method@ == e.method
    &&& ostr(it.model) == e.model
    &&& it.route_kind@ == e.route_kind
    &&& ostr(it.source_kind) == e.source_kind
    &&& ostr(it.source_id) == e.source_id
    &&& it.created_at_ms == e.created_at_ms
    &&& it.queued_at_ms == e.queued_at_ms
    &&& it.running_at_ms == e.running_at_ms
    &&& it.wait_ms as int == wait_ms_of(e, now)
    &&& it.running_ms as int == running_ms_of(e, now)
}

pub open spec fn running_count(c: Seq<ActivityV>) -> nat
    decreases c.len(),
{
    if c.len() == 0 {
        0
    } else {
        running_count(c.drop_last()) + if c.last().status == ActivityStatus::Running {
            1nat
        } else {
            0nat
        }
    }
}

/// The client IP a request is grouped under.
pub open spec fn ip_of(e: ActivityV) -> Option<Seq<char>> {
    clean_opt(e.client_ip)
}

pub open spec fn ip_count(c: Seq<ActivityV>, ip: Seq<char>) -> nat
    decreases c.len(),
{
    if c.len() == 0 {
        0
    } else {
        ip_count(c.drop_last(), ip) + if ip_of(c.last()) == Some(ip) {
            1nat
        } else {
            0nat
        }
    }
}

pub open spec fn ip_running(c: Seq<ActivityV>, ip: Seq<char>) -> nat
    decreases c.len(),
{
    if c.len() == 0 {
        0
    } else {
        ip_running(c.drop_last(), ip) + if ip_of(c.last()) == Some(ip) && c.last().status
            == ActivityStatus::Running {
            1nat
        } else {
            0nat
        }
    }
}

pub open spec fn max_int(a: int, b: int) -> int {
    if a >= b {
        a
    } else {
        b
    }
}

pub open spec fn ip_max_wait(c: Seq<ActivityV>, ip: Seq<char>, now: u64) -> int
    decreases c.len(),
{
    if c.len() == 0 {
        0
    } else if ip_of(c.last()) == Some(ip) {
        max_int(ip_max_wait(c.drop_last(), ip, now), wait_ms_of(c.last(), now))
    } else {
        ip_max_wait(c.drop_last(), ip, now)
    }
}

pub open spec fn ip_max_running(c: Seq<ActivityV>, ip: Seq<char>, now: u64) -> int
    decreases c.len(),
{
    if c.len() == 0 {
        0
    } else if ip_of(c.last()) == Some(ip) {
        max_int(ip_max_running(c.drop_last(), ip, now), running_ms_of(c.last(), now))
    } else {
        ip_max_running(c.drop_last(), ip, now)
    }
}

/// The longest run of a client IP's requests is at least the running time of
/// each request of that IP, and it is the running time of one of them (0
/// when it has none).
pub proof fn lemma_ip_max_running_is_longest(c: Seq<ActivityV>, ip: Seq<char>, now: u64)
    ensures
        forall|i: int|
            0 <= i < c.len() && ip_of(c[i]) == Some(ip) ==> ip_max_running(c, ip, now) >= running_ms_of(
                #[trigger] c[i],
                now,
            ),
        ip_max_running(c, ip, now) == 0 || exists|i: int|
            0 <= i < c.len() && ip_of(c[i]) == Some(ip) && ip_max_running(c, ip, now) == running_ms_of(
                #[trigger] c[i],
                now,
            ),
    decreases c.len(),
{
    if c.len() > 0 {
        let d = c.drop_last();
        lemma_ip_max_running_is_longest(d, ip, now);
        assert forall|i: int|
            0 <= i < c.len() && ip_of(c[i]) == Some(ip) implies ip_max_running(c, ip, now) >= running_ms_of(
                #[trigger] c[i],
                now,
            ) by {
            if i < d.len() {
                assert(d[i] == c[i]);
            }
        }
        if ip_max_running(c, ip, now) != 0 {
            if ip_of(c.last()) == Some(ip) && ip_max_running(c, ip, now) == running_ms_of(c.last(), now) {
                assert(c[c.len() - 1] == c.last());
            } else {
                let i = choose|i: int|
                    0 <= i < d.len() && ip_of(d[i]) == Some(ip) && ip_max_running(d, ip, now) == running_ms_of(
                        #[trigger] d[i],
                        now,
                    );
                assert(d[i] == c[i]);
            }
        }
    }
}

/// The longest wait of a client IP's requests is at least the wait of each
/// request of that IP, and it is the wait of one of them (0 when it has
/// none).
pub proof fn lemma_ip_max_wait_is_longest(c: Seq<ActivityV>, ip: Seq<char>, now: u64)
    ensures
        forall|i: int|
            0 <= i < c.len() && ip_of(c[i]) == Some(ip) ==> ip_max_wait(c, ip, now) >= wait_ms_of(
                #[trigger] c[i],
                now,
            ),
        ip_max_wait(c, ip, now) == 0 || exists|i: int|
            0 <= i < c.len() && ip_of(c[i]) == Some(ip) && ip_max_wait(c, ip, now) == wait_ms_of(
                #[trigger] c[i],
                now,
            ),
    decreases c.len(),
{
    if c.len() > 0 {
        let d = c.drop_last();
        lemma_ip_max_wait_is_longest(d, ip, now);
        assert forall|i: int|
            0 <= i < c.len() && ip_of(c[i]) == Some(ip) implies ip_max_wait(c, ip, now) >= wait_ms_of(
                #[trigger] c[i],
                now,
            ) by {
            if i < d.len() {
                assert(d[i] == c[i]);
            }
        }
        if ip_max_wait(c, ip, now) != 0 {
            if ip_of(c.last()) == Some(ip) && ip_max_wait(c, ip, now) == wait_ms_of(c.last(), now) {
                assert(c[c.len() - 1] == c.last());
            } else {
                let i = choose|i: int|
                    0 <= i < d.len() && ip_of(d[i]) == Some(ip) && ip_max_wait(d, ip, now) == wait_ms_of(
                        #[trigger] d[i],
                        now,
                    );
                assert(d[i] == c[i]);
            }
        }
    }
}

/// A group holds the counts and the longest wait and run of the requests of
/// one client IP that some request has.
pub open spec fn group_matches(g: DashboardActiveRequestIpGroup, c: Seq<ActivityV>, now: u64) -> bool {
    let ip = g.client_ip@;
    &&& exists|i: int| 0 <= i < c.len() && ip_of(c[i]) == Some(ip)
    &&& group_stats(g, c, now)
}

pub open spec fn group_stats(g: DashboardActiveRequestIpGroup, c: Seq<ActivityV>, now: u64) -> bool {
    let ip = g.client_ip@;
    &&& g.total_count == ip_count(c, ip) as i64
    &&& g.running_count == ip_running(c, ip) as i64
    &&& g.queued_count == (ip_count(c, ip) - ip_running(c, ip)) as i64
    &&& g.max_wait_ms as int == ip_max_wait(c, ip, now)
    &&& g.max_running_ms as int == ip_max_running(c, ip, now)
}

/// Groups come by most requests, then most running, then IP.
pub open spec fn group_key(g: DashboardActiveRequestIpGroup) -> KeyTriple {
    (-(g.total_count as int), -(g.running_count as int), g.client_ip@)
}

fn span_ms_exec(from: u64, to: u64) -> (r: i64)
    ensures
        r as int == span_ms(from, to),
        r >= 0,
{
    if to >= from {
        let d = (to - from) / 1_000_000;
        assert(d <= 18_446_744_073_709);
        d as i64
    } else {
        0
    }
}

fn wait_ms_exec(e: &RequestActivityEntry, now: u64) -> (r: i64)
    ensures
        r as int == wait_ms_of(e@, now),
        r >= 0,
{
    match e.queued_at {
        Some(q) => match e.running_at {
            Some(run) => span_ms_exec(q, run),
            None => span_ms_exec(q, now),
        },
        None => 0,
    }
}

fn running_ms_exec(e: &RequestActivityEntry, now: u64) -> (r: i64)
    ensures
        r as int == running_ms_of(e@, now),
        r >= 0,
{
    if e.status == ActivityStatus::Running {
        match e.running_at {
            Some(run) => span_ms_exec(run, now),
            None => 0,
        }
    } else {
        0
    }
}

fn clone_opt(o: &Option<String>) -> (r: Option<String>)
    ensures
        ostr(r) == ostr(*o),
{
    match o {
        Some(s) => Some(s.clone()),
        None => None,
    }
}

/// The dashboard item of an entry.
pub fn to_dashboard_item(e: &RequestActivityEntry, now: u64) -> (r: DashboardActiveRequestItem)
    ensures
        item_matches(r, e@, now),
{
    DashboardActiveRequestItem {
        id: e.trace_id.clone(),
        trace_id: e.trace_id.clone(),
        status: to_owned_string(e.status.as_str()),
        client_ip: clone_opt(&e.client_ip),
        key_id: e.key_id.clone(),
        path: e.path.clone(),
        method: e.method.clone(),
        model: clone_opt(&e.model),
        route_kind: e.route_kind.clone(),
        source_kind: clone_opt(&e.source_kind),
        source_id: clone_opt(&e.source_id),
        created_at_ms: e.created_at_ms,
        queued_at_ms: e.queued_at_ms,
        running_at_ms: e.running_at_ms,
        wait_ms: wait_ms_exec(e, now),
        running_ms: running_ms_exec(e, now),
    }
}

fn ip_of_exec(e: &RequestActivityEntry) -> (r: Option<String>)
    ensures
        ostr(r) == ip_of(e@),
{
    match &e.client_ip {
        Some(ip) => non_blank_str(ip.as_str()),
        None => None,
    }
}

fn opt_str_eq(a: &Option<String>, b: &str) -> (r: bool)
    ensures
        r == (ostr(*a) == Some(b@)),
{
    match a {
        Some(x) => str_eq(x.as_str(), b),
        None => false,
    }
}


proof fn lemma_ip_running_le(c: Seq<ActivityV>, ip: Seq<char>)
    ensures
        ip_running(c, ip) <= ip_count(c, ip) <= c.len(),
        running_count(c) <= c.len(),
    decreases c.len(),
{
    if c.len() > 0 {
        lemma_ip_running_le(c.drop_last(), ip);
    }
}

fn copy_group(g: &DashboardActiveRequestIpGroup) -> (r: DashboardActiveRequestIpGroup)
    ensures
        r.client_ip@ == g.client_ip@,
        r.total_count == g.total_count,
        r.queued_count == g.queued_count,
        r.running_count == g.running_count,
        r.max_wait_ms == g.max_wait_ms,
        r.max_running_ms == g.max_running_ms,
{
    DashboardActiveRequestIpGroup {
        client_ip: g.client_ip.clone(),
        total_count: g.total_count,
        queued_count: g.queued_count,
        running_count: g.running_count,
        max_wait_ms: g.max_wait_ms,
        max_running_ms: g.max_running_ms,
    }
}

/// The group of one client IP.
fn group_for(entries: &Vec<RequestActivityEntry>, ip: &str, now: u64) -> (g: DashboardActiveRequestIpGroup)
    ensures
        g.client_ip@ == ip@,
        group_stats(g, entry_views(entries@), now),
{
    let ghost c = entry_views(entries@);
    let mut total: usize = 0;
    let mut running: usize = 0;
    let mut max_wait: i64 = 0;
    let mut max_running: i64 = 0;
    let mut i: usize = 0;
    proof {
        assert(c.subrange(0, 0) =~= Seq::<ActivityV>::empty());
    }
    while i < entries.len()
        invariant
            i <= entries@.len(),
            c == entry_views(entries@),
            total as nat == ip_count(c.subrange(0, i as int), ip@),
            running as nat == ip_running(c.subrange(0, i as int), ip@),
            max_wait as int == ip_max_wait(c.subrange(0, i as int), ip@, now),
            max_running as int == ip_max_running(c.subrange(0, i as int), ip@, now),
        decreases entries.len() - i,
    {
        proof {
            let s = c.subrange(0, i + 1);
            assert(s.drop_last() =~= c.subrange(0, i as int));
            assert(s.last() == entries@[i as int]@);
            lemma_ip_running_le(c.subrange(0, i as int), ip@);
        }
        let e = &entries[i];
        let e_ip = ip_of_exec(e);
        if opt_str_eq(&e_ip, ip) {
            total = total + 1;
            if e.status == ActivityStatus::Running {
                running = running + 1;
            }
            let w = wait_ms_exec(e, now);
            if w > max_wait {
                max_wait = w;
            }
            let r = running_ms_exec(e, now);
            if r > max_running {
                max_running = r;
            }
        }
        i = i + 1;
    }
    proof {
        assert(c.subrange(0, entries@.len() as int) =~= c);
        lemma_ip_running_le(c, ip@);
    }
    DashboardActiveRequestIpGroup {
        client_ip: to_owned_string(ip),
        total_count: total as i64,
        queued_count: (total - running) as i64,
        running_count: running as i64,
        max_wait_ms: max_wait,
        max_running_ms: max_running,
    }
}

fn has_group(groups: &Vec<DashboardActiveRequestIpGroup>, ip: &str) -> (r: bool)
    ensures
        r == exists|j: int| 0 <= j < groups@.len() && groups@[j].client_ip@ == ip@,
{
    let mut j: usize = 0;
    while j < groups.len()
        invariant
            j <= groups@.len(),
            forall|x: int| 0 <= x < j ==> groups@[x].client_ip@ != ip@,
        decreases groups.len() - j,
    {
        if str_eq(groups[j].client_ip.as_str(), ip) {
            return true;
        }
        j = j + 1;
    }
    false
}

/// At least one item is shown.
pub open spec fn item_limit(limit: usize) -> nat {
    if limit == 0 {
        1
    } else {
        limit as nat
    }
}

pub open spec fn group_keys(g: Seq<DashboardActiveRequestIpGroup>) -> Seq<KeyTriple> {
    Seq::new(g.len(), |i: int| group_key(g[i]))
}

impl RequestActivityTable {
    /// The dashboard snapshot at `now`: how many requests are in flight,
    /// queued and running; the first `max(limit, 1)` requests in item order;
    /// and one group per client IP, in group order.
    pub fn snapshot(&self, limit: usize, now: u64) -> (r: DashboardActiveRequestsResult)
        ensures
            ({
                let c = self.spec_entries();
                &&& r.total_count == c.len() as i64
                &&& r.running_count == running_count(c) as i64
                &&& r.queued_count == crate::request_gate::spec_sat_sub(r.total_count, r.running_count)
                &&& c.len() <= i64::MAX ==> r.queued_count + r.running_count == r.total_count
                &&& exists|sel: Seq<int>|
                    #[trigger] sorted_prefix(item_keys(c), sel, item_limit(limit))
                        && r.items@.len() == sel.len() && forall|j: int|
                        0 <= j < sel.len() ==> #[trigger] item_matches(r.items@[j], c[sel[j]], now)
                &&& forall|j: int| 0 <= j < r.ip_groups@.len() ==> #[trigger] group_matches(r.ip_groups@[j], c, now)
                &&& forall|i: int| 0 <= i < c.len() && #[trigger] ip_of(c[i]) is Some ==> exists|j: int|
                    0 <= j < r.ip_groups@.len() && Some(r.ip_groups@[j].client_ip@) == ip_of(c[i])
                &&& forall|a: int, b: int| 0 <= a < b < r.ip_groups@.len() ==> key_lt(
                    group_key(r.ip_groups@[a]),
                    group_key(r.ip_groups@[b]),
                )
                &&& forall|j: int, i: int|
                    0 <= j < r.ip_groups@.len() && 0 <= i < c.len() && ip_of(#[trigger] c[i]) == Some(
                        (#[trigger] r.ip_groups@[j]).client_ip@,
                    ) ==> r.ip_groups@[j].max_running_ms >= running_ms_of(c[i], now)
                        && r.ip_groups@[j].max_wait_ms >= wait_ms_of(c[i], now)
            }),
    {
        proof {
            use_type_invariant(self);
        }
        let ghost c = self.spec_entries();
        let n = self.entries.len();
        // counts
        let mut running: usize = 0;
        let mut i: usize = 0;
        proof {
            assert(c.subrange(0, 0) =~= Seq::<ActivityV>::empty());
        }
        while i < n
            invariant
                i <= n,
                n == self.entries@.len(),
                c == entry_views(self.entries@),
                running as nat == running_count(c.subrange(0, i as int)),
            decreases n - i,
        {
            proof {
                let s = c.subrange(0, i + 1);
                assert(s.drop_last() =~= c.subrange(0, i as int));
                lemma_ip_running_le(c.subrange(0, i as int), Seq::empty());
            }
            if self.entries[i].status == ActivityStatus::Running {
                running = running + 1;
            }
            i = i + 1;
        }
        proof {
            assert(c.subrange(0, n as int) =~= c);
        }
        proof {
            lemma_ip_running_le(c, Seq::empty());
        }
        let total_count = n as i64;
        let running_count_v = running as i64;
        let queued_count = crate::request_gate::sat_sub_i64(total_count, running_count_v);
        // items
        let mut ikeys: Vec<SortKey> = Vec::new();
        let mut i: usize = 0;
        while i < n
            invariant
                i <= n,
                n == self.entries@.len(),
                c == entry_views(self.entries@),
                key_views(ikeys@) == item_keys(c).subrange(0, i as int),
            decreases n - i,
        {
            let e = &self.entries[i];
            let major: i128 = if e.status == ActivityStatus::Running { 0 } else { 1 };
            let ghost before = ikeys@;
            ikeys.push(SortKey { major, minor: e.created_at_ms as i128, name: e.trace_id.clone() });
            proof {
                assert(key_views(ikeys@) =~= key_views(before).push(item_key(c[i as int])));
                assert(item_keys(c).subrange(0, i + 1) =~= item_keys(c).subrange(0, i as int).push(item_key(c[i as int])));
            }
            i = i + 1;
        }
        proof {
            assert(item_keys(c).subrange(0, n as int) =~= item_keys(c));
            assert(keys_distinct(key_views(ikeys@))) by {
                assert forall|a: int, b: int| 0 <= a < b < key_views(ikeys@).len() implies key_views(ikeys@)[a] != key_views(ikeys@)[b] by {
                    assert(c[a].trace_id != c[b].trace_id);
                }
            }
        }
        let lim: usize = if limit == 0 { 1 } else { limit };
        let sel = sorted_selection(&ikeys, lim);
        let mut items: Vec<DashboardActiveRequestItem> = Vec::new();
        let mut j: usize = 0;
        while j < sel.len()
            invariant
                j <= sel@.len(),
                n == self.entries@.len(),
                c == entry_views(self.entries@),
                forall|x: int| 0 <= x < sel@.len() ==> 0 <= #[trigger] as_ints(sel@)[x] < n,
                items@.len() == j,
                forall|x: int| 0 <= x < j ==> #[trigger] item_matches(items@[x], c[as_ints(sel@)[x]], now),
            decreases sel.len() - j,
        {
            proof {
                assert(as_ints(sel@)[j as int] == sel@[j as int] as int);
            }
            let it = to_dashboard_item(&self.entries[sel[j]], now);
            items.push(it);
            j = j + 1;
        }
        // groups
        let mut groups: Vec<DashboardActiveRequestIpGroup> = Vec::new();
        let mut i: usize = 0;
        while i < n
            invariant
                i <= n,
                n == self.entries@.len(),
                c == entry_views(self.entries@),
                forall|x: int| 0 <= x < groups@.len() ==> #[trigger] group_matches(groups@[x], c, now),
                forall|a: int, b: int| 0 <= a < b < groups@.len() ==> groups@[a].client_ip@ != groups@[b].client_ip@,
                forall|x: int| 0 <= x < i && #[trigger] ip_of(c[x]) is Some ==> exists|y: int|
                    0 <= y < groups@.len() && Some(groups@[y].client_ip@) == ip_of(c[x]),
            decreases n - i,
        {
            match ip_of_exec(&self.entries[i]) {
                Some(ip) => {
                    if !has_group(&groups, ip.as_str()) {
                        let g = group_for(&self.entries, ip.as_str(), now);
                        let ghost before = groups@;
                        proof {
                            assert(ip_of(c[i as int]) == Some(ip@));
                        }
                        groups.push(g);
                        proof {
                            assert(groups@[before.len() as int] == g);
                            assert forall|x: int| 0 <= x < groups@.len() implies #[trigger] group_matches(groups@[x], c, now) by {
                                if x < before.len() {
                                    assert(groups@[x] == before[x]);
                                }
                            }
                            assert forall|x: int| 0 <= x <= i && #[trigger] ip_of(c[x]) is Some implies exists|y: int|
                                0 <= y < groups@.len() && Some(groups@[y].client_ip@) == ip_of(c[x]) by {
                                if x < i {
                                    let y = choose|y: int| 0 <= y < before.len() && Some(before[y].client_ip@) == ip_of(c[x]);
                                    assert(groups@[y] == before[y]);
                                } else {
                                    assert(Some(groups@[before.len() as int].client_ip@) == ip_of(c[x]));
                                }
                            }
                        }
                    }
                },
                None => {},
            }
            i = i + 1;
        }
        // order the groups
        let mut gkeys: Vec<SortKey> = Vec::new();
        let mut k: usize = 0;
        while k < groups.len()
            invariant
                k <= groups@.len(),
                n == self.entries@.len(),
                c == entry_views(self.entries@),
                forall|x: int| 0 <= x < groups@.len() ==> #[trigger] group_matches(groups@[x], c, now),
                key_views(gkeys@) == group_keys(groups@).subrange(0, k as int),
            decreases groups.len() - k,
        {
            let g = &groups[k];
            let ghost before = gkeys@;
            gkeys.push(SortKey { major: -(g.total_count as i128), minor: -(g.running_count as i128), name: g.client_ip.clone() });
            proof {
                assert(key_views(gkeys@) =~= key_views(before).push(group_key(groups@[k as int])));
                assert(group_keys(groups@).subrange(0, k + 1) =~= group_keys(groups@).subrange(0, k as int).push(group_key(groups@[k as int])));
            }
            k = k + 1;
        }
        proof {
            assert(group_keys(groups@).subrange(0, groups@.len() as int) =~= group_keys(groups@));
        }
        let gsel = sorted_selection(&gkeys, groups.len());
        let mut ip_groups: Vec<DashboardActiveRequestIpGroup> = Vec::new();
        let mut j: usize = 0;
        while j < gsel.len()
            invariant
                j <= gsel@.len(),
                gsel@.len() == groups@.len(),
                forall|x: int| 0 <= x < gsel@.len() ==> 0 <= #[trigger] as_ints(gsel@)[x] < groups@.len(),
                ip_groups@.len() == j,
                forall|x: int| 0 <= x < j ==> #[trigger] ip_groups@[x] == groups@[as_ints(gsel@)[x]] || (
                    ip_groups@[x].client_ip@ == groups@[as_ints(gsel@)[x]].client_ip@
                    && ip_groups@[x].total_count == groups@[as_ints(gsel@)[x]].total_count
                    && ip_groups@[x].queued_count == groups@[as_ints(gsel@)[x]].queued_count
                    && ip_groups@[x].running_count == groups@[as_ints(gsel@)[x]].running_count
                    && ip_groups@[x].max_wait_ms == groups@[as_ints(gsel@)[x]].max_wait_ms
                    && ip_groups@[x].max_running_ms == groups@[as_ints(gsel@)[x]].max_running_ms),
            decreases gsel.len() - j,
        {
            proof {
                assert(as_ints(gsel@)[j as int] == gsel@[j as int] as int);
            }
            let g = copy_group(&groups[gsel[j]]);
            ip_groups.push(g);
            j = j + 1;
        }
        let r = DashboardActiveRequestsResult {
            total_count,
            queued_count,
            running_count: running_count_v,
            items,
            ip_groups,
        };
        proof {
            let si = as_ints(sel@);
            assert(item_limit(limit) == lim as nat);
            assert(sorted_prefix(item_keys(c), si, item_limit(limit)));
            assert(r.items@.len() == si.len());
            assert(forall|j: int| 0 <= j < si.len() ==> #[trigger] item_matches(r.items@[j], c[si[j]], now));
            let gs = as_ints(gsel@);
            assert forall|j: int| 0 <= j < r.ip_groups@.len() implies #[trigger] group_matches(r.ip_groups@[j], c, now) by {
                assert(group_matches(groups@[gs[j]], c, now));
            }
            assert forall|i: int| 0 <= i < c.len() && #[trigger] ip_of(c[i]) is Some implies exists|j: int|
                0 <= j < r.ip_groups@.len() && Some(r.ip_groups@[j].client_ip@) == ip_of(c[i]) by {
                let y = choose|y: int| 0 <= y < groups@.len() && Some(groups@[y].client_ip@) == ip_of(c[i]);
                assert(gs.contains(y));
                let j = choose|j: int| 0 <= j < gs.len() && gs[j] == y;
                assert(r.ip_groups@[j].client_ip@ == groups@[y].client_ip@);
            }
            assert forall|a: int, b: int| 0 <= a < b < r.ip_groups@.len() implies key_lt(
                group_key(r.ip_groups@[a]),
                group_key(r.ip_groups@[b]),
            ) by {
                assert(key_lt(group_keys(groups@)[gs[a]], group_keys(groups@)[gs[b]]));
            }
        }
        proof {
            assert forall|j: int, i: int|
                0 <= j < r.ip_groups@.len() && 0 <= i < c.len() && ip_of(#[trigger] c[i]) == Some(
                    (#[trigger] r.ip_groups@[j]).client_ip@,
                ) implies r.ip_groups@[j].max_running_ms >= running_ms_of(c[i], now)
                && r.ip_groups@[j].max_wait_ms >= wait_ms_of(c[i], now) by {
                assert(group_matches(r.ip_groups@[j], c, now));
                lemma_ip_max_running_is_longest(c, r.ip_groups@[j].client_ip@, now);
                lemma_ip_max_wait_is_longest(c, r.ip_groups@[j].client_ip@, now);
            }
        }
        r
    }
}


/// Beginning a request and then finishing it leaves the other requests as
/// they were and none under its trace id.
pub proof fn lemma_begin_then_finish(c: Seq<ActivityV>, e: ActivityV)
    requires
        ids_unique(c),
    ensures
        act_remove(act_upsert(c, e), e.trace_id) == act_remove(c, e.trace_id),
        act_index(act_remove(act_upsert(c, e), e.trace_id), e.trace_id) == -1,
{
    let id = e.trace_id;
    lemma_act_index_bounds(c, id);
    let i = act_index(c, id);
    if i >= 0 {
        let u = c.update(i, e);
        assert forall|j: int| 0 <= j < i implies u[j].trace_id != id by {
            assert(c[i].trace_id == id);
        }
        lemma_act_scan(u, id, i);
        assert(u.remove(i) =~= c.remove(i));
        let d = c.remove(i);
        assert forall|j: int| 0 <= j < d.len() implies d[j].trace_id != id by {
            let j2 = if j < i { j } else { j + 1 };
            assert(d[j] == c[j2]);
        }
        lemma_act_scan(d, id, d.len() as int);
    } else {
        let u = c.push(e);
        assert forall|j: int| 0 <= j < c.len() implies u[j].trace_id != id by {
            assert(u[j] == c[j]);
        }
        lemma_act_scan(u, id, c.len() as int);
        assert(u.remove(c.len() as int) =~= c);
        lemma_act_scan(c, id, c.len() as int);
    }
}

} // verus!
