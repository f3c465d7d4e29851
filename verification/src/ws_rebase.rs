//! Responses WebSocket recovery: caches of completed tool calls and completed
//! responses, and the rewriting of a `response.create` request so that another
//! account (or a reconnected upstream) can continue the conversation.
use vstd::prelude::*;
use crate::json::{
    JsonMember, JsonValue, JsonView, lemma_array_view, lemma_object_view, lemma_obj_get_push_absent,
    lemma_obj_get_push_present, lemma_obj_get_push_other, lemma_obj_insert_get,
    lemma_obj_index_below_len, member_index,
    member_views, members_insert, members_remove, obj_get, obj_index, obj_insert, obj_remove,
    views,
};
use crate::text::{ascii_lowercase, lemma_non_blank_stable, lower, non_blank, non_blank_str, str_eq, to_owned_string, trim,
    trim_str};

verus! {

/// Tool calls kept for recovery.
pub const MAX_CACHED_WS_TOOL_CALLS: usize = 256;

/// Completed responses kept for recovery.
pub const MAX_CACHED_WS_RESPONSES: usize = 64;

/// Bytes of completed responses kept for recovery.
pub const MAX_CACHED_WS_RESPONSE_BYTES: usize = 67_108_864;

/// The kind of a tool call.
#[derive(Clone, Copy, Debug, PartialEq, Eq, Structural)]
pub enum WsToolCallKind {
    Function,
    Custom,
}

pub open spec fn spec_call_item_type(k: WsToolCallKind) -> Seq<char> {
    match k {
        WsToolCallKind::Function => "function_call"@,
        WsToolCallKind::Custom => "custom_tool_call"@,
    }
}

pub open spec fn spec_output_item_type(k: WsToolCallKind) -> Seq<char> {
    match k {
        WsToolCallKind::Function => "function_call_output"@,
        WsToolCallKind::Custom => "custom_tool_call_output"@,
    }
}

impl WsToolCallKind {
    /// The item type of a call of this kind.
    pub fn call_item_type(&self) -> (r: &'static str)
        ensures
            r@ == spec_call_item_type(*self),
    {
        match self {
            WsToolCallKind::Function => "function_call",
            WsToolCallKind::Custom => "custom_tool_call",
        }
    }

    /// The item type of the output of a call of this kind.
    pub fn output_item_type(&self) -> (r: &'static str)
        ensures
            r@ == spec_output_item_type(*self),
    {
        match self {
            WsToolCallKind::Function => "function_call_output",
            WsToolCallKind::Custom => "custom_tool_call_output",
        }
    }
}

/// A tool call, identified by kind and call id.
pub struct WsToolCallKey {
    pub kind: WsToolCallKind,
    pub call_id: String,
}

/// A key as a value: kind and call id.
pub type KeyV = (WsToolCallKind, Seq<char>);

pub open spec fn key_view(k: WsToolCallKey) -> KeyV {
    (k.kind, k.call_id@)
}

pub open spec fn call_kind_of(t: Seq<char>) -> Option<WsToolCallKind> {
    let n = lower(trim(t));
    if n == "function_call"@ {
        Some(WsToolCallKind::Function)
    } else if n == "custom_tool_call"@ {
        Some(WsToolCallKind::Custom)
    } else {
        None
    }
}

pub open spec fn output_kind_of(t: Seq<char>) -> Option<WsToolCallKind> {
    let n = lower(trim(t));
    if n == "function_call_output"@ {
        Some(WsToolCallKind::Function)
    } else if n == "custom_tool_call_output"@ {
        Some(WsToolCallKind::Custom)
    } else {
        None
    }
}

/// A tool-call item with its key, and the item with `call_id` filled in from
/// `id` when it had none. `None` for anything that is not a function or
/// custom tool call with a non-blank call id.
pub open spec fn spec_normalize_call(item: JsonView) -> Option<(KeyV, JsonView)> {
    match item {
        JsonView::Object(m) => match obj_get(m, "type"@) {
            Some(JsonView::Str(t)) => match call_kind_of(t) {
                Some(kind) => {
                    let src = match obj_get(m, "call_id"@) {
                        Some(v) => Some(v),
                        None => obj_get(m, "id"@),
                    };
                    match src {
                        Some(JsonView::Str(c)) => match non_blank(c) {
                            Some(cid) => Some(
                                (
                                    (kind, cid),
                                    if obj_index(m, "call_id"@) >= 0 {
                                        item
                                    } else {
                                        JsonView::Object(m.push(("call_id"@, JsonView::Str(cid))))
                                    },
                                ),
                            ),
                            None => None,
                        },
                        _ => None,
                    }
                },
                None => None,
            },
            _ => None,
        },
        _ => None,
    }
}

/// A tool call is keyed by its `call_id`, trimmed, whenever it has one that
/// is a non-blank string, whatever its `id` holds, and is then kept as it is;
/// `id` is read only when there is no `call_id`, and then fills it in. A call
/// whose `call_id` is not a non-blank string has no key. The kind is that of
/// the item's `type`: `function_call` or `custom_tool_call`, in any case,
/// once trimmed.
pub proof fn lemma_call_id_preferred(m: Seq<(Seq<char>, JsonView)>, t: Seq<char>)
    requires
        obj_get(m, "type"@) == Some(JsonView::Str(t)),
        lower(trim(t)) == "function_call"@ || lower(trim(t)) == "custom_tool_call"@,
    ensures
        ({
            let kind = if lower(trim(t)) == "function_call"@ {
                WsToolCallKind::Function
            } else {
                WsToolCallKind::Custom
            };
            let r = spec_normalize_call(JsonView::Object(m));
            &&& match obj_get(m, "call_id"@) {
                Some(JsonView::Str(c)) => if trim(c).len() > 0 {
                    r == Some(((kind, trim(c)), JsonView::Object(m)))
                } else {
                    r is None
                },
                Some(_) => r is None,
                None => match obj_get(m, "id"@) {
                    Some(JsonView::Str(c)) => if trim(c).len() > 0 {
                        r == Some(
                            (
                                (kind, trim(c)),
                                JsonView::Object(m.push(("call_id"@, JsonView::Str(trim(c))))),
                            ),
                        )
                    } else {
                        r is None
                    },
                    _ => r is None,
                },
            }
        }),
{
    reveal_strlit("function_call");
    reveal_strlit("custom_tool_call");
    assert("function_call"@.len() != "custom_tool_call"@.len());
    lemma_get_index(m, "call_id"@);
}

/// The key of a tool-output item; an output without a non-blank call id is
/// an error; anything else has no key.
pub open spec fn spec_output_key(item: JsonView) -> Result<Option<KeyV>, Seq<char>> {
    match item {
        JsonView::Object(m) => {
            let t = match obj_get(m, "type"@) {
                Some(JsonView::Str(s)) => s,
                _ => Seq::empty(),
            };
            match output_kind_of(t) {
                None => Ok(None),
                Some(kind) => match (match obj_get(m, "call_id"@) {
                    Some(JsonView::Str(c)) => non_blank(c),
                    _ => None,
                }) {
                    Some(cid) => Ok(Some((kind, cid))),
                    None => Err(spec_output_item_type(kind) + " is missing a non-empty call_id"@),
                },
            }
        },
        _ => Ok(None),
    }
}

proof fn lemma_get_index(m: Seq<(Seq<char>, JsonView)>, key: Seq<char>)
    ensures
        (obj_get(m, key) is Some) == (obj_index(m, key) >= 0),
    decreases m.len(),
{
    if m.len() > 0 && m[0].0 != key {
        lemma_get_index(m.drop_first(), key);
    }
}

/// A normalized tool call normalizes to itself, under the same key.
pub proof fn lemma_normalize_call_stable(item: JsonView)
    ensures
        spec_normalize_call(item) matches Some(e) ==> spec_normalize_call(e.1) == Some(e),
{
    if let Some(e) = spec_normalize_call(item) {
        let m = item->Object_0;
        lemma_get_index(m, "call_id"@);
        if obj_index(m, "call_id"@) < 0 {
            let cid = e.0.1;
            let m2 = m.push(("call_id"@, JsonView::Str(cid)));
            lemma_obj_get_push_present(m, "type"@, ("call_id"@, JsonView::Str(cid)));
            lemma_obj_get_push_absent(m, "call_id"@, JsonView::Str(cid));
            lemma_get_index(m2, "call_id"@);
            let c = match obj_get(m, "id"@) {
                Some(JsonView::Str(c)) => c,
                _ => Seq::empty(),
            };
            lemma_non_blank_stable(c);
        }
    }
}

/// Whether the trimmed, lower-cased text is `lit`.
fn lower_trim_is(s: &str, lit: &str) -> (r: bool)
    ensures
        r == (lower(trim(s@)) == lit@),
{
    let t = trim_str(s);
    let l = ascii_lowercase(t.as_str());
    str_eq(l.as_str(), lit)
}

fn call_kind_exec(t: &str) -> (r: Option<WsToolCallKind>)
    ensures
        r == call_kind_of(t@),
{
    if lower_trim_is(t, "function_call") {
        Some(WsToolCallKind::Function)
    } else if lower_trim_is(t, "custom_tool_call") {
        Some(WsToolCallKind::Custom)
    } else {
        None
    }
}

fn output_kind_exec(t: &str) -> (r: Option<WsToolCallKind>)
    ensures
        r == output_kind_of(t@),
{
    if lower_trim_is(t, "function_call_output") {
        Some(WsToolCallKind::Function)
    } else if lower_trim_is(t, "custom_tool_call_output") {
        Some(WsToolCallKind::Custom)
    } else {
        None
    }
}

pub open spec fn opt_key_item_view(r: Option<(WsToolCallKey, JsonValue)>) -> Option<(KeyV, JsonView)> {
    match r {
        Some((k, v)) => Some((key_view(k), v@)),
        None => None,
    }
}

/// A tool-call item with its key, `call_id` filled in from `id` when absent.
pub fn normalize_ws_tool_call_item(item: &JsonValue) -> (r: Option<(WsToolCallKey, JsonValue)>)
    ensures
        opt_key_item_view(r) == spec_normalize_call(item@),
{
    let members = match item {
        JsonValue::Object(m) => m,
        _ => return None,
    };
    proof {
        lemma_object_view(*members);
    }
    let t = match item.get_str("type") {
        Some(t) => t,
        None => {
            proof {
                if let Some(v) = obj_get(member_views(members@), "type"@) {
                    assert(v.as_str() is None);
                }
            }
            return None;
        },
    };
    let kind = match call_kind_exec(t.as_str()) {
        Some(k) => k,
        None => return None,
    };
    let src = match item.get("call_id") {
        Some(v) => Some(v),
        None => item.get("id"),
    };
    let raw = match src {
        Some(v) => match v.as_str() {
            Some(s) => s,
            None => return None,
        },
        None => return None,
    };
    let call_id = match non_blank_str(raw.as_str()) {
        Some(c) => c,
        None => return None,
    };
    let mut normalized = item.deep_copy();
    let has_call_id = member_index(members, "call_id").is_some();
    proof {
        lemma_get_index(member_views(members@), "call_id"@);
    }
    if !has_call_id {
        proof {
            assert(normalized is Object);
            lemma_object_view(normalized->Object_0);
        }
        match &mut normalized {
            JsonValue::Object(nm) => {
                let ghost before = nm@;
                nm.push(JsonMember { key: to_owned_string("call_id"), value: JsonValue::Str(call_id.clone()) });
                proof {
                    assert(member_views(nm@) =~= member_views(before).push(("call_id"@, JsonView::Str(call_id@))));
                }
            },
            _ => {},
        }
        proof {
            lemma_object_view(normalized->Object_0);
        }
    }
    Some((WsToolCallKey { kind, call_id }, normalized))
}

pub open spec fn opt_key_view(r: Option<WsToolCallKey>) -> Option<KeyV> {
    match r {
        Some(k) => Some(key_view(k)),
        None => None,
    }
}

/// The key of a tool-output item.
pub fn ws_tool_output_key(item: &JsonValue) -> (r: Result<Option<WsToolCallKey>, String>)
    ensures
        match r {
            Ok(k) => spec_output_key(item@) == Ok::<Option<KeyV>, Seq<char>>(opt_key_view(k)),
            Err(e) => spec_output_key(item@) == Err::<Option<KeyV>, Seq<char>>(e@),
        },
{
    let members = match item {
        JsonValue::Object(m) => m,
        _ => return Ok(None),
    };
    proof {
        lemma_object_view(*members);
    }
    let empty = String::new();
    let t = match item.get_str("type") {
        Some(t) => t,
        None => &empty,
    };
    let kind = match output_kind_exec(t.as_str()) {
        Some(k) => k,
        None => return Ok(None),
    };
    let call_id = match item.get_str("call_id") {
        Some(c) => non_blank_str(c.as_str()),
        None => None,
    };
    match call_id {
        Some(c) => Ok(Some(WsToolCallKey { kind, call_id: c })),
        None => {
            let mut msg = to_owned_string(kind.output_item_type());
            msg.append(" is missing a non-empty call_id");
            Err(msg)
        },
    }
}

fn key_eq(a: &WsToolCallKey, b: &WsToolCallKey) -> (r: bool)
    ensures
        r == (key_view(*a) == key_view(*b)),
{
    a.kind == b.kind && str_eq(a.call_id.as_str(), b.call_id.as_str())
}

/// A cached tool call.
pub struct CachedToolCall {
    pub key: WsToolCallKey,
    pub item: JsonValue,
}

pub open spec fn cached_views(e: Seq<CachedToolCall>) -> Seq<(KeyV, JsonView)> {
    Seq::new(e.len(), |i: int| (key_view(e[i].key), e[i].item@))
}

/// Index of the entry with the key, or -1.
pub open spec fn key_index(c: Seq<(KeyV, JsonView)>, k: KeyV) -> int
    decreases c.len(),
{
    if c.len() == 0 {
        -1
    } else if c[0].0 == k {
        0
    } else {
        let r = key_index(c.drop_first(), k);
        if r < 0 {
            -1
        } else {
            r + 1
        }
    }
}

proof fn lemma_key_scan(c: Seq<(KeyV, JsonView)>, k: KeyV, i: int)
    requires
        0 <= i <= c.len(),
        forall|j: int| 0 <= j < i ==> c[j].0 != k,
    ensures
        i < c.len() && c[i].0 == k ==> key_index(c, k) == i,
        i == c.len() ==> key_index(c, k) == -1,
    decreases i,
{
    if i > 0 {
        lemma_key_scan(c.drop_first(), k, i - 1);
    }
}

proof fn lemma_key_index_bounds(c: Seq<(KeyV, JsonView)>, k: KeyV)
    ensures
        -1 <= key_index(c, k) < c.len(),
        key_index(c, k) >= 0 ==> c[key_index(c, k)].0 == k,
        key_index(c, k) < 0 ==> forall|j: int| 0 <= j < c.len() ==> c[j].0 != k,
    decreases c.len(),
{
    if c.len() > 0 && c[0].0 != k {
        lemma_key_index_bounds(c.drop_first(), k);
        assert forall|j: int| 1 <= j < c.len() implies c[j] == c.drop_first()[j - 1] by {}
    }
}

/// The cached value of a key.
pub open spec fn cache_get(c: Seq<(KeyV, JsonView)>, k: KeyV) -> Option<JsonView> {
    let i = key_index(c, k);
    if i >= 0 {
        Some(c[i].1)
    } else {
        None
    }
}

/// The cache after seeing `item`: a tool call replaces the entry of its key
/// in place, or is appended after the oldest entry is dropped when the cache
/// is full; other items leave it unchanged.
pub open spec fn cache_insert(c: Seq<(KeyV, JsonView)>, item: JsonView) -> Seq<(KeyV, JsonView)> {
    match spec_normalize_call(item) {
        None => c,
        Some((k, n)) => {
            let i = key_index(c, k);
            if i >= 0 {
                c.update(i, (k, n))
            } else {
                let base = if c.len() >= MAX_CACHED_WS_TOOL_CALLS {
                    c.subrange(c.len() - (MAX_CACHED_WS_TOOL_CALLS - 1), c.len() as int)
                } else {
                    c
                };
                base.push((k, n))
            }
        },
    }
}

/// The cache after seeing each item in turn.
pub open spec fn cache_insert_all(c: Seq<(KeyV, JsonView)>, items: Seq<JsonView>) -> Seq<
    (KeyV, JsonView),
>
    decreases items.len(),
{
    if items.len() == 0 {
        c
    } else {
        cache_insert(cache_insert_all(c, items.drop_last()), items.last())
    }
}

/// Each entry is a normalized tool call filed under its own key.
pub open spec fn entries_normalized(c: Seq<(KeyV, JsonView)>) -> bool {
    forall|i: int| 0 <= i < c.len() ==> spec_normalize_call(#[trigger] c[i].1) == Some(c[i])
}

pub open spec fn keys_unique(c: Seq<(KeyV, JsonView)>) -> bool {
    forall|a: int, b: int| 0 <= a < b < c.len() ==> c[a].0 != c[b].0
}

/// What an upstream event adds to the cache: the item of
/// `response.output_item.done`, or every output item of `response.completed`.
pub open spec fn spec_observe_event(c: Seq<(KeyV, JsonView)>, ev: JsonView) -> Seq<
    (KeyV, JsonView),
> {
    let t = lower(
        trim(
            match ev.get_str("type"@) {
                Some(s) => s,
                None => Seq::empty(),
            },
        ),
    );
    if t == "response.output_item.done"@ {
        match ev.get("item"@) {
            Some(item) => cache_insert(c, item),
            None => c,
        }
    } else if t == "response.completed"@ {
        match ev.get("response"@) {
            Some(r) => match r.get("output"@) {
                Some(JsonView::Array(items)) => cache_insert_all(c, items),
                _ => c,
            },
            None => c,
        }
    } else {
        c
    }
}

/// Tool calls that the upstream completed, oldest first, one per key.
pub struct CompletedWsToolCallCache {
    entries: Vec<CachedToolCall>,
}

impl CompletedWsToolCallCache {
    #[verifier::type_invariant]
    spec fn inv(self) -> bool {
        &&& keys_unique(cached_views(self.entries@))
        &&& self.entries@.len() <= MAX_CACHED_WS_TOOL_CALLS
        &&& entries_normalized(cached_views(self.entries@))
    }

    pub closed spec fn spec_calls(self) -> Seq<(KeyV, JsonView)> {
        cached_views(self.entries@)
    }

    pub fn new() -> (r: Self)
        ensures
            r.spec_calls().len() == 0,
    {
        let r = CompletedWsToolCallCache { entries: Vec::new() };
        proof {
            assert(cached_views(r.entries@).len() == 0);
        }
        r
    }

    fn index_of(&self, key: &WsToolCallKey) -> (r: Option<usize>)
        ensures
            match r {
                Some(i) => key_index(self.spec_calls(), key_view(*key)) == i && i
                    < self.entries@.len(),
                None => key_index(self.spec_calls(), key_view(*key)) == -1,
            },
    {
        let ghost c = cached_views(self.entries@);
        let mut i: usize = 0;
        while i < self.entries.len()
            invariant
                i <= self.entries@.len(),
                c == cached_views(self.entries@),
                forall|j: int| 0 <= j < i ==> c[j].0 != key_view(*key),
            decreases self.entries.len() - i,
        {
            if key_eq(&self.entries[i].key, key) {
                proof {
                    lemma_key_scan(c, key_view(*key), i as int);
                }
                return Some(i);
            }
            i = i + 1;
        }
        proof {
            lemma_key_scan(c, key_view(*key), i as int);
        }
        None
    }

    /// The cached call of a key.
    pub fn get(&self, key: &WsToolCallKey) -> (r: Option<&JsonValue>)
        ensures
            crate::json::opt_view(r) == cache_get(self.spec_calls(), key_view(*key)),
    {
        match self.index_of(key) {
            Some(i) => Some(&self.entries[i].item),
            None => None,
        }
    }

    /// Records a completed tool call (other items are ignored).
    pub fn insert(&mut self, item: &JsonValue)
        ensures
            final(self).spec_calls() == cache_insert(old(self).spec_calls(), item@),
            final(self).spec_calls().len() <= MAX_CACHED_WS_TOOL_CALLS,
            keys_unique(final(self).spec_calls()),
            entries_normalized(final(self).spec_calls()),
    {
        proof {
            use_type_invariant(&*self);
        }
        let (key, normalized) = match normalize_ws_tool_call_item(item) {
            Some(p) => p,
            None => return,
        };
        proof {
            use_type_invariant(&*self);
            lemma_normalize_call_stable(item@);
        }
        let ghost c = cached_views(self.entries@);
        let ghost n = normalized@;
        match self.index_of(&key) {
            Some(i) => {
                let mut entries: Vec<CachedToolCall> = Vec::new();
                std::mem::swap(&mut entries, &mut self.entries);
                let ghost before = entries@;
                let mut tail = entries.split_off(i);
                let _old = tail.remove(0);
                entries.push(CachedToolCall { key, item: normalized });
                entries.append(&mut tail);
                proof {
                    lemma_key_index_bounds(c, key_view(key));
                    assert(cached_views(entries@) =~= c.update(i as int, (key_view(key), n)));
                    assert(keys_unique(cached_views(entries@))) by {
                        assert forall|a: int, b: int| 0 <= a < b < cached_views(entries@).len()
                            implies cached_views(entries@)[a].0 != cached_views(entries@)[b].0 by {
                            assert(c[a].0 != c[b].0);
                        }
                    }
                }
                self.entries = entries;
            },
            None => {
                let mut entries: Vec<CachedToolCall> = Vec::new();
                std::mem::swap(&mut entries, &mut self.entries);
                let ghost before = entries@;
                if entries.len() >= MAX_CACHED_WS_TOOL_CALLS {
                    let _oldest = entries.remove(0);
                }
                let ghost base = entries@;
                proof {
                    lemma_key_index_bounds(c, key_view(key));
                    if before.len() >= MAX_CACHED_WS_TOOL_CALLS {
                        assert(cached_views(base) =~= c.subrange(
                            c.len() - (MAX_CACHED_WS_TOOL_CALLS - 1),
                            c.len() as int,
                        ));
                    } else {
                        assert(cached_views(base) =~= c);
                    }
                }
                entries.push(CachedToolCall { key, item: normalized });
                proof {
                    assert(cached_views(entries@) =~= cached_views(base).push((key_view(key), n)));
                    assert(keys_unique(cached_views(entries@))) by {
                        assert forall|a: int, b: int| 0 <= a < b < cached_views(entries@).len()
                            implies cached_views(entries@)[a].0 != cached_views(entries@)[b].0 by {
                            if before.len() >= MAX_CACHED_WS_TOOL_CALLS {
                                assert(cached_views(base)[a] == c[a + 1]);
                                if b < cached_views(base).len() {
                                    assert(cached_views(base)[b] == c[b + 1]);
                                }
                            } else {
                                assert(cached_views(base)[a] == c[a]);
                                if b < cached_views(base).len() {
                                    assert(cached_views(base)[b] == c[b]);
                                }
                            }
                        }
                    }
                }
                self.entries = entries;
            },
        }
    }

    /// Records the tool calls that an upstream event completes.
    pub fn observe_upstream_event(&mut self, event: &JsonValue)
        ensures
            final(self).spec_calls() == spec_observe_event(old(self).spec_calls(), event@),
    {
        let empty = String::new();
        let t = match event.get_str("type") {
            Some(s) => s,
            None => &empty,
        };
        if lower_trim_is(t.as_str(), "response.output_item.done") {
            if let Some(item) = event.get("item") {
                self.insert(item);
            }
        } else if lower_trim_is(t.as_str(), "response.completed") {
            if let Some(response) = event.get("response") {
                if let Some(output) = response.get("output") {
                    if let Some(items) = output.as_array() {
                        let ghost c0 = self.spec_calls();
                        let mut i: usize = 0;
                        while i < items.len()
                            invariant
                                i <= items@.len(),
                                self.spec_calls() == cache_insert_all(c0, views(items@).subrange(0, i as int)),
                            decreases items.len() - i,
                        {
                            self.insert(&items[i]);
                            proof {
                                let s = views(items@).subrange(0, i + 1);
                                assert(s.drop_last() =~= views(items@).subrange(0, i as int));
                                assert(s.last() == items@[i as int]@);
                            }
                            i = i + 1;
                        }
                        proof {
                            assert(views(items@).subrange(0, items@.len() as int) =~= views(items@));
                        }
                    }
                }
            }
        }
    }
}

/// A completed response kept for history recovery.
pub struct CompletedWsResponse {
    pub response_id: String,
    pub previous_response_id: Option<String>,
    pub input: Vec<JsonValue>,
    pub output: Vec<JsonValue>,
    pub retained_bytes: usize,
}

/// A cached response as a value.
pub struct RespV {
    pub id: Seq<char>,
    pub prev: Option<Seq<char>>,
    pub input: Seq<JsonView>,
    pub output: Seq<JsonView>,
    pub bytes: nat,
}

pub open spec fn resp_view(r: CompletedWsResponse) -> RespV {
    RespV {
        id: r.response_id@,
        prev: match r.previous_response_id {
            Some(p) => Some(p@),
            None => None,
        },
        input: views(r.input@),
        output: views(r.output@),
        bytes: r.retained_bytes as nat,
    }
}

pub open spec fn resp_views(e: Seq<CompletedWsResponse>) -> Seq<RespV> {
    Seq::new(e.len(), |i: int| resp_view(e[i]))
}

pub open spec fn sum_bytes(c: Seq<RespV>) -> nat
    decreases c.len(),
{
    if c.len() == 0 {
        0
    } else {
        sum_bytes(c.drop_last()) + c.last().bytes
    }
}

/// Index of the response with the id, or -1.
pub open spec fn resp_index(c: Seq<RespV>, id: Seq<char>) -> int
    decreases c.len(),
{
    if c.len() == 0 {
        -1
    } else if c[0].id == id {
        0
    } else {
        let r = resp_index(c.drop_first(), id);
        if r < 0 {
            -1
        } else {
            r + 1
        }
    }
}

/// The responses other than `id`.
pub open spec fn resp_remove(c: Seq<RespV>, id: Seq<char>) -> Seq<RespV>
    decreases c.len(),
{
    if c.len() == 0 {
        c
    } else {
        let r = resp_remove(c.drop_last(), id);
        if c.last().id == id {
            r
        } else {
            r.push(c.last())
        }
    }
}

/// Drops the oldest responses until a new one of `bytes` fits: fewer than
/// `MAX_CACHED_WS_RESPONSES` entries and at most `MAX_CACHED_WS_RESPONSE_BYTES`
/// bytes in all.
pub open spec fn evict_for(c: Seq<RespV>, bytes: nat) -> Seq<RespV>
    decreases c.len(),
{
    if c.len() > 0 && (c.len() >= MAX_CACHED_WS_RESPONSES || sum_bytes(c) + bytes
        > MAX_CACHED_WS_RESPONSE_BYTES) {
        evict_for(c.drop_first(), bytes)
    } else {
        c
    }
}

pub open spec fn sat_add(a: nat, b: nat) -> nat {
    if a + b > usize::MAX {
        usize::MAX as nat
    } else {
        a + b
    }
}

/// Bytes a response holds: its serialized input and output and its ids.
pub open spec fn retained_of(
    id: Seq<char>,
    prev: Option<Seq<char>>,
    input_bytes: nat,
    output_bytes: nat,
) -> nat {
    sat_add(
        sat_add(sat_add(input_bytes, output_bytes), vstd::utf8::encode_utf8(id).len()),
        match prev {
            Some(p) => vstd::utf8::encode_utf8(p).len(),
            None => 0,
        },
    )
}

pub open spec fn opt_non_blank(s: Option<Seq<char>>) -> Option<Seq<char>> {
    match s {
        Some(v) => non_blank(v),
        None => None,
    }
}

/// The cache after storing a completed response (a response of the same id
/// is replaced and moves to the newest position).
pub open spec fn spec_store(c: Seq<RespV>, r: RespV) -> Seq<RespV> {
    evict_for(resp_remove(c, r.id), r.bytes).push(r)
}

pub open spec fn too_large_message(id: Seq<char>, bytes: nat) -> Seq<char> {
    "completed websocket response "@ + id + " requires "@ + crate::text::dec(bytes)
        + " bytes, exceeding the 67108864 byte recovery cache limit"@
}

/// Completed responses of one WebSocket session, oldest first, for history
/// recovery; bounded in count and bytes.
pub struct CompletedWsResponseCache {
    responses: Vec<CompletedWsResponse>,
    retained_bytes: usize,
}

pub open spec fn ids_unique(c: Seq<RespV>) -> bool {
    forall|a: int, b: int| 0 <= a < b < c.len() ==> c[a].id != c[b].id
}

proof fn lemma_sum_push(c: Seq<RespV>, r: RespV)
    ensures
        sum_bytes(c.push(r)) == sum_bytes(c) + r.bytes,
{
    assert(c.push(r).drop_last() =~= c);
}

proof fn lemma_sum_drop_first(c: Seq<RespV>)
    requires
        c.len() > 0,
    ensures
        sum_bytes(c) == c[0].bytes + sum_bytes(c.drop_first()),
    decreases c.len(),
{
    if c.len() > 1 {
        lemma_sum_drop_first(c.drop_last());
        assert(c.drop_last().drop_first() =~= c.drop_first().drop_last());
        assert(c.drop_first().last() == c.last());
        assert(c.drop_last()[0] == c[0]);
        assert(sum_bytes(c) == sum_bytes(c.drop_last()) + c.last().bytes);
        assert(sum_bytes(c.drop_first()) == sum_bytes(c.drop_first().drop_last()) + c.drop_first().last().bytes);
    } else {
        assert(c.drop_first().len() == 0);
        assert(c.drop_last().len() == 0);
        assert(c.last() == c[0]);
        assert(sum_bytes(c) == sum_bytes(c.drop_last()) + c.last().bytes);
        assert(sum_bytes(c.drop_last()) == 0);
        assert(sum_bytes(c.drop_first()) == 0);
    }
}

proof fn lemma_resp_scan(c: Seq<RespV>, id: Seq<char>, i: int)
    requires
        0 <= i <= c.len(),
        forall|j: int| 0 <= j < i ==> c[j].id != id,
    ensures
        i < c.len() && c[i].id == id ==> resp_index(c, id) == i,
        i == c.len() ==> resp_index(c, id) == -1,
    decreases i,
{
    if i > 0 {
        lemma_resp_scan(c.drop_first(), id, i - 1);
    }
}

proof fn lemma_remove_absent(c: Seq<RespV>, id: Seq<char>)
    requires
        forall|j: int| 0 <= j < c.len() ==> c[j].id != id,
    ensures
        resp_remove(c, id) == c,
    decreases c.len(),
{
    if c.len() > 0 {
        lemma_remove_absent(c.drop_last(), id);
        assert(c.drop_last().push(c.last()) =~= c);
    }
}

proof fn lemma_remove_unique(c: Seq<RespV>, id: Seq<char>, i: int)
    requires
        ids_unique(c),
        0 <= i < c.len(),
        c[i].id == id,
    ensures
        resp_remove(c, id) == c.subrange(0, i) + c.subrange(i + 1, c.len() as int),
    decreases c.len(),
{
    if i == c.len() - 1 {
        lemma_remove_absent(c.drop_last(), id);
        assert(c.drop_last() =~= c.subrange(0, i) + c.subrange(i + 1, c.len() as int));
    } else {
        lemma_remove_unique(c.drop_last(), id, i);
        assert(c.drop_last().subrange(0, i) + c.drop_last().subrange(i + 1, c.len() - 1)
            == c.subrange(0, i) + c.subrange(i + 1, c.len() - 1));
        assert((c.subrange(0, i) + c.subrange(i + 1, c.len() - 1)).push(c.last()) =~= c.subrange(
            0,
            i,
        ) + c.subrange(i + 1, c.len() as int));
    }
}

impl CompletedWsResponseCache {
    #[verifier::type_invariant]
    spec fn inv(self) -> bool {
        &&& ids_unique(resp_views(self.responses@))
        &&& self.responses@.len() <= MAX_CACHED_WS_RESPONSES
        &&& self.retained_bytes as nat == sum_bytes(resp_views(self.responses@))
        &&& self.retained_bytes <= MAX_CACHED_WS_RESPONSE_BYTES
    }

    pub closed spec fn spec_responses(self) -> Seq<RespV> {
        resp_views(self.responses@)
    }

    pub fn new() -> (r: Self)
        ensures
            r.spec_responses().len() == 0,
    {
        let r = CompletedWsResponseCache { responses: Vec::new(), retained_bytes: 0 };
        proof {
            assert(resp_views(r.responses@).len() == 0);
        }
        r
    }

    fn index_of(&self, id: &str) -> (r: Option<usize>)
        ensures
            match r {
                Some(i) => i < self.responses@.len() && resp_index(self.spec_responses(), id@)
                    == i && self.spec_responses()[i as int].id == id@,
                None => resp_index(self.spec_responses(), id@) == -1 && forall|j: int|
                    0 <= j < self.spec_responses().len() ==> self.spec_responses()[j].id != id@,
            },
    {
        let ghost c = resp_views(self.responses@);
        let mut i: usize = 0;
        while i < self.responses.len()
            invariant
                i <= self.responses@.len(),
                c == resp_views(self.responses@),
                forall|j: int| 0 <= j < i ==> c[j].id != id@,
            decreases self.responses.len() - i,
        {
            if str_eq(self.responses[i].response_id.as_str(), id) {
                proof {
                    lemma_resp_scan(c, id@, i as int);
                }
                return Some(i);
            }
            i = i + 1;
        }
        proof {
            lemma_resp_scan(c, id@, i as int);
        }
        None
    }

    /// Whether a response of that id is cached.
    pub fn contains(&self, response_id: &str) -> (r: bool)
        ensures
            r == (resp_index(self.spec_responses(), response_id@) >= 0),
    {
        self.index_of(response_id).is_some()
    }

    /// Stores a completed response whose normalized input and output take
    /// `input_bytes` and `output_bytes` serialized. A response that alone
    /// exceeds the byte limit is refused; otherwise a response of the same id
    /// is replaced, and the oldest responses go until the new one fits.
    pub fn store(
        &mut self,
        response_id: String,
        previous_response_id: Option<&str>,
        input: Vec<JsonValue>,
        output: Vec<JsonValue>,
        input_bytes: usize,
        output_bytes: usize,
    ) -> (r: Result<(), String>)
        ensures
            ({
                let prev = opt_non_blank(
                    match previous_response_id {
                        Some(p) => Some(p@),
                        None => None,
                    },
                );
                let bytes = retained_of(response_id@, prev, input_bytes as nat, output_bytes as nat);
                let entry = RespV {
                    id: response_id@,
                    prev,
                    input: views(input@),
                    output: views(output@),
                    bytes,
                };
                if bytes > MAX_CACHED_WS_RESPONSE_BYTES {
                    &&& r matches Err(e) && e@ == too_large_message(response_id@, bytes)
                    &&& final(self).spec_responses() == old(self).spec_responses()
                } else {
                    &&& r is Ok
                    &&& final(self).spec_responses() == spec_store(old(self).spec_responses(), entry)
                }
            }),
            final(self).spec_responses().len() <= MAX_CACHED_WS_RESPONSES,
            sum_bytes(final(self).spec_responses()) <= MAX_CACHED_WS_RESPONSE_BYTES,
    {
        proof {
            use_type_invariant(&*self);
        }
        let prev = match previous_response_id {
            Some(p) => non_blank_str(p),
            None => None,
        };
        let id_len = response_id.as_str().as_bytes().len();
        let prev_len = match &prev {
            Some(p) => p.as_str().as_bytes().len(),
            None => 0,
        };
        let retained = input_bytes.saturating_add(output_bytes).saturating_add(id_len).saturating_add(
            prev_len,
        );
        if retained > MAX_CACHED_WS_RESPONSE_BYTES {
            let mut msg = to_owned_string("completed websocket response ");
            msg.append(response_id.as_str());
            msg.append(" requires ");
            msg.append(crate::text::decimal(retained as u64).as_str());
            msg.append(" bytes, exceeding the 67108864 byte recovery cache limit");
            return Err(msg);
        }
        let mut cache = CompletedWsResponseCache::new();
        std::mem::swap(&mut cache, self);
        proof {
            use_type_invariant(&cache);
        }
        let CompletedWsResponseCache { responses, retained_bytes } = cache;
        let mut responses = responses;
        let ghost c0 = resp_views(responses@);
        let mut total = retained_bytes;
        match index_of_in(&responses, response_id.as_str()) {
            Some(i) => {
                let ghost before = responses@;
                let mut tail = responses.split_off(i);
                let removed = tail.remove(0);
                responses.append(&mut tail);
                proof {
                    assert(resp_views(before)[i as int] == resp_view(removed));
                    lemma_remove_unique(c0, response_id@, i as int);
                    assert(resp_views(responses@) =~= c0.subrange(0, i as int) + c0.subrange(
                        i + 1,
                        c0.len() as int,
                    ));
                    lemma_sum_split(c0, i as int);
                    let rv = resp_views(responses@);
                    assert forall|a: int, b: int| 0 <= a < b < rv.len() implies rv[a].id != rv[b].id by {
                        let a2 = if a < i { a } else { a + 1 };
                        let b2 = if b < i { b } else { b + 1 };
                        assert(rv[a] == c0[a2]);
                        assert(rv[b] == c0[b2]);
                    }
                    assert forall|j: int| 0 <= j < rv.len() implies rv[j].id != response_id@ by {
                        let j2 = if j < i { j } else { j + 1 };
                        assert(rv[j] == c0[j2]);
                        assert(c0[i as int].id == response_id@);
                    }
                }
                total = total - removed.retained_bytes;
            },
            None => {
                proof {
                    lemma_remove_absent(c0, response_id@);
                }
            },
        }
        let ghost removed_view = resp_views(responses@);
        while responses.len() > 0 && (responses.len() >= MAX_CACHED_WS_RESPONSES || total
            + retained > MAX_CACHED_WS_RESPONSE_BYTES)
            invariant
                total as nat == sum_bytes(resp_views(responses@)),
                total <= MAX_CACHED_WS_RESPONSE_BYTES,
                retained <= MAX_CACHED_WS_RESPONSE_BYTES,
                evict_for(resp_views(responses@), retained as nat) == evict_for(
                    removed_view,
                    retained as nat,
                ),
                ids_unique(resp_views(responses@)),
                forall|j: int| 0 <= j < resp_views(responses@).len() ==> resp_views(responses@)[j].id
                    != response_id@,
            decreases responses.len(),
        {
            let ghost before = resp_views(responses@);
            let oldest = responses.remove(0);
            proof {
                lemma_sum_drop_first(before);
                assert(resp_views(responses@) =~= before.drop_first());
            }
            total = total - oldest.retained_bytes;
        }
        let ghost kept = resp_views(responses@);
        let entry = CompletedWsResponse {
            response_id,
            previous_response_id: prev,
            input,
            output,
            retained_bytes: retained,
        };
        let ghost ev = resp_view(entry);
        responses.push(entry);
        proof {
            assert(resp_views(responses@) =~= kept.push(ev));
            lemma_sum_push(kept, ev);
            assert(ids_unique(resp_views(responses@))) by {
                assert forall|a: int, b: int| 0 <= a < b < resp_views(responses@).len() implies
                    resp_views(responses@)[a].id != resp_views(responses@)[b].id by {
                    if b == kept.len() {
                        assert(kept[a].id != ev.id);
                    } else {
                        assert(kept[a].id != kept[b].id);
                    }
                }
            }
        }
        *self = CompletedWsResponseCache { responses, retained_bytes: total + retained };
        Ok(())
    }

}

fn index_of_in(responses: &Vec<CompletedWsResponse>, id: &str) -> (r: Option<usize>)
        ensures
            match r {
                Some(i) => i < responses@.len() && resp_views(responses@)[i as int].id == id@,
                None => forall|j: int|
                    0 <= j < responses@.len() ==> resp_views(responses@)[j].id != id@,
            },
    {
        let mut i: usize = 0;
        while i < responses.len()
            invariant
                i <= responses@.len(),
                forall|j: int| 0 <= j < i ==> resp_views(responses@)[j].id != id@,
            decreases responses.len() - i,
        {
            if str_eq(responses[i].response_id.as_str(), id) {
                return Some(i);
            }
            i = i + 1;
        }
        None
}

proof fn lemma_sum_split(c: Seq<RespV>, i: int)
    requires
        0 <= i < c.len(),
    ensures
        sum_bytes(c) == sum_bytes(c.subrange(0, i) + c.subrange(i + 1, c.len() as int)) + c[i].bytes,
    decreases c.len(),
{
    if i == c.len() - 1 {
        assert(c.subrange(0, i) + c.subrange(i + 1, c.len() as int) =~= c.drop_last());
    } else {
        lemma_sum_split(c.drop_last(), i);
        let l = c.drop_last().subrange(0, i) + c.drop_last().subrange(i + 1, c.len() - 1);
        assert(l.push(c.last()) =~= c.subrange(0, i) + c.subrange(i + 1, c.len() as int));
        lemma_sum_push(l, c.last());
    }
}


/// The `input` of a request as items: an array as is, `null` as nothing, a
/// string as one user message, anything else as a single item.
pub open spec fn spec_normalize_input(input: JsonView) -> Seq<JsonView> {
    match input {
        JsonView::Array(items) => items,
        JsonView::Null => Seq::empty(),
        JsonView::Str(text) => seq![user_message(text)],
        other => seq![other],
    }
}

/// `{"type":"message","role":"user","content":[{"type":"input_text","text":…}]}`
pub open spec fn user_message(text: Seq<char>) -> JsonView {
    JsonView::Object(
        seq![
            ("type"@, JsonView::Str("message"@)),
            ("role"@, JsonView::Str("user"@)),
            (
                "content"@,
                JsonView::Array(
                    seq![
                        JsonView::Object(
                            seq![
                                ("type"@, JsonView::Str("input_text"@)),
                                ("text"@, JsonView::Str(text)),
                            ],
                        ),
                    ],
                ),
            ),
        ],
    )
}

pub fn str_member(key: &str, value: &str) -> (r: JsonMember)
    ensures
        r.key@ == key@,
        r.value@ == JsonView::Str(value@),
{
    JsonMember { key: to_owned_string(key), value: JsonValue::Str(to_owned_string(value)) }
}

pub fn user_message_value(text: &String) -> (r: JsonValue)
    ensures
        r@ == user_message(text@),
{
    let mut part: Vec<JsonMember> = Vec::new();
    part.push(str_member("type", "input_text"));
    part.push(JsonMember { key: to_owned_string("text"), value: JsonValue::Str(text.clone()) });
    proof {
        lemma_object_view(part);
    }
    let part_value = JsonValue::Object(part);
    let mut content: Vec<JsonValue> = Vec::new();
    content.push(part_value);
    proof {
        lemma_array_view(content);
    }
    let mut m: Vec<JsonMember> = Vec::new();
    m.push(str_member("type", "message"));
    m.push(str_member("role", "user"));
    m.push(JsonMember { key: to_owned_string("content"), value: JsonValue::Array(content) });
    proof {
        lemma_object_view(m);
        assert(views(content@) =~= seq![part_value@]);
        assert(member_views(part@) =~= seq![
            ("type"@, JsonView::Str("input_text"@)),
            ("text"@, JsonView::Str(text@)),
        ]);
        assert(member_views(m@) =~= seq![
            ("type"@, JsonView::Str("message"@)),
            ("role"@, JsonView::Str("user"@)),
            ("content"@, JsonView::Array(views(content@))),
        ]);
    }
    JsonValue::Object(m)
}

fn copy_items(items: &Vec<JsonValue>) -> (r: Vec<JsonValue>)
    ensures
        views(r@) == views(items@),
{
    let mut out: Vec<JsonValue> = Vec::new();
    let mut i: usize = 0;
    while i < items.len()
        invariant
            i <= items@.len(),
            views(out@) == views(items@).subrange(0, i as int),
        decreases items.len() - i,
    {
        let c = items[i].deep_copy();
        let ghost before = out@;
        out.push(c);
        proof {
            assert(views(out@) =~= views(before).push(items@[i as int]@));
            assert(views(items@).subrange(0, i + 1) =~= views(items@).subrange(0, i as int).push(items@[i as int]@));
        }
        i = i + 1;
    }
    proof {
        assert(views(items@).subrange(0, items@.len() as int) =~= views(items@));
    }
    out
}

/// The `input` of a request as a list of items.
pub fn normalize_ws_response_input(input: &JsonValue) -> (r: Vec<JsonValue>)
    ensures
        views(r@) == spec_normalize_input(input@),
{
    match input {
        JsonValue::Array(items) => {
            proof {
                lemma_array_view(*items);
            }
            copy_items(items)
        },
        JsonValue::Null => {
            let r: Vec<JsonValue> = Vec::new();
            assert(views(r@) =~= Seq::<JsonView>::empty());
            r
        },
        JsonValue::Str(text) => {
            let mut r: Vec<JsonValue> = Vec::new();
            r.push(user_message_value(text));
            assert(views(r@) =~= seq![user_message(text@)]);
            r
        },
        other => {
            let mut r: Vec<JsonValue> = Vec::new();
            r.push(other.deep_copy());
            assert(views(r@) =~= seq![other@]);
            r
        },
    }
}

/// The id and output of a `response.completed` event; `None` for any other
/// event type.
pub open spec fn spec_completed_parts(ev: JsonView) -> Result<Option<(Seq<char>, Seq<JsonView>)>, Seq<char>> {
    let t = lower(
        trim(
            match ev.get_str("type"@) {
                Some(s) => s,
                None => Seq::empty(),
            },
        ),
    );
    if t != "response.completed"@ {
        Ok(None)
    } else {
        match ev.get("response"@) {
            Some(JsonView::Object(resp)) => {
                let r = JsonView::Object(resp);
                match (match r.get_str("id"@) {
                    Some(i) => non_blank(i),
                    None => None,
                }) {
                    None => Err("completed websocket response is missing a non-empty id"@),
                    Some(id) => match r.get("output"@) {
                        Some(JsonView::Array(items)) => Ok(Some((id, items))),
                        _ => Err(
                            "completed websocket response "@ + id + " is missing output array"@,
                        ),
                    },
                }
            },
            _ => Err("completed websocket event is missing response object"@),
        }
    }
}

/// The id and output items of a completed response event.
pub fn completed_response_parts(event: &JsonValue) -> (r: Result<Option<(String, Vec<JsonValue>)>, String>)
    ensures
        match r {
            Ok(None) => spec_completed_parts(event@) == Ok::<Option<(Seq<char>, Seq<JsonView>)>, Seq<char>>(None),
            Ok(Some((id, out))) => spec_completed_parts(event@) == Ok::<Option<(Seq<char>, Seq<JsonView>)>, Seq<char>>(Some((id@, views(out@)))),
            Err(e) => spec_completed_parts(event@) == Err::<Option<(Seq<char>, Seq<JsonView>)>, Seq<char>>(e@),
        },
{
    let empty = String::new();
    let t = match event.get_str("type") {
        Some(s) => s,
        None => &empty,
    };
    if !lower_trim_is(t.as_str(), "response.completed") {
        return Ok(None);
    }
    let response = match event.get("response") {
        Some(r) => r,
        None => return Err(to_owned_string("completed websocket event is missing response object")),
    };
    if !response.is_object() {
        return Err(to_owned_string("completed websocket event is missing response object"));
    }
    let id = match response.get_str("id") {
        Some(i) => match non_blank_str(i.as_str()) {
            Some(t) => t,
            None => return Err(to_owned_string("completed websocket response is missing a non-empty id")),
        },
        None => return Err(to_owned_string("completed websocket response is missing a non-empty id")),
    };
    match response.get("output") {
        Some(o) => match o.as_array() {
            Some(items) => Ok(Some((id, copy_items(items)))),
            None => {
                let mut msg = to_owned_string("completed websocket response ");
                msg.append(id.as_str());
                msg.append(" is missing output array");
                Err(msg)
            },
        },
        None => {
            let mut msg = to_owned_string("completed websocket response ");
            msg.append(id.as_str());
            msg.append(" is missing output array");
            Err(msg)
        },
    }
}

pub open spec fn cycle_message(id: Seq<char>) -> Seq<char> {
    "cached websocket response history contains a cycle at "@ + id
}

pub open spec fn missing_message(id: Seq<char>) -> Seq<char> {
    "previous_response_id "@ + id + " is not available in this websocket session recovery cache"@
}

pub open spec fn limit_message(id: Seq<char>) -> Seq<char> {
    "websocket response history for "@ + id + " exceeds the 64 response recovery limit"@
}

/// The chain of cached responses from `cur` back through each
/// `previous_response_id` (indices into the cache, newest first); an error
/// for a cycle, a missing response, or a chain that reaches 64 responses and
/// still continues.
pub open spec fn spec_walk(c: Seq<RespV>, root: Seq<char>, cur: Seq<char>, chain: Seq<int>) -> Result<Seq<int>, Seq<char>>
    decreases MAX_CACHED_WS_RESPONSES - chain.len(),
{
    if exists|j: int| 0 <= j < chain.len() && c[chain[j]].id == cur {
        Err(cycle_message(cur))
    } else {
        let i = resp_index(c, cur);
        if i < 0 {
            Err(missing_message(cur))
        } else {
            let chain2 = chain.push(i);
            match c[i].prev {
                None => Ok(chain2),
                Some(p) => if chain2.len() >= MAX_CACHED_WS_RESPONSES {
                    Err(limit_message(root))
                } else {
                    spec_walk(c, root, p, chain2)
                },
            }
        }
    }
}

/// Inputs and outputs along a chain, oldest response first.
pub open spec fn chain_items(c: Seq<RespV>, chain: Seq<int>) -> Seq<JsonView>
    decreases chain.len(),
{
    if chain.len() == 0 {
        Seq::empty()
    } else {
        chain_items(c, chain.drop_first()) + c[chain[0]].input + c[chain[0]].output
    }
}

/// The conversation history behind a response: the inputs and outputs of
/// every response in its chain, oldest first.
pub open spec fn spec_history(c: Seq<RespV>, id: Seq<char>) -> Result<Seq<JsonView>, Seq<char>> {
    match spec_walk(c, id, id, Seq::empty()) {
        Ok(chain) => Ok(chain_items(c, chain)),
        Err(e) => Err(e),
    }
}



pub open spec fn as_ints(s: Seq<usize>) -> Seq<int> {
    s.map_values(|x: usize| x as int)
}

pub open spec fn opt_str_view(s: Option<String>) -> Option<Seq<char>> {
    match s {
        Some(v) => Some(v@),
        None => None,
    }
}

fn cycle_error(id: &str) -> (r: String)
    ensures
        r@ == cycle_message(id@),
{
    let mut msg = to_owned_string("cached websocket response history contains a cycle at ");
    msg.append(id);
    msg
}

fn missing_error(id: &str) -> (r: String)
    ensures
        r@ == missing_message(id@),
{
    let mut msg = to_owned_string("previous_response_id ");
    msg.append(id);
    msg.append(" is not available in this websocket session recovery cache");
    msg
}

fn limit_error(id: &str) -> (r: String)
    ensures
        r@ == limit_message(id@),
{
    let mut msg = to_owned_string("websocket response history for ");
    msg.append(id);
    msg.append(" exceeds the 64 response recovery limit");
    msg
}

/// Appends a deep copy of each item.
fn extend_copies(out: &mut Vec<JsonValue>, items: &Vec<JsonValue>)
    ensures
        views(final(out)@) == views(old(out)@) + views(items@),
{
    let ghost start = views(out@);
    let mut i: usize = 0;
    while i < items.len()
        invariant
            i <= items@.len(),
            views(out@) == start + views(items@).subrange(0, i as int),
        decreases items.len() - i,
    {
        let c = items[i].deep_copy();
        let ghost before = out@;
        out.push(c);
        proof {
            assert(views(out@) =~= views(before).push(items@[i as int]@));
            assert(views(items@).subrange(0, i + 1) =~= views(items@).subrange(0, i as int).push(
                items@[i as int]@,
            ));
        }
        i = i + 1;
    }
    proof {
        assert(views(items@).subrange(0, items@.len() as int) =~= views(items@));
    }
}

impl CompletedWsResponseCache {
    /// Whether one of the chain's responses has the id.
    fn chain_has(&self, chain: &Vec<usize>, id: &str) -> (r: bool)
        requires
            forall|j: int| 0 <= j < chain@.len() ==> chain@[j] < self.spec_responses().len(),
        ensures
            r == exists|j: int|
                0 <= j < chain@.len() && self.spec_responses()[as_ints(chain@)[j]].id == id@,
    {
        let mut j: usize = 0;
        while j < chain.len()
            invariant
                j <= chain@.len(),
                forall|k: int| 0 <= k < chain@.len() ==> chain@[k] < self.spec_responses().len(),
                forall|k: int|
                    0 <= k < j ==> self.spec_responses()[as_ints(chain@)[k]].id != id@,
            decreases chain.len() - j,
        {
            if str_eq(self.responses[chain[j]].response_id.as_str(), id) {
                proof {
                    assert(self.spec_responses()[as_ints(chain@)[j as int]].id == id@);
                }
                return true;
            }
            j = j + 1;
        }
        false
    }

    /// The conversation history behind `response_id`: the inputs and outputs
    /// of each cached response along its `previous_response_id` chain, oldest
    /// first.
    pub fn collect_history_items(&self, response_id: &str) -> (r: Result<Vec<JsonValue>, String>)
        ensures
            match r {
                Ok(items) => spec_history(self.spec_responses(), response_id@) == Ok::<
                    Seq<JsonView>,
                    Seq<char>,
                >(views(items@)),
                Err(e) => spec_history(self.spec_responses(), response_id@) == Err::<
                    Seq<JsonView>,
                    Seq<char>,
                >(e@),
            },
    {
        let ghost c = self.spec_responses();
        let ghost root = response_id@;
        let mut cur = to_owned_string(response_id);
        let mut chain: Vec<usize> = Vec::new();
        proof {
            assert(as_ints(chain@) =~= Seq::<int>::empty());
        }
        loop
            invariant_except_break
                chain@.len() < MAX_CACHED_WS_RESPONSES,
                spec_walk(c, root, cur@, as_ints(chain@)) == spec_walk(c, root, root, Seq::empty()),
            invariant
                c == self.spec_responses(),
                root == response_id@,
                forall|j: int| 0 <= j < chain@.len() ==> chain@[j] < c.len(),
            ensures
                spec_walk(c, root, root, Seq::empty()) == Ok::<Seq<int>, Seq<char>>(as_ints(chain@)),
            decreases MAX_CACHED_WS_RESPONSES - chain@.len(),
        {
            if self.chain_has(&chain, cur.as_str()) {
                return Err(cycle_error(cur.as_str()));
            }
            let i = match self.index_of(cur.as_str()) {
                Some(i) => i,
                None => return Err(missing_error(cur.as_str())),
            };
            let ghost before = chain@;
            chain.push(i);
            proof {
                assert(as_ints(chain@) =~= as_ints(before).push(i as int));
            }
            match &self.responses[i].previous_response_id {
                None => break,
                Some(p) => {
                    if chain.len() >= MAX_CACHED_WS_RESPONSES {
                        return Err(limit_error(response_id));
                    }
                    cur = p.clone();
                },
            }
        }
        let mut history: Vec<JsonValue> = Vec::new();
        let mut k: usize = chain.len();
        proof {
            assert(as_ints(chain@).subrange(k as int, k as int) =~= Seq::<int>::empty());
            assert(views(history@) =~= Seq::<JsonView>::empty());
        }
        while k > 0
            invariant
                k <= chain@.len(),
                c == self.spec_responses(),
                forall|j: int| 0 <= j < chain@.len() ==> chain@[j] < c.len(),
                views(history@) == chain_items(c, as_ints(chain@).subrange(k as int, chain@.len() as int)),
            decreases k,
        {
            k = k - 1;
            let idx = chain[k];
            extend_copies(&mut history, &self.responses[idx].input);
            extend_copies(&mut history, &self.responses[idx].output);
            proof {
                let s = as_ints(chain@).subrange(k as int, chain@.len() as int);
                assert(s.drop_first() =~= as_ints(chain@).subrange(k + 1, chain@.len() as int));
                assert(s[0] == idx as int);
            }
        }
        proof {
            assert(as_ints(chain@).subrange(0, chain@.len() as int) =~= as_ints(chain@));
        }
        Ok(history)
    }
}


/// `response.create` with its `previous_response_id` replaced by the cached
/// history: the request must be an object of type `response.create`; without
/// a non-blank `previous_response_id` nothing changes (`None`); otherwise the
/// history of that response, then the request's own normalized input, become
/// its `input`, and `previous_response_id` goes.
pub open spec fn spec_expand(v: JsonView, c: Seq<RespV>) -> Result<Option<JsonView>, Seq<char>> {
    match v {
        JsonView::Object(m) => if v.get_str("type"@) != Some("response.create"@) {
            Err("history recovery only supports type=response.create"@)
        } else {
            match opt_non_blank(v.get_str("previous_response_id"@)) {
                None => Ok(None),
                Some(p) => match spec_history(c, p) {
                    Err(e) => Err(e),
                    Ok(h) => {
                        let items = match v.get("input"@) {
                            Some(ci) => h + spec_normalize_input(ci),
                            None => h,
                        };
                        Ok(
                            Some(
                                JsonView::Object(
                                    obj_insert(
                                        obj_remove(m, "previous_response_id"@),
                                        "input"@,
                                        JsonView::Array(items),
                                    ),
                                ),
                            ),
                        )
                    },
                },
            }
        },
        _ => Err("response.create for history recovery must be a JSON object"@),
    }
}

/// Whether the string member `key` is exactly `lit`.
fn str_member_is(v: &JsonValue, key: &str, lit: &str) -> (r: bool)
    ensures
        r == (v@.get_str(key@) == Some(lit@)),
{
    match v.get_str(key) {
        Some(s) => str_eq(s.as_str(), lit),
        None => false,
    }
}

/// Rewrites a `response.create` that continues `previous_response_id` into
/// one that carries the whole cached history as its input.
pub fn expand_response_create_previous_response(
    value: &JsonValue,
    completed_responses: &CompletedWsResponseCache,
) -> (r: Result<Option<JsonValue>, String>)
    ensures
        match r {
            Ok(None) => spec_expand(value@, completed_responses.spec_responses()) == Ok::<
                Option<JsonView>,
                Seq<char>,
            >(None),
            Ok(Some(v)) => spec_expand(value@, completed_responses.spec_responses()) == Ok::<
                Option<JsonView>,
                Seq<char>,
            >(Some(v@)),
            Err(e) => spec_expand(value@, completed_responses.spec_responses()) == Err::<
                Option<JsonView>,
                Seq<char>,
            >(e@),
        },
{
    if !value.is_object() {
        return Err(to_owned_string("response.create for history recovery must be a JSON object"));
    }
    if !str_member_is(value, "type", "response.create") {
        return Err(to_owned_string("history recovery only supports type=response.create"));
    }
    let prev = match value.get_str("previous_response_id") {
        Some(p) => match non_blank_str(p.as_str()) {
            Some(t) => t,
            None => return Ok(None),
        },
        None => return Ok(None),
    };
    let mut input = match completed_responses.collect_history_items(prev.as_str()) {
        Ok(h) => h,
        Err(e) => return Err(e),
    };
    let ghost h = views(input@);
    if let Some(current) = value.get("input") {
        let mut extra = normalize_ws_response_input(current);
        let ghost before = input@;
        input.append(&mut extra);
        proof {
            assert(views(input@) =~= views(before) + spec_normalize_input(current@));
        }
    }
    let mut out = value.deep_copy();
    proof {
        lemma_object_view(out->Object_0);
    }
    match &mut out {
        JsonValue::Object(members) => {
            members_remove(members, "previous_response_id");
            proof {
                lemma_array_view(input);
            }
            members_insert(members, "input", JsonValue::Array(input));
        },
        _ => {},
    }
    proof {
        lemma_object_view(out->Object_0);
    }
    Ok(Some(out))
}


/// The request fields that tie a request to one account's session.
pub open spec fn affinity_keys() -> Seq<Seq<char>> {
    seq![
        "session-id"@,
        "session_id"@,
        "conversation-id"@,
        "conversation_id"@,
        "thread-id"@,
        "thread_id"@,
        "client-request-id"@,
        "client_request_id"@,
        "window-id"@,
        "window_id"@,
        "turn-state"@,
        "turn_state"@,
        "parent-thread-id"@,
        "parent_thread_id"@,
        "turn-metadata"@,
        "turn_metadata"@,
        "x-client-request-id"@,
        "x-codex-conversation-id"@,
        "x-codex-window-id"@,
        "x-codex-turn-state"@,
        "x-codex-parent-thread-id"@,
        "x-codex-turn-metadata"@,
    ]
}

/// A key that names an affinity field, ignoring ASCII case.
pub open spec fn is_affinity_key(k: Seq<char>) -> bool {
    exists|i: int| 0 <= i < affinity_keys().len() && lower(k) == lower(#[trigger] affinity_keys()[i])
}

/// The members that are not affinity fields, in order.
pub open spec fn drop_affinity(m: Seq<(Seq<char>, JsonView)>) -> Seq<(Seq<char>, JsonView)>
    decreases m.len(),
{
    if m.len() == 0 {
        m
    } else {
        let r = drop_affinity(m.drop_last());
        if is_affinity_key(m.last().0) {
            r
        } else {
            r.push(m.last())
        }
    }
}

fn affinity_key_list() -> (r: Vec<&'static str>)
    ensures
        r@.len() == affinity_keys().len(),
        forall|i: int| 0 <= i < r@.len() ==> #[trigger] r@[i]@ == affinity_keys()[i],
{
    let mut r: Vec<&'static str> = Vec::new();
    r.push("session-id");
    r.push("session_id");
    r.push("conversation-id");
    r.push("conversation_id");
    r.push("thread-id");
    r.push("thread_id");
    r.push("client-request-id");
    r.push("client_request_id");
    r.push("window-id");
    r.push("window_id");
    r.push("turn-state");
    r.push("turn_state");
    r.push("parent-thread-id");
    r.push("parent_thread_id");
    r.push("turn-metadata");
    r.push("turn_metadata");
    r.push("x-client-request-id");
    r.push("x-codex-conversation-id");
    r.push("x-codex-window-id");
    r.push("x-codex-turn-state");
    r.push("x-codex-parent-thread-id");
    r.push("x-codex-turn-metadata");
    proof {
        let ks = affinity_keys();
        assert(r@.map_values(|s: &'static str| s@) =~= ks);
        assert forall|i: int| 0 <= i < r@.len() implies #[trigger] r@[i]@ == affinity_keys()[i] by {
            assert(r@.map_values(|s: &'static str| s@)[i] == r@[i]@);
        }
    }
    r
}

/// Whether the key names an affinity field, ignoring ASCII case.
pub fn is_ws_account_affinity_key(key: &str) -> (r: bool)
    ensures
        r == is_affinity_key(key@),
{
    let keys = affinity_key_list();
    let mut i: usize = 0;
    while i < keys.len()
        invariant
            i <= keys@.len(),
            keys@.len() == affinity_keys().len(),
            forall|j: int| 0 <= j < keys@.len() ==> #[trigger] keys@[j]@ == affinity_keys()[j],
            forall|j: int| 0 <= j < i ==> lower(key@) != lower(#[trigger] affinity_keys()[j]),
        decreases keys.len() - i,
    {
        if crate::text::eq_ignore_ascii_case(key, keys[i]) {
            proof {
                assert(keys@[i as int]@ == affinity_keys()[i as int]);
            }
            return true;
        }
        i = i + 1;
    }
    false
}

/// Removes every member that names an affinity field.
pub fn remove_ws_account_affinity_fields(members: &mut Vec<JsonMember>)
    ensures
        member_views(final(members)@) == drop_affinity(member_views(old(members)@)),
{
    let ghost all = members@;
    let ghost mv = member_views(all);
    let mut rest: Vec<JsonMember> = Vec::new();
    std::mem::swap(&mut rest, members);
    let n = rest.len();
    let mut i: usize = 0;
    proof {
        assert(mv.subrange(0, 0) =~= Seq::<(Seq<char>, JsonView)>::empty());
        assert(member_views(members@) =~= Seq::<(Seq<char>, JsonView)>::empty());
    }
    while i < n
        invariant
            i <= n,
            n == all.len(),
            mv == member_views(all),
            rest@ == all.subrange(i as int, n as int),
            member_views(members@) == drop_affinity(mv.subrange(0, i as int)),
        decreases n - i,
    {
        let e = rest.remove(0);
        proof {
            assert(mv.subrange(0, i + 1).drop_last() =~= mv.subrange(0, i as int));
            assert(mv.subrange(0, i + 1).last() == mv[i as int]);
            assert(mv[i as int] == (e.key@, e.value@));
            assert(rest@ =~= all.subrange(i + 1, n as int));
        }
        if !is_ws_account_affinity_key(e.key.as_str()) {
            let ghost before = members@;
            members.push(e);
            proof {
                assert(member_views(members@) =~= member_views(before).push(mv[i as int]));
            }
        }
        i = i + 1;
    }
    proof {
        assert(mv.subrange(0, n as int) =~= mv);
    }
}


/// The normalized tool call of the key that comes last among the items.
pub open spec fn last_call(items: Seq<JsonView>, k: KeyV) -> Option<JsonView>
    decreases items.len(),
{
    if items.len() == 0 {
        None
    } else {
        match spec_normalize_call(items.last()) {
            Some(e) => if e.0 == k {
                Some(e.1)
            } else {
                last_call(items.drop_last(), k)
            },
            None => last_call(items.drop_last(), k),
        }
    }
}

pub open spec fn missing_call_message(k: KeyV) -> Seq<char> {
    "cannot rebase "@ + spec_output_item_type(k.0) + " with call_id '"@ + k.1 + "': matching "@
        + spec_call_item_type(k.0)
        + " was not observed in the current input or completed upstream output"@
}

/// Progress of the input rewrite: the call keys emitted so far, the items
/// written, and whether anything differs from the input.
pub struct RebaseState {
    pub emitted: Seq<KeyV>,
    pub out: Seq<JsonView>,
    pub changed: bool,
}

/// One input item of the rewrite. A tool call is normalized and kept the
/// first time its key appears, and dropped after that. A tool output whose
/// call has not been emitted yet is preceded by that call, taken from the
/// input (its last occurrence) or else from the completed-call cache; with
/// neither, the rewrite fails. Everything else is kept as it is.
pub open spec fn rebase_step(
    all: Seq<JsonView>,
    cache: Seq<(KeyV, JsonView)>,
    st: RebaseState,
    item: JsonView,
) -> Result<RebaseState, Seq<char>> {
    match spec_normalize_call(item) {
        Some(e) => if st.emitted.contains(e.0) {
            Ok(RebaseState { emitted: st.emitted, out: st.out, changed: true })
        } else {
            Ok(
                RebaseState {
                    emitted: st.emitted.push(e.0),
                    out: st.out.push(e.1),
                    changed: st.changed || e.1 != item,
                },
            )
        },
        None => match spec_output_key(item) {
            Err(e) => Err(e),
            Ok(None) => Ok(RebaseState { emitted: st.emitted, out: st.out.push(item), changed: st.changed }),
            Ok(Some(k)) => if st.emitted.contains(k) {
                Ok(RebaseState { emitted: st.emitted, out: st.out.push(item), changed: st.changed })
            } else {
                match (match last_call(all, k) {
                    Some(c) => Some(c),
                    None => cache_get(cache, k),
                }) {
                    None => Err(missing_call_message(k)),
                    Some(c) => Ok(
                        RebaseState {
                            emitted: st.emitted.push(k),
                            out: st.out.push(c).push(item),
                            changed: true,
                        },
                    ),
                }
            },
        },
    }
}

/// The rewrite of the first `n` items.
pub open spec fn rebase_fold(all: Seq<JsonView>, cache: Seq<(KeyV, JsonView)>, n: nat) -> Result<
    RebaseState,
    Seq<char>,
>
    decreases n,
{
    if n == 0 {
        Ok(RebaseState { emitted: Seq::empty(), out: Seq::empty(), changed: false })
    } else {
        match rebase_fold(all, cache, (n - 1) as nat) {
            Err(e) => Err(e),
            Ok(st) => rebase_step(all, cache, st, all[n - 1]),
        }
    }
}

proof fn lemma_fold_err_sticks(all: Seq<JsonView>, cache: Seq<(KeyV, JsonView)>, n: nat, m: nat)
    requires
        n <= m,
        rebase_fold(all, cache, n) is Err,
    ensures
        rebase_fold(all, cache, m) == rebase_fold(all, cache, n),
    decreases m,
{
    if m > n {
        lemma_fold_err_sticks(all, cache, n, (m - 1) as nat);
    }
}

pub open spec fn keys_views(v: Seq<WsToolCallKey>) -> Seq<KeyV> {
    Seq::new(v.len(), |i: int| key_view(v[i]))
}

fn contains_key(v: &Vec<WsToolCallKey>, k: &WsToolCallKey) -> (r: bool)
    ensures
        r == keys_views(v@).contains(key_view(*k)),
{
    let mut i: usize = 0;
    while i < v.len()
        invariant
            i <= v@.len(),
            forall|j: int| 0 <= j < i ==> keys_views(v@)[j] != key_view(*k),
        decreases v.len() - i,
    {
        if key_eq(&v[i], k) {
            proof {
                assert(keys_views(v@)[i as int] == key_view(*k));
            }
            return true;
        }
        i = i + 1;
    }
    false
}

pub open spec fn opt_owned_view(r: Option<JsonValue>) -> Option<JsonView> {
    match r {
        Some(v) => Some(v@),
        None => None,
    }
}

/// The normalized tool call of the key that comes last among the items.
fn find_last_call(items: &Vec<JsonValue>, key: &WsToolCallKey) -> (r: Option<JsonValue>)
    ensures
        opt_owned_view(r) == last_call(views(items@), key_view(*key)),
{
    let ghost all = views(items@);
    let mut i: usize = items.len();
    proof {
        assert(all.subrange(0, i as int) =~= all);
    }
    while i > 0
        invariant
            i <= items@.len(),
            all == views(items@),
            last_call(all.subrange(0, i as int), key_view(*key)) == last_call(all, key_view(*key)),
        decreases i,
    {
        let ghost s = all.subrange(0, i as int);
        proof {
            assert(s.drop_last() =~= all.subrange(0, i - 1));
            assert(s.last() == items@[i - 1]@);
        }
        match normalize_ws_tool_call_item(&items[i - 1]) {
            Some((k, n)) => {
                if key_eq(&k, key) {
                    return Some(n);
                }
            },
            None => {},
        }
        i = i - 1;
    }
    None
}

fn missing_call_error(k: &WsToolCallKey) -> (r: String)
    ensures
        r@ == missing_call_message(key_view(*k)),
{
    let mut msg = to_owned_string("cannot rebase ");
    msg.append(k.kind.output_item_type());
    msg.append(" with call_id '");
    msg.append(k.call_id.as_str());
    msg.append("': matching ");
    msg.append(k.kind.call_item_type());
    msg.append(" was not observed in the current input or completed upstream output");
    msg
}

/// Rewrites the items of a request's input for another account (see
/// `rebase_step`); also says whether anything changed.
pub fn rebase_input_items(items: &Vec<JsonValue>, completed_tool_calls: &CompletedWsToolCallCache) -> (r: Result<(Vec<JsonValue>, bool), String>)
    ensures
        match r {
            Ok((out, changed)) => {
                &&& rebase_fold(views(items@), completed_tool_calls.spec_calls(), items@.len())
                    == Ok::<RebaseState, Seq<char>>(
                    RebaseState {
                        emitted: rebase_fold(
                            views(items@),
                            completed_tool_calls.spec_calls(),
                            items@.len(),
                        )->Ok_0.emitted,
                        out: views(out@),
                        changed,
                    },
                )
                &&& outputs_follow_calls(views(out@))
                &&& calls_unique(views(out@))
            },
            Err(e) => rebase_fold(views(items@), completed_tool_calls.spec_calls(), items@.len()) == Err::<RebaseState, Seq<char>>(e@),
        },
{
    let ghost all = views(items@);
    let ghost cache = completed_tool_calls.spec_calls();
    proof {
        use_type_invariant(completed_tool_calls);
        lemma_rebased_input_pairs_calls(all, cache);
    }
    let mut emitted: Vec<WsToolCallKey> = Vec::new();
    let mut out: Vec<JsonValue> = Vec::new();
    let mut changed = false;
    let mut i: usize = 0;
    proof {
        assert(keys_views(emitted@) =~= Seq::<KeyV>::empty());
        assert(views(out@) =~= Seq::<JsonView>::empty());
    }
    while i < items.len()
        invariant
            i <= items@.len(),
            all == views(items@),
            cache == completed_tool_calls.spec_calls(),
            rebase_fold(all, cache, i as nat) == Ok::<RebaseState, Seq<char>>(
                RebaseState { emitted: keys_views(emitted@), out: views(out@), changed },
            ),
        decreases items.len() - i,
    {
        let item = &items[i];
        proof {
            assert(all[i as int] == item@);
        }
        let ghost ev = emitted@;
        let ghost ov = out@;
        match normalize_ws_tool_call_item(item) {
            Some((key, normalized)) => {
                if contains_key(&emitted, &key) {
                    changed = true;
                } else {
                    if !crate::json::json_eq(&normalized, item) {
                        changed = true;
                    }
                    emitted.push(key);
                    out.push(normalized);
                    proof {
                        assert(keys_views(emitted@) =~= keys_views(ev).push(key_view(key)));
                        assert(views(out@) =~= views(ov).push(normalized@));
                    }
                }
            },
            None => {
                match ws_tool_output_key(item) {
                    Err(e) => {
                        proof {
                            lemma_fold_err_sticks(all, cache, (i + 1) as nat, items@.len());
                        }
                        return Err(e);
                    },
                    Ok(None) => {
                        out.push(item.deep_copy());
                        proof {
                            assert(views(out@) =~= views(ov).push(item@));
                        }
                    },
                    Ok(Some(key)) => {
                        if !contains_key(&emitted, &key) {
                            let matching = match find_last_call(items, &key) {
                                Some(c) => c,
                                None => match completed_tool_calls.get(&key) {
                                    Some(c) => c.deep_copy(),
                                    None => {
                                        proof {
                                            lemma_fold_err_sticks(all, cache, (i + 1) as nat, items@.len());
                                        }
                                        return Err(missing_call_error(&key));
                                    },
                                },
                            };
                            let ghost mv = matching@;
                            out.push(matching);
                            emitted.push(key);
                            changed = true;
                            proof {
                                assert(keys_views(emitted@) =~= keys_views(ev).push(key_view(key)));
                                assert(views(out@) =~= views(ov).push(mv));
                            }
                        }
                        let ghost ov2 = out@;
                        out.push(item.deep_copy());
                        proof {
                            assert(views(out@) =~= views(ov2).push(item@));
                        }
                    },
                }
            },
        }
        i = i + 1;
    }
    Ok((out, changed))
}


/// Items that carry `encrypted_content`, which only the account that wrote
/// them can read.
pub open spec fn has_encrypted_content(item: JsonView) -> bool {
    item.get("encrypted_content"@) is Some
}

/// The items without encrypted content, in order.
pub open spec fn drop_encrypted(items: Seq<JsonView>) -> Seq<JsonView>
    decreases items.len(),
{
    if items.len() == 0 {
        items
    } else {
        let r = drop_encrypted(items.drop_last());
        if has_encrypted_content(items.last()) {
            r
        } else {
            r.push(items.last())
        }
    }
}

/// A request whose `input` array loses its items with encrypted content.
pub open spec fn spec_strip_encrypted(v: JsonView) -> JsonView {
    match v {
        JsonView::Object(m) => match obj_get(m, "input"@) {
            Some(JsonView::Array(items)) => JsonView::Object(
                obj_insert(m, "input"@, JsonView::Array(drop_encrypted(items))),
            ),
            _ => v,
        },
        _ => v,
    }
}

fn drop_encrypted_items(items: &Vec<JsonValue>) -> (r: Vec<JsonValue>)
    ensures
        views(r@) == drop_encrypted(views(items@)),
{
    let ghost all = views(items@);
    let mut out: Vec<JsonValue> = Vec::new();
    let mut i: usize = 0;
    proof {
        assert(views(out@) =~= Seq::<JsonView>::empty());
        assert(all.subrange(0, 0) =~= Seq::<JsonView>::empty());
    }
    while i < items.len()
        invariant
            i <= items@.len(),
            all == views(items@),
            views(out@) == drop_encrypted(all.subrange(0, i as int)),
        decreases items.len() - i,
    {
        proof {
            assert(all.subrange(0, i + 1).drop_last() =~= all.subrange(0, i as int));
            assert(all.subrange(0, i + 1).last() == items@[i as int]@);
        }
        if items[i].get("encrypted_content").is_none() {
            let ghost before = out@;
            out.push(items[i].deep_copy());
            proof {
                assert(views(out@) =~= views(before).push(items@[i as int]@));
            }
        }
        i = i + 1;
    }
    proof {
        assert(all.subrange(0, items@.len() as int) =~= all);
    }
    out
}

/// Drops the input items that carry encrypted content: reasoning written for
/// one account cannot be read by another.
pub fn strip_cross_account_encrypted_content(value: &mut JsonValue)
    ensures
        final(value)@ == spec_strip_encrypted(old(value)@),
{
    match value {
        JsonValue::Object(members) => {
            proof {
                lemma_object_view(*members);
            }
            match member_index(members, "input") {
                Some(i) => {
                    let kept = match &members[i].value {
                        JsonValue::Array(items) => {
                            proof {
                                lemma_array_view(*items);
                            }
                            drop_encrypted_items(items)
                        },
                        _ => return,
                    };
                    proof {
                        lemma_array_view(kept);
                    }
                    members_insert(members, "input", JsonValue::Array(kept));
                },
                None => {},
            }
            proof {
                lemma_object_view(*members);
            }
        },
        _ => {},
    }
}

/// `client_metadata`, when it is an object, loses its affinity fields, and
/// goes altogether when nothing is left in it.
pub open spec fn spec_client_metadata_step(m: Seq<(Seq<char>, JsonView)>) -> Seq<(Seq<char>, JsonView)> {
    let i = obj_index(m, "client_metadata"@);
    if i >= 0 {
        match m[i].1 {
            JsonView::Object(cm) => {
                let cm2 = drop_affinity(cm);
                if cm2.len() == 0 {
                    m.remove(i)
                } else {
                    m.update(i, ("client_metadata"@, JsonView::Object(cm2)))
                }
            },
            _ => m,
        }
    } else {
        m
    }
}

/// The items of an `input`: an array's items, none for `null`, else the
/// value itself.
pub open spec fn spec_input_items(input: JsonView) -> Seq<JsonView> {
    match input {
        JsonView::Array(items) => items,
        JsonView::Null => Seq::empty(),
        other => seq![other],
    }
}

/// The request members after the input rewrite: the rewritten items replace
/// `input` when anything changed.
pub open spec fn spec_rebase_input(m: Seq<(Seq<char>, JsonView)>, cache: Seq<(KeyV, JsonView)>) -> Result<
    Seq<(Seq<char>, JsonView)>,
    Seq<char>,
> {
    match obj_get(m, "input"@) {
        None => Ok(m),
        Some(input) => {
            let items = spec_input_items(input);
            match rebase_fold(items, cache, items.len()) {
                Err(e) => Err(e),
                Ok(st) => Ok(
                    if st.changed {
                        obj_insert(m, "input"@, JsonView::Array(st.out))
                    } else if !(input is Array) && st.out.len() == 0 {
                        obj_insert(m, "input"@, JsonView::Null)
                    } else {
                        m
                    },
                ),
            }
        },
    }
}

/// A `response.create` made fit for another account: no
/// `previous_response_id`, no session affinity fields (at the top level and
/// in `client_metadata`), every tool output preceded by its call, and no
/// items with encrypted content.
pub open spec fn spec_rebase_account_change(v: JsonView, cache: Seq<(KeyV, JsonView)>) -> Result<
    JsonView,
    Seq<char>,
> {
    match v {
        JsonView::Object(m0) => if v.get_str("type"@) != Some("response.create"@) {
            Err("account rebase only supports type=response.create"@)
        } else {
            let m2 = spec_client_metadata_step(drop_affinity(obj_remove(m0, "previous_response_id"@)));
            match spec_rebase_input(m2, cache) {
                Err(e) => Err(e),
                Ok(m3) => Ok(spec_strip_encrypted(JsonView::Object(m3))),
            }
        },
        _ => Err("response.create for account rebase must be a JSON object"@),
    }
}

fn client_metadata_step(members: &mut Vec<JsonMember>)
    ensures
        member_views(final(members)@) == spec_client_metadata_step(member_views(old(members)@)),
{
    let ghost m = member_views(members@);
    let i = match member_index(members, "client_metadata") {
        Some(i) => i,
        None => return,
    };
    if !members[i].value.is_object() {
        return;
    }
    let ghost before = members@;
    let mut tail = members.split_off(i);
    let mut cm_member = tail.remove(0);
    let mut empty = false;
    match &mut cm_member.value {
        JsonValue::Object(cm) => {
            proof {
                lemma_object_view(*cm);
            }
            remove_ws_account_affinity_fields(cm);
            empty = cm.len() == 0;
            proof {
                lemma_object_view(*cm);
            }
        },
        _ => {},
    }
    if empty {
        members.append(&mut tail);
        proof {
            assert(member_views(members@) =~= m.remove(i as int));
        }
    } else {
        members.push(cm_member);
        members.append(&mut tail);
        proof {
            assert(member_views(members@) =~= m.update(i as int, ("client_metadata"@, cm_member.value@)));
        }
    }
}

fn copy_members(value: &JsonValue) -> (r: Vec<JsonMember>)
    requires
        value@ is Object,
    ensures
        JsonView::Object(member_views(r@)) == value@,
{
    let copy = value.deep_copy();
    match copy {
        JsonValue::Object(m) => {
            proof {
                lemma_object_view(m);
            }
            m
        },
        _ => {
            proof {
                assert(false);
            }
            Vec::new()
        },
    }
}

/// The items of an `input` value.
fn input_items(input: &JsonValue) -> (r: Vec<JsonValue>)
    ensures
        views(r@) == spec_input_items(input@),
{
    match input {
        JsonValue::Array(items) => {
            proof {
                lemma_array_view(*items);
            }
            copy_items(items)
        },
        JsonValue::Null => {
            let r: Vec<JsonValue> = Vec::new();
            assert(views(r@) =~= Seq::<JsonView>::empty());
            r
        },
        other => {
            let mut r: Vec<JsonValue> = Vec::new();
            r.push(other.deep_copy());
            assert(views(r@) =~= seq![other@]);
            r
        },
    }
}

/// Rewrites a `response.create` so that another account can take it over.
pub fn rebase_response_create_for_account_change(
    value: &JsonValue,
    completed_tool_calls: &CompletedWsToolCallCache,
) -> (r: Result<JsonValue, String>)
    ensures
        match r {
            Ok(v) => spec_rebase_account_change(value@, completed_tool_calls.spec_calls()) == Ok::<
                JsonView,
                Seq<char>,
            >(v@),
            Err(e) => spec_rebase_account_change(value@, completed_tool_calls.spec_calls()) == Err::<
                JsonView,
                Seq<char>,
            >(e@),
        },
        match r {
            Ok(v) => cache_plain(completed_tool_calls.spec_calls()) && calls_plain(
                rebase_source_items(value@),
            ) ==> outputs_follow_calls(final_input_items(v@)) && calls_unique(final_input_items(v@)),
            Err(_) => true,
        },
        value@ is Object && value@.get_str("type"@) == Some("response.create"@) && outputs_resolvable(
            rebase_source_items(value@),
            completed_tool_calls.spec_calls(),
        ) ==> r is Ok,
        match (r, value@) {
            (Ok(v), JsonView::Object(m0)) => keys_distinct(m0) ==> affinity_free(v@),
            _ => true,
        },
{
    proof {
        use_type_invariant(completed_tool_calls);
        if value@ is Object && value@.get_str("type"@) == Some("response.create"@) && outputs_resolvable(
            rebase_source_items(value@),
            completed_tool_calls.spec_calls(),
        ) {
            lemma_account_change_succeeds(value@, completed_tool_calls.spec_calls());
        }
        if let JsonView::Object(m0) = value@ {
            if keys_distinct(m0) && spec_rebase_account_change(value@, completed_tool_calls.spec_calls()) is Ok {
                lemma_account_change_affinity_free(value@, completed_tool_calls.spec_calls());
            }
        }
        if spec_rebase_account_change(value@, completed_tool_calls.spec_calls()) is Ok && cache_plain(
            completed_tool_calls.spec_calls(),
        ) && calls_plain(rebase_source_items(value@)) {
            lemma_account_change_pairs_calls(value@, completed_tool_calls.spec_calls());
        }
    }
    if !value.is_object() {
        return Err(to_owned_string("response.create for account rebase must be a JSON object"));
    }
    if !str_member_is(value, "type", "response.create") {
        return Err(to_owned_string("account rebase only supports type=response.create"));
    }
    let mut members = copy_members(value);
    members_remove(&mut members, "previous_response_id");
    remove_ws_account_affinity_fields(&mut members);
    client_metadata_step(&mut members);
    match member_index(&members, "input") {
        None => {},
        Some(i) => {
            let was_array = members[i].value.as_array().is_some();
            let items = input_items(&members[i].value);
            let (out_items, changed) = match rebase_input_items(&items, completed_tool_calls) {
                Ok(p) => p,
                Err(e) => return Err(e),
            };
            proof {
                lemma_array_view(out_items);
            }
            if changed {
                members_insert(&mut members, "input", JsonValue::Array(out_items));
            } else if !was_array && out_items.len() == 0 {
                members_insert(&mut members, "input", JsonValue::Null);
            }
        },
    }
    proof {
        lemma_object_view(members);
    }
    let mut out = JsonValue::Object(members);
    strip_cross_account_encrypted_content(&mut out);
    Ok(out)
}


/// Whether some item is a tool output of key `k`; the first output without a
/// non-blank call id is an error.
pub open spec fn outputs_have(items: Seq<JsonView>, k: KeyV) -> Result<bool, Seq<char>>
    decreases items.len(),
{
    if items.len() == 0 {
        Ok(false)
    } else {
        match outputs_have(items.drop_last(), k) {
            Err(e) => Err(e),
            Ok(b) => match spec_output_key(items.last()) {
                Err(e) => Err(e),
                Ok(Some(k2)) => Ok(b || k2 == k),
                Ok(None) => Ok(b),
            },
        }
    }
}

/// Recovery after the upstream reported a tool output of key `k` without its
/// call: when the request holds such an output and the call is known (in the
/// input or the completed-call cache), the account-change rewrite, if it
/// changes the request; `None` otherwise.
pub open spec fn spec_missing_tool_call(v: JsonView, cache: Seq<(KeyV, JsonView)>, k: KeyV) -> Result<
    Option<JsonView>,
    Seq<char>,
> {
    match v {
        JsonView::Object(m) => if v.get_str("type"@) != Some("response.create"@) {
            Err("tool context recovery only supports type=response.create"@)
        } else {
            let items = match v.get("input"@) {
                Some(input) => spec_input_items(input),
                None => Seq::empty(),
            };
            match outputs_have(items, k) {
                Err(e) => Err(e),
                Ok(false) => Ok(None),
                Ok(true) => if last_call(items, k) is None && cache_get(cache, k) is None {
                    Ok(None)
                } else {
                    match spec_rebase_account_change(v, cache) {
                        Err(e) => Err(e),
                        Ok(r) => Ok(
                            if r != v {
                                Some(r)
                            } else {
                                None
                            },
                        ),
                    }
                },
            }
        },
        _ => Err("response.create for tool context recovery must be a JSON object"@),
    }
}

fn outputs_have_key(items: &Vec<JsonValue>, key: &WsToolCallKey) -> (r: Result<bool, String>)
    ensures
        match r {
            Ok(b) => outputs_have(views(items@), key_view(*key)) == Ok::<bool, Seq<char>>(b),
            Err(e) => outputs_have(views(items@), key_view(*key)) == Err::<bool, Seq<char>>(e@),
        },
{
    let ghost all = views(items@);
    let mut found = false;
    let mut i: usize = 0;
    proof {
        assert(all.subrange(0, 0) =~= Seq::<JsonView>::empty());
    }
    while i < items.len()
        invariant
            i <= items@.len(),
            all == views(items@),
            outputs_have(all.subrange(0, i as int), key_view(*key)) == Ok::<bool, Seq<char>>(found),
        decreases items.len() - i,
    {
        proof {
            assert(all.subrange(0, i + 1).drop_last() =~= all.subrange(0, i as int));
            assert(all.subrange(0, i + 1).last() == items@[i as int]@);
        }
        match ws_tool_output_key(&items[i]) {
            Err(e) => {
                proof {
                    lemma_outputs_err_sticks(all, key_view(*key), i + 1);
                }
                return Err(e);
            },
            Ok(Some(k)) => {
                if key_eq(&k, key) {
                    found = true;
                }
            },
            Ok(None) => {},
        }
        i = i + 1;
    }
    proof {
        assert(all.subrange(0, items@.len() as int) =~= all);
    }
    Ok(found)
}

proof fn lemma_outputs_err_sticks(all: Seq<JsonView>, k: KeyV, n: int)
    requires
        0 <= n <= all.len(),
        outputs_have(all.subrange(0, n), k) is Err,
    ensures
        outputs_have(all, k) == outputs_have(all.subrange(0, n), k),
    decreases all.len() - n,
{
    if n < all.len() {
        assert(all.subrange(0, n + 1).drop_last() =~= all.subrange(0, n));
        lemma_outputs_err_sticks(all, k, n + 1);
    } else {
        assert(all.subrange(0, n) =~= all);
    }
}

/// Recovers the context of a tool output whose call the upstream could not
/// find (see `spec_missing_tool_call`).
pub fn rebase_response_create_for_missing_tool_call(
    value: &JsonValue,
    completed_tool_calls: &CompletedWsToolCallCache,
    kind: WsToolCallKind,
    call_id: &str,
) -> (r: Result<Option<JsonValue>, String>)
    ensures
        match r {
            Ok(None) => spec_missing_tool_call(
                value@,
                completed_tool_calls.spec_calls(),
                (kind, call_id@),
            ) == Ok::<Option<JsonView>, Seq<char>>(None),
            Ok(Some(v)) => spec_missing_tool_call(
                value@,
                completed_tool_calls.spec_calls(),
                (kind, call_id@),
            ) == Ok::<Option<JsonView>, Seq<char>>(Some(v@)),
            Err(e) => spec_missing_tool_call(
                value@,
                completed_tool_calls.spec_calls(),
                (kind, call_id@),
            ) == Err::<Option<JsonView>, Seq<char>>(e@),
        },
{
    if !value.is_object() {
        return Err(
            to_owned_string("response.create for tool context recovery must be a JSON object"),
        );
    }
    if !str_member_is(value, "type", "response.create") {
        return Err(to_owned_string("tool context recovery only supports type=response.create"));
    }
    let expected = WsToolCallKey { kind, call_id: to_owned_string(call_id) };
    let items = match value.get("input") {
        Some(input) => input_items(input),
        None => {
            let r: Vec<JsonValue> = Vec::new();
            assert(views(r@) =~= Seq::<JsonView>::empty());
            r
        },
    };
    let has_expected_output = match outputs_have_key(&items, &expected) {
        Ok(b) => b,
        Err(e) => return Err(e),
    };
    if !has_expected_output {
        return Ok(None);
    }
    if find_last_call(&items, &expected).is_none() && completed_tool_calls.get(&expected).is_none() {
        return Ok(None);
    }
    let rebased = match rebase_response_create_for_account_change(value, completed_tool_calls) {
        Ok(v) => v,
        Err(e) => return Err(e),
    };
    if crate::json::json_eq(&rebased, value) {
        Ok(None)
    } else {
        Ok(Some(rebased))
    }
}


/// The key of an item that is a tool call.
pub open spec fn call_key_of(item: JsonView) -> Option<KeyV> {
    match spec_normalize_call(item) {
        Some(e) => Some(e.0),
        None => None,
    }
}

/// The key of an item that is a tool output with a call id.
pub open spec fn output_key_of(item: JsonView) -> Option<KeyV> {
    match spec_output_key(item) {
        Ok(Some(k)) => Some(k),
        _ => None,
    }
}

/// Each tool output comes after a tool call of its key.
pub open spec fn outputs_follow_calls(out: Seq<JsonView>) -> bool {
    forall|j: int|
        0 <= j < out.len() && (#[trigger] output_key_of(out[j])) is Some ==> exists|i: int|
            0 <= i < j && call_key_of(out[i]) == output_key_of(out[j])
}

/// No two items are tool calls of the same key.
pub open spec fn calls_unique(out: Seq<JsonView>) -> bool {
    forall|a: int, b: int|
        0 <= a < b < out.len() && (#[trigger] call_key_of(out[a])) is Some ==> call_key_of(out[a])
            != #[trigger] call_key_of(out[b])
}

/// Some item is the tool call of key `k`.
pub open spec fn has_call(out: Seq<JsonView>, k: KeyV) -> bool {
    exists|i: int| 0 <= i < out.len() && call_key_of(out[i]) == Some(k)
}

/// Each emitted key has its call among the items written.
pub open spec fn emitted_covered(emitted: Seq<KeyV>, out: Seq<JsonView>) -> bool {
    forall|a: int| 0 <= a < emitted.len() ==> #[trigger] has_call(out, emitted[a])
}

proof fn lemma_has_call_push(out: Seq<JsonView>, k: KeyV, x: JsonView)
    requires
        has_call(out, k),
    ensures
        has_call(out.push(x), k),
{
    let i = choose|i: int| 0 <= i < out.len() && call_key_of(out[i]) == Some(k);
    assert(out.push(x)[i] == out[i]);
}

pub open spec fn inv_parts(emitted: Seq<KeyV>, out: Seq<JsonView>) -> bool {
    &&& emitted_covered(emitted, out)
    &&& forall|i: int|
        0 <= i < out.len() && (#[trigger] call_key_of(out[i])) is Some ==> emitted.contains(
            call_key_of(out[i])->0,
        )
    &&& outputs_follow_calls(out)
    &&& calls_unique(out)
}

pub open spec fn fold_inv(st: RebaseState) -> bool {
    inv_parts(st.emitted, st.out)
}

proof fn lemma_call_not_output(x: JsonView)
    requires
        call_key_of(x) is Some,
    ensures
        spec_output_key(x) == Ok::<Option<KeyV>, Seq<char>>(None),
{
    reveal_strlit("function_call");
    reveal_strlit("custom_tool_call");
    reveal_strlit("function_call_output");
    reveal_strlit("custom_tool_call_output");
}

proof fn lemma_last_call_normalized(all: Seq<JsonView>, k: KeyV)
    ensures
        last_call(all, k) matches Some(c) ==> spec_normalize_call(c) == Some((k, c)),
    decreases all.len(),
{
    if all.len() > 0 {
        lemma_normalize_call_stable(all.last());
        lemma_last_call_normalized(all.drop_last(), k);
    }
}

proof fn lemma_cache_get_normalized(cache: Seq<(KeyV, JsonView)>, k: KeyV)
    requires
        entries_normalized(cache),
    ensures
        cache_get(cache, k) matches Some(c) ==> spec_normalize_call(c) == Some((k, c)),
{
    lemma_key_index_bounds(cache, k);
    if key_index(cache, k) >= 0 {
        let i = key_index(cache, k);
        assert(spec_normalize_call(cache[i].1) == Some(cache[i]));
    }
}

proof fn lemma_inv_push(emitted: Seq<KeyV>, out: Seq<JsonView>, emitted2: Seq<KeyV>, x: JsonView)
    requires
        inv_parts(emitted, out),
        (call_key_of(x) is None && emitted2 == emitted) || (call_key_of(x) is Some
            && !emitted.contains(call_key_of(x)->0) && emitted2 == emitted.push(call_key_of(x)->0)),
        output_key_of(x) is Some ==> has_call(out, output_key_of(x)->0),
    ensures
        inv_parts(emitted2, out.push(x)),
{
    let out2 = out.push(x);
    let n = out.len() as int;
    assert(out2[n] == x);
    if call_key_of(x) is Some {
        lemma_call_not_output(x);
    }
    assert forall|a: int| 0 <= a < emitted2.len() implies #[trigger] has_call(out2, emitted2[a]) by {
        if a < emitted.len() {
            assert(emitted2[a] == emitted[a]);
            assert(has_call(out, emitted[a]));
            lemma_has_call_push(out, emitted[a], x);
        } else {
            assert(call_key_of(out2[n]) == Some(emitted2[a]));
        }
    }
    assert forall|i: int| 0 <= i < out2.len() && (#[trigger] call_key_of(out2[i])) is Some implies emitted2.contains(call_key_of(out2[i])->0) by {
        let k = call_key_of(out2[i])->0;
        if i < n {
            assert(out2[i] == out[i]);
            assert(emitted.contains(k));
            let a = choose|a: int| 0 <= a < emitted.len() && emitted[a] == k;
            assert(emitted2[a] == emitted[a]);
        } else {
            assert(emitted2[emitted.len() as int] == k);
        }
    }
    assert forall|j: int| 0 <= j < out2.len() && (#[trigger] output_key_of(out2[j])) is Some implies exists|i: int| 0 <= i < j && call_key_of(out2[i]) == output_key_of(out2[j]) by {
        let k = output_key_of(out2[j])->0;
        if j < n {
            assert(out2[j] == out[j]);
            assert(output_key_of(out[j]) is Some);
            let i = choose|i: int| 0 <= i < j && call_key_of(out[i]) == output_key_of(out[j]);
            assert(out2[i] == out[i]);
        } else {
            assert(has_call(out, k));
            let i = choose|i: int| 0 <= i < out.len() && call_key_of(out[i]) == Some(k);
            assert(out2[i] == out[i]);
        }
    }
    assert forall|a: int, b: int| 0 <= a < b < out2.len() && (#[trigger] call_key_of(out2[a])) is Some implies call_key_of(out2[a]) != #[trigger] call_key_of(out2[b]) by {
        assert(out2[a] == out[a]);
        if b < n {
            assert(out2[b] == out[b]);
        } else {
            assert(emitted.contains(call_key_of(out[a])->0));
        }
    }
}

proof fn lemma_contains_has_call(emitted: Seq<KeyV>, out: Seq<JsonView>, k: KeyV)
    requires
        emitted_covered(emitted, out),
        emitted.contains(k),
    ensures
        has_call(out, k),
{
    let a = choose|a: int| 0 <= a < emitted.len() && emitted[a] == k;
    assert(has_call(out, emitted[a]));
}

proof fn lemma_step_inv(all: Seq<JsonView>, cache: Seq<(KeyV, JsonView)>, st: RebaseState, item: JsonView)
    requires
        entries_normalized(cache),
        fold_inv(st),
    ensures
        rebase_step(all, cache, st, item) matches Ok(st2) ==> fold_inv(st2),
{
    lemma_normalize_call_stable(item);
    match spec_normalize_call(item) {
        Some(e) => {
            if !st.emitted.contains(e.0) {
                assert(call_key_of(e.1) == Some(e.0));
                lemma_call_not_output(e.1);
                lemma_inv_push(st.emitted, st.out, st.emitted.push(e.0), e.1);
            }
        },
        None => {
            assert(call_key_of(item) is None);
            match spec_output_key(item) {
                Ok(Some(k)) => {
                    assert(output_key_of(item) == Some(k));
                    if st.emitted.contains(k) {
                        lemma_contains_has_call(st.emitted, st.out, k);
                        lemma_inv_push(st.emitted, st.out, st.emitted, item);
                    } else {
                        lemma_last_call_normalized(all, k);
                        lemma_cache_get_normalized(cache, k);
                        let found = match last_call(all, k) {
                            Some(c) => Some(c),
                            None => cache_get(cache, k),
                        };
                        if let Some(c) = found {
                            assert(call_key_of(c) == Some(k));
                            lemma_call_not_output(c);
                            lemma_inv_push(st.emitted, st.out, st.emitted.push(k), c);
                            let out1 = st.out.push(c);
                            assert(out1[st.out.len() as int] == c);
                            assert(has_call(out1, k));
                            lemma_inv_push(st.emitted.push(k), out1, st.emitted.push(k), item);
                        }
                    }
                },
                Ok(None) => {
                    lemma_inv_push(st.emitted, st.out, st.emitted, item);
                },
                Err(_) => {},
            }
        },
    }
}

proof fn lemma_fold_inv(all: Seq<JsonView>, cache: Seq<(KeyV, JsonView)>, n: nat)
    requires
        entries_normalized(cache),
    ensures
        rebase_fold(all, cache, n) matches Ok(st) ==> fold_inv(st),
    decreases n,
{
    if n > 0 {
        lemma_fold_inv(all, cache, (n - 1) as nat);
        if let Ok(st) = rebase_fold(all, cache, (n - 1) as nat) {
            lemma_step_inv(all, cache, st, all[n - 1]);
        }
    }
}

/// Rewriting a request's input for another account leaves every tool
/// output after a tool call of its key, and each call key once, whatever the
/// input was (given a cache of normalized calls, as the completed-call cache
/// always is).
pub proof fn lemma_rebased_input_pairs_calls(all: Seq<JsonView>, cache: Seq<(KeyV, JsonView)>)
    requires
        entries_normalized(cache),
    ensures
        rebase_fold(all, cache, all.len()) matches Ok(st) ==> outputs_follow_calls(st.out)
            && calls_unique(st.out),
{
    lemma_fold_inv(all, cache, all.len());
}

/// No tool call among the items carries encrypted content.
pub open spec fn calls_plain(items: Seq<JsonView>) -> bool {
    forall|i: int|
        0 <= i < items.len() && (#[trigger] call_key_of(items[i])) is Some ==> !has_encrypted_content(
            items[i],
        )
}

/// No cached tool call carries encrypted content.
pub open spec fn cache_plain(cache: Seq<(KeyV, JsonView)>) -> bool {
    forall|i: int| 0 <= i < cache.len() ==> !has_encrypted_content(#[trigger] cache[i].1)
}

/// The input items that the account-change rewrite works on: those of the
/// request once `previous_response_id` and the affinity fields are gone.
pub open spec fn rebase_source_items(v: JsonView) -> Seq<JsonView> {
    match v {
        JsonView::Object(m0) => match obj_get(
            spec_client_metadata_step(drop_affinity(obj_remove(m0, "previous_response_id"@))),
            "input"@,
        ) {
            Some(input) => spec_input_items(input),
            None => Seq::empty(),
        },
        _ => Seq::empty(),
    }
}

/// The items of a request's `input` (none without one).
pub open spec fn final_input_items(v: JsonView) -> Seq<JsonView> {
    match v.get("input"@) {
        Some(input) => spec_input_items(input),
        None => Seq::empty(),
    }
}

proof fn lemma_normalize_plain(item: JsonView)
    requires
        !has_encrypted_content(item),
        spec_normalize_call(item) is Some,
    ensures
        !has_encrypted_content((spec_normalize_call(item)->0).1),
{
    if let JsonView::Object(m) = item {
        let e = spec_normalize_call(item)->0;
        if e.1 != item {
            reveal_strlit("call_id");
            reveal_strlit("encrypted_content");
            assert("call_id"@.len() != "encrypted_content"@.len());
            lemma_obj_get_push_other(m, "encrypted_content"@, ("call_id"@, JsonView::Str(e.0.1)));
        }
    }
}

proof fn lemma_last_call_plain(items: Seq<JsonView>, k: KeyV)
    requires
        calls_plain(items),
        last_call(items, k) is Some,
    ensures
        !has_encrypted_content(last_call(items, k)->0),
        call_key_of(last_call(items, k)->0) == Some(k),
    decreases items.len(),
{
    let x = items.last();
    assert(items[items.len() - 1] == x);
    match spec_normalize_call(x) {
        Some(e) => if e.0 == k {
            assert(call_key_of(items[items.len() - 1]) is Some);
            lemma_normalize_plain(x);
            lemma_normalize_call_stable(x);
        } else {
            assert(calls_plain(items.drop_last())) by {
                assert forall|i: int| 0 <= i < items.drop_last().len() && (#[trigger] call_key_of(items.drop_last()[i])) is Some
                    implies !has_encrypted_content(items.drop_last()[i]) by {
                    assert(items.drop_last()[i] == items[i]);
                }
            }
            lemma_last_call_plain(items.drop_last(), k);
        },
        None => {
            assert(calls_plain(items.drop_last())) by {
                assert forall|i: int| 0 <= i < items.drop_last().len() && (#[trigger] call_key_of(items.drop_last()[i])) is Some
                    implies !has_encrypted_content(items.drop_last()[i]) by {
                    assert(items.drop_last()[i] == items[i]);
                }
            }
            lemma_last_call_plain(items.drop_last(), k);
        },
    }
}

proof fn lemma_fold_plain(all: Seq<JsonView>, cache: Seq<(KeyV, JsonView)>, n: nat)
    requires
        n <= all.len(),
        calls_plain(all),
        cache_plain(cache),
    ensures
        rebase_fold(all, cache, n) matches Ok(st) ==> calls_plain(st.out),
    decreases n,
{
    if n > 0 {
        lemma_fold_plain(all, cache, (n - 1) as nat);
        if let Ok(st) = rebase_fold(all, cache, (n - 1) as nat) {
            let item = all[n - 1];
            if let Ok(st2) = rebase_step(all, cache, st, item) {
                assert(call_key_of(all[n - 1]) is Some ==> !has_encrypted_content(all[n - 1]));
                match spec_normalize_call(item) {
                    Some(e) => {
                        if !st.emitted.contains(e.0) {
                            lemma_normalize_plain(item);
                            assert forall|i: int| 0 <= i < st2.out.len() && (#[trigger] call_key_of(st2.out[i])) is Some
                                implies !has_encrypted_content(st2.out[i]) by {
                                if i < st.out.len() {
                                    assert(st2.out[i] == st.out[i]);
                                }
                            }
                        }
                    },
                    None => {
                        if let Ok(Some(k)) = spec_output_key(item) {
                            if !st.emitted.contains(k) {
                                let c = match last_call(all, k) {
                                    Some(c) => c,
                                    None => cache_get(cache, k)->0,
                                };
                                if last_call(all, k) is Some {
                                    lemma_last_call_plain(all, k);
                                } else {
                                    lemma_key_index_bounds(cache, k);
                                }
                                assert(!has_encrypted_content(c));
                                assert forall|i: int| 0 <= i < st2.out.len() && (#[trigger] call_key_of(st2.out[i])) is Some
                                    implies !has_encrypted_content(st2.out[i]) by {
                                    if i < st.out.len() {
                                        assert(st2.out[i] == st.out[i]);
                                    } else if i == st.out.len() {
                                        assert(st2.out[i] == c);
                                    } else {
                                        assert(st2.out[i] == item);
                                    }
                                }
                            } else {
                                assert forall|i: int| 0 <= i < st2.out.len() && (#[trigger] call_key_of(st2.out[i])) is Some
                                    implies !has_encrypted_content(st2.out[i]) by {
                                    if i < st.out.len() {
                                        assert(st2.out[i] == st.out[i]);
                                    }
                                }
                            }
                        } else {
                            assert forall|i: int| 0 <= i < st2.out.len() && (#[trigger] call_key_of(st2.out[i])) is Some
                                implies !has_encrypted_content(st2.out[i]) by {
                                if i < st.out.len() {
                                    assert(st2.out[i] == st.out[i]);
                                }
                            }
                        }
                    },
                }
            }
        }
    }
}

proof fn lemma_fold_unchanged(all: Seq<JsonView>, cache: Seq<(KeyV, JsonView)>, n: nat)
    requires
        n <= all.len(),
    ensures
        rebase_fold(all, cache, n) matches Ok(st) ==> (!st.changed ==> st.out == all.subrange(
            0,
            n as int,
        )),
    decreases n,
{
    if n == 0 {
        assert(all.subrange(0, 0) =~= Seq::<JsonView>::empty());
    } else {
        lemma_fold_unchanged(all, cache, (n - 1) as nat);
        assert(all.subrange(0, n as int) =~= all.subrange(0, n - 1).push(all[n - 1]));
    }
}

/// Items of `drop_encrypted(items)` are items of `items`, and every item
/// without encrypted content stays.
proof fn lemma_drop_encrypted_members(items: Seq<JsonView>, x: JsonView)
    ensures
        drop_encrypted(items).contains(x) <==> (items.contains(x) && !has_encrypted_content(x)),
    decreases items.len(),
{
    if items.len() > 0 {
        let t = items.drop_last();
        lemma_drop_encrypted_members(t, x);
        let r = drop_encrypted(t);
        let d = drop_encrypted(items);
        if d.contains(x) {
            let j = choose|j: int| 0 <= j < d.len() && d[j] == x;
            if j < r.len() {
                assert(d[j] == r[j]);
                assert(r.contains(x));
                let k = choose|k: int| 0 <= k < t.len() && t[k] == x;
                assert(items[k] == x);
            } else {
                assert(x == items.last());
                assert(items[items.len() - 1] == x);
            }
        }
        if items.contains(x) && !has_encrypted_content(x) {
            let k = choose|k: int| 0 <= k < items.len() && items[k] == x;
            if k < items.len() - 1 {
                assert(t[k] == x);
                assert(r.contains(x));
                let j = choose|j: int| 0 <= j < r.len() && r[j] == x;
                if !has_encrypted_content(items.last()) {
                    assert(d[j] == x);
                }
            } else {
                assert(d[r.len() as int] == x);
            }
        }
    }
}

proof fn lemma_drop_encrypted_pairs(out: Seq<JsonView>)
    requires
        calls_plain(out),
        outputs_follow_calls(out),
        calls_unique(out),
    ensures
        outputs_follow_calls(drop_encrypted(out)),
        calls_unique(drop_encrypted(out)),
    decreases out.len(),
{
    if out.len() > 0 {
        let t = out.drop_last();
        let x = out.last();
        assert(out[out.len() - 1] == x);
        assert forall|i: int| 0 <= i < t.len() && (#[trigger] call_key_of(t[i])) is Some
            implies !has_encrypted_content(t[i]) by {
            assert(t[i] == out[i]);
        }
        assert forall|j: int| 0 <= j < t.len() && (#[trigger] output_key_of(t[j])) is Some
            implies exists|i: int| 0 <= i < j && call_key_of(t[i]) == output_key_of(t[j]) by {
            assert(t[j] == out[j]);
            let i = choose|i: int| 0 <= i < j && call_key_of(out[i]) == output_key_of(out[j]);
            assert(t[i] == out[i]);
        }
        assert forall|a: int, b: int| 0 <= a < b < t.len() && (#[trigger] call_key_of(t[a])) is Some
            implies call_key_of(t[a]) != #[trigger] call_key_of(t[b]) by {
            assert(t[a] == out[a] && t[b] == out[b]);
        }
        lemma_drop_encrypted_pairs(t);
        let r = drop_encrypted(t);
        let d = drop_encrypted(out);
        if !has_encrypted_content(x) {
            assert(d == r.push(x));
            assert forall|j: int| 0 <= j < d.len() && (#[trigger] output_key_of(d[j])) is Some
                implies exists|i: int| 0 <= i < j && call_key_of(d[i]) == output_key_of(d[j]) by {
                if j < r.len() {
                    assert(d[j] == r[j]);
                    let i = choose|i: int| 0 <= i < j && call_key_of(r[i]) == output_key_of(r[j]);
                    assert(d[i] == r[i]);
                } else {
                    assert(d[j] == x);
                    let n = out.len() - 1;
                    assert(output_key_of(out[n]) is Some);
                    let i = choose|i: int| 0 <= i < n && call_key_of(out[i]) == output_key_of(out[n]);
                    assert(t[i] == out[i]);
                    assert(call_key_of(t[i]) is Some);
                    assert(!has_encrypted_content(t[i]));
                    assert(t.contains(t[i]));
                    lemma_drop_encrypted_members(t, t[i]);
                    let i2 = choose|i2: int| 0 <= i2 < r.len() && r[i2] == t[i];
                    assert(d[i2] == t[i]);
                }
            }
            assert forall|a: int, b: int| 0 <= a < b < d.len() && (#[trigger] call_key_of(d[a])) is Some
                implies call_key_of(d[a]) != #[trigger] call_key_of(d[b]) by {
                if b < r.len() {
                    assert(d[a] == r[a] && d[b] == r[b]);
                } else {
                    assert(d[b] == x);
                    assert(d[a] == r[a]);
                    assert(r.contains(r[a]));
                    lemma_drop_encrypted_members(t, r[a]);
                    let k = choose|k: int| 0 <= k < t.len() && t[k] == r[a];
                    assert(out[k] == r[a]);
                    assert(call_key_of(out[k]) != call_key_of(out[out.len() - 1]));
                }
            }
        } else {
            assert(d == r);
        }
    }
}

/// Rewriting a `response.create` for another account leaves, in the input it
/// sends, every tool output after a tool call of its key, and each call key
/// once, as long as no tool call in the request's input or in the
/// completed-call cache carries encrypted content (such items are dropped).
pub proof fn lemma_account_change_pairs_calls(value: JsonView, cache: Seq<(KeyV, JsonView)>)
    requires
        entries_normalized(cache),
        cache_plain(cache),
        calls_plain(rebase_source_items(value)),
        spec_rebase_account_change(value, cache) is Ok,
    ensures
        outputs_follow_calls(final_input_items(spec_rebase_account_change(value, cache)->Ok_0)),
        calls_unique(final_input_items(spec_rebase_account_change(value, cache)->Ok_0)),
{
    let v = spec_rebase_account_change(value, cache)->Ok_0;
    if let JsonView::Object(m0) = value {
        let m2 = spec_client_metadata_step(drop_affinity(obj_remove(m0, "previous_response_id"@)));
        let m3 = spec_rebase_input(m2, cache)->Ok_0;
        assert(v == spec_strip_encrypted(JsonView::Object(m3)));
        match obj_get(m2, "input"@) {
            None => {
                assert(m3 == m2);
                assert(final_input_items(v) =~= Seq::<JsonView>::empty());
            },
            Some(input) => {
                let items = spec_input_items(input);
                assert(items == rebase_source_items(value));
                let st = rebase_fold(items, cache, items.len())->Ok_0;
                lemma_rebased_input_pairs_calls(items, cache);
                lemma_fold_plain(items, cache, items.len());
                lemma_fold_unchanged(items, cache, items.len());
                assert(items.subrange(0, items.len() as int) =~= items);
                if st.changed {
                    lemma_obj_insert_get(m2, "input"@, JsonView::Array(st.out));
                    lemma_obj_insert_get(m3, "input"@, JsonView::Array(drop_encrypted(st.out)));
                    lemma_drop_encrypted_pairs(st.out);
                } else if !(input is Array) && st.out.len() == 0 {
                    lemma_obj_insert_get(m2, "input"@, JsonView::Null);
                    assert(final_input_items(v) =~= Seq::<JsonView>::empty());
                } else {
                    assert(m3 == m2);
                    assert(st.out == items);
                    if input is Array {
                        lemma_obj_insert_get(m3, "input"@, JsonView::Array(drop_encrypted(items)));
                        lemma_drop_encrypted_pairs(st.out);
                    }
                }
            },
        }
    }
}

/// Every tool output among the items has a non-blank call id, and a tool call
/// of its key among the items or in the completed-call cache.
pub open spec fn outputs_resolvable(items: Seq<JsonView>, cache: Seq<(KeyV, JsonView)>) -> bool {
    &&& forall|i: int| 0 <= i < items.len() ==> (#[trigger] spec_output_key(items[i])) is Ok
    &&& forall|i: int|
        0 <= i < items.len() && (#[trigger] output_key_of(items[i])) is Some ==> (exists|j: int|
            0 <= j < items.len() && call_key_of(items[j]) == output_key_of(items[i])) || cache_get(
            cache,
            output_key_of(items[i])->0,
        ) is Some
}

proof fn lemma_last_call_found(items: Seq<JsonView>, k: KeyV, j: int)
    requires
        0 <= j < items.len(),
        call_key_of(items[j]) == Some(k),
    ensures
        last_call(items, k) is Some,
    decreases items.len(),
{
    let x = items.last();
    match spec_normalize_call(x) {
        Some(e) => if e.0 != k {
            assert(j != items.len() - 1);
            assert(items.drop_last()[j] == items[j]);
            lemma_last_call_found(items.drop_last(), k, j);
        },
        None => {
            assert(j != items.len() - 1);
            assert(items.drop_last()[j] == items[j]);
            lemma_last_call_found(items.drop_last(), k, j);
        },
    }
}

proof fn lemma_fold_ok(all: Seq<JsonView>, cache: Seq<(KeyV, JsonView)>, n: nat)
    requires
        n <= all.len(),
        outputs_resolvable(all, cache),
    ensures
        rebase_fold(all, cache, n) is Ok,
    decreases n,
{
    if n > 0 {
        lemma_fold_ok(all, cache, (n - 1) as nat);
        let st = rebase_fold(all, cache, (n - 1) as nat)->Ok_0;
        let item = all[n - 1];
        assert(spec_output_key(all[n - 1]) is Ok);
        if spec_normalize_call(item) is None {
            if let Ok(Some(k)) = spec_output_key(item) {
                assert(output_key_of(all[n - 1]) == Some(k));
                if exists|j: int| 0 <= j < all.len() && call_key_of(all[j]) == Some(k) {
                    let j = choose|j: int| 0 <= j < all.len() && call_key_of(all[j]) == Some(k);
                    lemma_last_call_found(all, k, j);
                }
            }
        }
    }
}

/// A `response.create` whose tool outputs all have a non-blank call id and a
/// call of their key, in the input or among the completed calls, is always
/// rebased.
pub proof fn lemma_account_change_succeeds(value: JsonView, cache: Seq<(KeyV, JsonView)>)
    requires
        value is Object,
        value.get_str("type"@) == Some("response.create"@),
        outputs_resolvable(rebase_source_items(value), cache),
    ensures
        spec_rebase_account_change(value, cache) is Ok,
{
    let items = rebase_source_items(value);
    lemma_fold_ok(items, cache, items.len());
}

/// No two members share a key (as in JSON that a parser reads into a map).
pub open spec fn keys_distinct(m: Seq<(Seq<char>, JsonView)>) -> bool {
    forall|a: int, b: int| 0 <= a < b < m.len() ==> m[a].0 != m[b].0
}

/// A member that an account switch may keep: not an affinity field, not
/// `previous_response_id`, and, for `client_metadata` holding an object, an
/// object without affinity fields.
pub open spec fn member_clean(x: (Seq<char>, JsonView)) -> bool {
    &&& !is_affinity_key(x.0)
    &&& x.0 != "previous_response_id"@
    &&& (x.0 == "client_metadata"@ ==> match x.1 {
        JsonView::Object(cm) => forall|j: int| 0 <= j < cm.len() ==> !is_affinity_key(#[trigger] cm[j].0),
        _ => true,
    })
}

/// An object none of whose members ties it to an account.
pub open spec fn affinity_free(v: JsonView) -> bool {
    match v {
        JsonView::Object(m) => forall|i: int| 0 <= i < m.len() ==> member_clean(#[trigger] m[i]),
        _ => false,
    }
}

proof fn lemma_affinity_key_shapes()
    ensures
        affinity_keys().len() == 22,
        forall|i: int|
            0 <= i < affinity_keys().len() ==> (#[trigger] affinity_keys()[i]).len() != 5
                && affinity_keys()[i].len() != 20 && (affinity_keys()[i].len() == 15
                ==> affinity_keys()[i][1] == 'o'),
{
    reveal_strlit("session-id");
    reveal_strlit("session_id");
    reveal_strlit("conversation-id");
    reveal_strlit("conversation_id");
    reveal_strlit("thread-id");
    reveal_strlit("thread_id");
    reveal_strlit("client-request-id");
    reveal_strlit("client_request_id");
    reveal_strlit("window-id");
    reveal_strlit("window_id");
    reveal_strlit("turn-state");
    reveal_strlit("turn_state");
    reveal_strlit("parent-thread-id");
    reveal_strlit("parent_thread_id");
    reveal_strlit("turn-metadata");
    reveal_strlit("turn_metadata");
    reveal_strlit("x-client-request-id");
    reveal_strlit("x-codex-conversation-id");
    reveal_strlit("x-codex-window-id");
    reveal_strlit("x-codex-turn-state");
    reveal_strlit("x-codex-parent-thread-id");
    reveal_strlit("x-codex-turn-metadata");
}

proof fn lemma_not_affinity(k: Seq<char>)
    requires
        k.len() == 5 || k.len() == 20 || (k.len() == 15 && k[1] == 'l'),
    ensures
        !is_affinity_key(k),
{
    lemma_affinity_key_shapes();
    if is_affinity_key(k) {
        let i = choose|i: int| 0 <= i < affinity_keys().len() && lower(k) == lower(#[trigger] affinity_keys()[i]);
        let a = affinity_keys()[i];
        assert(lower(k).len() == k.len());
        assert(lower(a).len() == a.len());
        assert(lower(k)[1] == crate::text::lower_char(k[1]));
        assert(lower(a)[1] == crate::text::lower_char(a[1]));
    }
}

proof fn lemma_fixed_keys_clean()
    ensures
        !is_affinity_key("input"@),
        !is_affinity_key("client_metadata"@),
        "input"@ != "previous_response_id"@,
        "input"@ != "client_metadata"@,
        "client_metadata"@ != "previous_response_id"@,
{
    reveal_strlit("input");
    reveal_strlit("client_metadata");
    reveal_strlit("previous_response_id");
    lemma_not_affinity("input"@);
    lemma_not_affinity("client_metadata"@);
    assert("input"@.len() != "previous_response_id"@.len());
    assert("input"@.len() != "client_metadata"@.len());
    assert("client_metadata"@.len() != "previous_response_id"@.len());
}

proof fn lemma_remove_members(m: Seq<(Seq<char>, JsonView)>, k: Seq<char>)
    ensures
        forall|x: (Seq<char>, JsonView)| #[trigger] obj_remove(m, k).contains(x) ==> m.contains(x) && x.0 != k,
        keys_distinct(m) ==> keys_distinct(obj_remove(m, k)),
    decreases m.len(),
{
    if m.len() > 0 {
        let d = m.drop_last();
        lemma_remove_members(d, k);
        let r = obj_remove(d, k);
        assert forall|x: (Seq<char>, JsonView)| #[trigger] obj_remove(m, k).contains(x) implies m.contains(x) && x.0 != k by {
            let j = choose|j: int| 0 <= j < obj_remove(m, k).len() && obj_remove(m, k)[j] == x;
            if j < r.len() {
                assert(r[j] == x);
                assert(r.contains(x));
                let q = choose|q: int| 0 <= q < d.len() && d[q] == x;
                assert(m[q] == x);
            } else {
                assert(m[m.len() - 1] == x);
            }
        }
        if keys_distinct(m) {
            assert(keys_distinct(d)) by {
                assert forall|a: int, b: int| 0 <= a < b < d.len() implies d[a].0 != d[b].0 by {
                    assert(d[a] == m[a] && d[b] == m[b]);
                }
            }
            if m.last().0 != k {
                assert forall|a: int, b: int| 0 <= a < b < obj_remove(m, k).len() implies obj_remove(m, k)[a].0
                    != obj_remove(m, k)[b].0 by {
                    if b == r.len() {
                        assert(obj_remove(m, k)[a] == r[a]);
                        assert(r.contains(r[a]));
                        let q = choose|q: int| 0 <= q < d.len() && d[q] == r[a];
                        assert(m[q] == r[a]);
                        assert(m[m.len() - 1] == m.last());
                    } else {
                        assert(obj_remove(m, k)[a] == r[a] && obj_remove(m, k)[b] == r[b]);
                    }
                }
            }
        }
    }
}

proof fn lemma_drop_affinity_members(m: Seq<(Seq<char>, JsonView)>)
    ensures
        forall|x: (Seq<char>, JsonView)| #[trigger] drop_affinity(m).contains(x) ==> m.contains(x)
            && !is_affinity_key(x.0),
        keys_distinct(m) ==> keys_distinct(drop_affinity(m)),
        forall|j: int| 0 <= j < drop_affinity(m).len() ==> !is_affinity_key(#[trigger] drop_affinity(m)[j].0),
    decreases m.len(),
{
    if m.len() > 0 {
        let d = m.drop_last();
        lemma_drop_affinity_members(d);
        let r = drop_affinity(d);
        let dm = drop_affinity(m);
        assert forall|x: (Seq<char>, JsonView)| #[trigger] dm.contains(x) implies m.contains(x) && !is_affinity_key(x.0) by {
            let j = choose|j: int| 0 <= j < dm.len() && dm[j] == x;
            if j < r.len() {
                assert(r[j] == x);
                assert(r.contains(x));
                let q = choose|q: int| 0 <= q < d.len() && d[q] == x;
                assert(m[q] == x);
            } else {
                assert(m[m.len() - 1] == x);
            }
        }
        assert forall|j: int| 0 <= j < dm.len() implies !is_affinity_key(#[trigger] dm[j].0) by {
            assert(dm.contains(dm[j]));
        }
        if keys_distinct(m) {
            assert(keys_distinct(d)) by {
                assert forall|a: int, b: int| 0 <= a < b < d.len() implies d[a].0 != d[b].0 by {
                    assert(d[a] == m[a] && d[b] == m[b]);
                }
            }
            if !is_affinity_key(m.last().0) {
                assert forall|a: int, b: int| 0 <= a < b < dm.len() implies dm[a].0 != dm[b].0 by {
                    if b == r.len() {
                        assert(dm[a] == r[a]);
                        assert(r.contains(r[a]));
                        let q = choose|q: int| 0 <= q < d.len() && d[q] == r[a];
                        assert(m[q] == r[a]);
                        assert(m[m.len() - 1] == m.last());
                    } else {
                        assert(dm[a] == r[a] && dm[b] == r[b]);
                    }
                }
            }
        }
    }
}

proof fn lemma_insert_input_clean(m: Seq<(Seq<char>, JsonView)>, x: JsonView)
    requires
        forall|j: int| 0 <= j < m.len() ==> member_clean(#[trigger] m[j]),
    ensures
        forall|j: int|
            0 <= j < obj_insert(m, "input"@, x).len() ==> member_clean(#[trigger] obj_insert(m, "input"@, x)[j]),
{
    lemma_fixed_keys_clean();
    lemma_obj_index_below_len(m, "input"@);
    let n = obj_insert(m, "input"@, x);
    assert forall|j: int| 0 <= j < n.len() implies member_clean(#[trigger] n[j]) by {
        if n[j] != ("input"@, x) {
            assert(n[j] == m[j]);
        }
    }
}

proof fn lemma_metadata_step_clean(d: Seq<(Seq<char>, JsonView)>)
    requires
        keys_distinct(d),
        forall|j: int| 0 <= j < d.len() ==> !is_affinity_key(#[trigger] d[j].0) && d[j].0 != "previous_response_id"@,
    ensures
        forall|j: int|
            0 <= j < spec_client_metadata_step(d).len() ==> member_clean(#[trigger] spec_client_metadata_step(d)[j]),
{
    lemma_fixed_keys_clean();
    let cmk = "client_metadata"@;
    lemma_obj_index_below_len(d, cmk);
    let i = obj_index(d, cmk);
    let m2 = spec_client_metadata_step(d);
    if i < 0 {
        assert forall|j: int| 0 <= j < m2.len() implies member_clean(#[trigger] m2[j]) by {
            assert(d[j].0 != cmk);
        }
    } else {
        match d[i].1 {
            JsonView::Object(cm) => {
                let cm2 = drop_affinity(cm);
                lemma_drop_affinity_members(cm);
                if cm2.len() == 0 {
                    assert forall|j: int| 0 <= j < m2.len() implies member_clean(#[trigger] m2[j]) by {
                        if j < i {
                            assert(m2[j] == d[j]);
                            assert(d[j].0 != d[i].0);
                        } else {
                            assert(m2[j] == d[j + 1]);
                            assert(d[i].0 != d[j + 1].0);
                        }
                    }
                } else {
                    assert forall|j: int| 0 <= j < m2.len() implies member_clean(#[trigger] m2[j]) by {
                        if j != i {
                            assert(m2[j] == d[j]);
                            if j < i {
                                assert(d[j].0 != d[i].0);
                            } else {
                                assert(d[i].0 != d[j].0);
                            }
                        }
                    }
                }
            },
            _ => {
                assert forall|j: int| 0 <= j < m2.len() implies member_clean(#[trigger] m2[j]) by {
                    if j != i {
                        if j < i {
                            assert(d[j].0 != d[i].0);
                        } else {
                            assert(d[i].0 != d[j].0);
                        }
                    }
                }
            },
        }
    }
}

/// Rewriting a `response.create` whose members have distinct keys (as JSON
/// read into a map has) leaves no `previous_response_id`, no affinity field
/// at the top level, and none in `client_metadata`.
pub proof fn lemma_account_change_affinity_free(value: JsonView, cache: Seq<(KeyV, JsonView)>)
    requires
        value matches JsonView::Object(m0) && keys_distinct(m0),
        spec_rebase_account_change(value, cache) is Ok,
    ensures
        affinity_free(spec_rebase_account_change(value, cache)->Ok_0),
{
    if let JsonView::Object(m0) = value {
        let prid = "previous_response_id"@;
        let m1 = obj_remove(m0, prid);
        lemma_remove_members(m0, prid);
        let d = drop_affinity(m1);
        lemma_drop_affinity_members(m1);
        assert forall|j: int| 0 <= j < d.len() implies !is_affinity_key(#[trigger] d[j].0) && d[j].0 != prid by {
            assert(d.contains(d[j]));
            assert(m1.contains(d[j]));
        }
        lemma_metadata_step_clean(d);
        let m2 = spec_client_metadata_step(d);
        let m3 = spec_rebase_input(m2, cache)->Ok_0;
        match obj_get(m2, "input"@) {
            None => {},
            Some(input) => {
                let items = spec_input_items(input);
                let st = rebase_fold(items, cache, items.len())->Ok_0;
                if st.changed {
                    lemma_insert_input_clean(m2, JsonView::Array(st.out));
                } else if !(input is Array) && st.out.len() == 0 {
                    lemma_insert_input_clean(m2, JsonView::Null);
                }
            },
        }
        assert(forall|j: int| 0 <= j < m3.len() ==> member_clean(#[trigger] m3[j]));
        match obj_get(m3, "input"@) {
            Some(JsonView::Array(items)) => {
                lemma_insert_input_clean(m3, JsonView::Array(drop_encrypted(items)));
            },
            _ => {},
        }
    }
}

} // verus!
