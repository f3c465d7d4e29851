//! A JSON document model: the values that the gateway reads and rewrites in
//! Responses requests, events and caches.
use vstd::prelude::*;
use crate::text::str_eq;

verus! {

/// A JSON value. Numbers keep their textual form; an object keeps its members
/// in order (the parser gives each key once).
#[derive(Debug)]
pub enum JsonValue {
    Null,
    Bool(bool),
    Number(String),
    Str(String),
    Array(Vec<JsonValue>),
    Object(Vec<JsonMember>),
}

/// One member of a JSON object.
#[derive(Debug)]
pub struct JsonMember {
    pub key: String,
    pub value: JsonValue,
}

/// The mathematical value of a JSON document.
pub enum JsonView {
    Null,
    Bool(bool),
    Number(Seq<char>),
    Str(Seq<char>),
    Array(Seq<JsonView>),
    Object(Seq<(Seq<char>, JsonView)>),
}

impl JsonValue {
    pub open spec fn jv(self) -> JsonView
        decreases self,
    {
        match self {
            JsonValue::Null => JsonView::Null,
            JsonValue::Bool(b) => JsonView::Bool(b),
            JsonValue::Number(n) => JsonView::Number(n@),
            JsonValue::Str(s) => JsonView::Str(s@),
            JsonValue::Array(v) => JsonView::Array(
                Seq::new(
                    v@.len(),
                    |i: int|
                        if 0 <= i < v@.len() {
                            v@[i].jv()
                        } else {
                            JsonView::Null
                        },
                ),
            ),
            JsonValue::Object(v) => JsonView::Object(
                Seq::new(
                    v@.len(),
                    |i: int|
                        if 0 <= i < v@.len() {
                            (v@[i].key@, v@[i].value.jv())
                        } else {
                            (Seq::empty(), JsonView::Null)
                        },
                ),
            ),
        }
    }
}

impl View for JsonValue {
    type V = JsonView;

    open spec fn view(&self) -> JsonView {
        self.jv()
    }
}

/// The views of a sequence of values.
pub open spec fn views(v: Seq<JsonValue>) -> Seq<JsonView> {
    Seq::new(v.len(), |i: int| v[i].jv())
}

/// The views of a sequence of members.
pub open spec fn member_views(v: Seq<JsonMember>) -> Seq<(Seq<char>, JsonView)> {
    Seq::new(v.len(), |i: int| (v[i].key@, v[i].value.jv()))
}

pub proof fn lemma_array_view(v: Vec<JsonValue>)
    ensures
        JsonValue::Array(v)@ == JsonView::Array(views(v@)),
{
    let a = JsonValue::Array(v)@;
    if let JsonView::Array(s) = a {
        assert(s =~= views(v@));
    }
}

pub proof fn lemma_object_view(v: Vec<JsonMember>)
    ensures
        JsonValue::Object(v)@ == JsonView::Object(member_views(v@)),
{
    let a = JsonValue::Object(v)@;
    if let JsonView::Object(s) = a {
        assert(s =~= member_views(v@));
    }
}

/// The value of the first member with the key.
pub open spec fn obj_get(m: Seq<(Seq<char>, JsonView)>, key: Seq<char>) -> Option<JsonView>
    decreases m.len(),
{
    if m.len() == 0 {
        None
    } else if m[0].0 == key {
        Some(m[0].1)
    } else {
        obj_get(m.drop_first(), key)
    }
}

/// Index of the first member with the key, or -1.
pub open spec fn obj_index(m: Seq<(Seq<char>, JsonView)>, key: Seq<char>) -> int
    decreases m.len(),
{
    if m.len() == 0 {
        -1
    } else if m[0].0 == key {
        0
    } else {
        let r = obj_index(m.drop_first(), key);
        if r < 0 {
            -1
        } else {
            r + 1
        }
    }
}

/// The members without those that have the key.
pub open spec fn obj_remove(m: Seq<(Seq<char>, JsonView)>, key: Seq<char>) -> Seq<
    (Seq<char>, JsonView),
>
    decreases m.len(),
{
    if m.len() == 0 {
        m
    } else {
        let r = obj_remove(m.drop_last(), key);
        if m.last().0 == key {
            r
        } else {
            r.push(m.last())
        }
    }
}

/// `insert`: the first member with the key takes the value; without one, the
/// member is appended.
pub open spec fn obj_insert(m: Seq<(Seq<char>, JsonView)>, key: Seq<char>, value: JsonView) -> Seq<
    (Seq<char>, JsonView),
> {
    let i = obj_index(m, key);
    if i >= 0 {
        m.update(i, (key, value))
    } else {
        m.push((key, value))
    }
}

impl JsonView {
    /// `Value::get` with a string key: a member of an object.
    pub open spec fn get(self, key: Seq<char>) -> Option<JsonView> {
        match self {
            JsonView::Object(m) => obj_get(m, key),
            _ => None,
        }
    }

    pub open spec fn as_str(self) -> Option<Seq<char>> {
        match self {
            JsonView::Str(s) => Some(s),
            _ => None,
        }
    }

    /// The string member with the key.
    pub open spec fn get_str(self, key: Seq<char>) -> Option<Seq<char>> {
        match self.get(key) {
            Some(v) => v.as_str(),
            None => None,
        }
    }
}

pub open spec fn opt_view(r: Option<&JsonValue>) -> Option<JsonView> {
    match r {
        Some(v) => Some(v@),
        None => None,
    }
}

proof fn lemma_obj_scan(m: Seq<(Seq<char>, JsonView)>, key: Seq<char>, i: int)
    requires
        0 <= i <= m.len(),
        forall|k: int| 0 <= k < i ==> m[k].0 != key,
    ensures
        i < m.len() && m[i].0 == key ==> obj_get(m, key) == Some(m[i].1) && obj_index(m, key)
            == i,
        i == m.len() ==> obj_get(m, key) is None && obj_index(m, key) == -1,
    decreases i,
{
    if i > 0 {
        lemma_obj_scan(m.drop_first(), key, i - 1);
    }
}

/// Position of the first member with `key`.
pub fn member_index(members: &Vec<JsonMember>, key: &str) -> (r: Option<usize>)
    ensures
        match r {
            Some(i) => i < members@.len() && members@[i as int].key@ == key@ && obj_index(member_views(members@), key@) == i
                && obj_get(member_views(members@), key@) == Some(members@[i as int].value@),
            None => obj_index(member_views(members@), key@) == -1 && obj_get(
                member_views(members@),
                key@,
            ) is None,
        },
{
    let ghost mv = member_views(members@);
    let mut i: usize = 0;
    while i < members.len()
        invariant
            i <= members@.len(),
            mv == member_views(members@),
            forall|k: int| 0 <= k < i ==> mv[k].0 != key@,
        decreases members.len() - i,
    {
        if str_eq(members[i].key.as_str(), key) {
            proof {
                lemma_obj_scan(mv, key@, i as int);
            }
            return Some(i);
        }
        i = i + 1;
    }
    proof {
        lemma_obj_scan(mv, key@, i as int);
    }
    None
}

impl JsonValue {
    /// A deep copy.
    pub fn deep_copy(&self) -> (r: JsonValue)
        ensures
            r@ == self@,
        decreases self,
    {
        match self {
            JsonValue::Null => JsonValue::Null,
            JsonValue::Bool(b) => JsonValue::Bool(*b),
            JsonValue::Number(n) => JsonValue::Number(n.clone()),
            JsonValue::Str(s) => JsonValue::Str(s.clone()),
            JsonValue::Array(v) => {
                let mut out: Vec<JsonValue> = Vec::new();
                let mut i: usize = 0;
                while i < v.len()
                    invariant
                        i <= v@.len(),
                        *self == JsonValue::Array(*v),
                        out@.len() == i,
                        forall|k: int| 0 <= k < i ==> #[trigger] out@[k].jv() == v@[k].jv(),
                    decreases v.len() - i,
                {
                    proof {
                        assert(decreases_to!(*self => (*self)->Array_0));
                        assert(decreases_to!((*self)->Array_0 => (*self)->Array_0@));
                        assert(decreases_to!((*self)->Array_0@ => (*self)->Array_0@[i as int]));
                    }
                    let c = v[i].deep_copy();
                    out.push(c);
                    i = i + 1;
                }
                proof {
                    lemma_array_view(out);
                    lemma_array_view(*v);
                    assert(views(out@) =~= views(v@));
                }
                JsonValue::Array(out)
            },
            JsonValue::Object(v) => {
                let mut out: Vec<JsonMember> = Vec::new();
                let mut i: usize = 0;
                while i < v.len()
                    invariant
                        i <= v@.len(),
                        *self == JsonValue::Object(*v),
                        out@.len() == i,
                        forall|k: int|
                            0 <= k < i ==> #[trigger] out@[k].key@ == v@[k].key@ && out@[k].value@
                                == v@[k].value@,
                    decreases v.len() - i,
                {
                    proof {
                        assert(decreases_to!(*self => (*self)->Object_0));
                        assert(decreases_to!((*self)->Object_0 => (*self)->Object_0@));
                        assert(decreases_to!((*self)->Object_0@ => (*self)->Object_0@[i as int]));
                        assert(decreases_to!((*self)->Object_0@[i as int] => (*self)->Object_0@[i as int].value));
                    }
                    let c = v[i].value.deep_copy();
                    out.push(JsonMember { key: v[i].key.clone(), value: c });
                    i = i + 1;
                }
                proof {
                    lemma_object_view(out);
                    lemma_object_view(*v);
                    assert(member_views(out@) =~= member_views(v@));
                }
                JsonValue::Object(out)
            },
        }
    }

    /// `Value::get`: the member `key` of an object.
    pub fn get(&self, key: &str) -> (r: Option<&JsonValue>)
        ensures
            opt_view(r) == self@.get(key@),
    {
        match self {
            JsonValue::Object(m) => {
                proof {
                    lemma_object_view(*m);
                }
                match member_index(m, key) {
                    Some(i) => Some(&m[i].value),
                    None => None,
                }
            },
            _ => None,
        }
    }

    /// `Value::as_str`.
    pub fn as_str(&self) -> (r: Option<&String>)
        ensures
            match r {
                Some(s) => self@.as_str() == Some(s@),
                None => self@.as_str() is None,
            },
    {
        match self {
            JsonValue::Str(s) => Some(s),
            _ => None,
        }
    }

    /// The string member `key` of an object.
    pub fn get_str(&self, key: &str) -> (r: Option<&String>)
        ensures
            match r {
                Some(s) => self@.get_str(key@) == Some(s@),
                None => self@.get_str(key@) is None,
            },
    {
        match self.get(key) {
            Some(v) => v.as_str(),
            None => None,
        }
    }

    /// `Value::as_array`.
    pub fn as_array(&self) -> (r: Option<&Vec<JsonValue>>)
        ensures
            match r {
                Some(v) => self@ == JsonView::Array(views(v@)),
                None => !(self@ is Array),
            },
    {
        match self {
            JsonValue::Array(v) => {
                proof {
                    lemma_array_view(*v);
                }
                Some(v)
            },
            _ => None,
        }
    }

    pub fn is_object(&self) -> (r: bool)
        ensures
            r == (self@ is Object),
    {
        match self {
            JsonValue::Object(_) => true,
            _ => false,
        }
    }
}

/// `Map::remove` on object members: every member with the key goes.
pub fn members_remove(members: &mut Vec<JsonMember>, key: &str) -> (removed: bool)
    ensures
        member_views(final(members)@) == obj_remove(member_views(old(members)@), key@),
        removed == (obj_index(member_views(old(members)@), key@) >= 0),
{
    let ghost all = members@;
    let ghost mv = member_views(all);
    let mut rest: Vec<JsonMember> = Vec::new();
    std::mem::swap(&mut rest, members);
    let n = rest.len();
    let mut i: usize = 0;
    let mut removed = false;
    while i < n
        invariant
            i <= n,
            n == all.len(),
            mv == member_views(all),
            rest@ == all.subrange(i as int, n as int),
            member_views(members@) == obj_remove(mv.subrange(0, i as int), key@),
            removed == exists|k: int| 0 <= k < i && mv[k].0 == key@,
        decreases n - i,
    {
        let e = rest.remove(0);
        proof {
            assert(mv.subrange(0, i + 1).drop_last() =~= mv.subrange(0, i as int));
            assert(mv.subrange(0, i + 1).last() == mv[i as int]);
            assert(mv[i as int] == (e.key@, e.value@));
            assert(rest@ =~= all.subrange(i + 1, n as int));
        }
        if str_eq(e.key.as_str(), key) {
            removed = true;
        } else {
            let ghost before = members@;
            members.push(e);
            proof {
                assert(member_views(members@) =~= member_views(before).push(mv[i as int]));
            }
        }
        i = i + 1;
    }
    proof {
        assert(mv.subrange(0, n as int) =~= mv);
        if removed {
            let k = choose|k: int| 0 <= k < n && mv[k].0 == key@;
            lemma_index_exists(mv, key@, k);
        } else {
            lemma_obj_scan(mv, key@, n as int);
        }
    }
    removed
}

proof fn lemma_index_exists(m: Seq<(Seq<char>, JsonView)>, key: Seq<char>, k: int)
    requires
        0 <= k < m.len(),
        m[k].0 == key,
    ensures
        obj_index(m, key) >= 0,
    decreases k,
{
    if k > 0 && m[0].0 != key {
        lemma_index_exists(m.drop_first(), key, k - 1);
    }
}

/// `Map::insert` on object members.
pub fn members_insert(members: &mut Vec<JsonMember>, key: &str, value: JsonValue)
    ensures
        member_views(final(members)@) == obj_insert(member_views(old(members)@), key@, value@),
{
    let ghost before = members@;
    match member_index(members, key) {
        Some(i) => {
            let mut tail = members.split_off(i);
            let mut old_member = tail.remove(0);
            old_member.value = value;
            members.push(old_member);
            members.append(&mut tail);
            proof {
                assert(member_views(members@) =~= member_views(before).update(
                    i as int,
                    (key@, value@),
                ));
            }
        },
        None => {
            members.push(JsonMember { key: crate::text::to_owned_string(key), value });
            proof {
                assert(member_views(members@) =~= member_views(before).push((key@, value@)));
            }
        },
    }
}


/// Structural equality of two JSON values.
pub fn json_eq(a: &JsonValue, b: &JsonValue) -> (r: bool)
    ensures
        r == (a@ == b@),
    decreases a,
{
    match a {
        JsonValue::Null => match b {
            JsonValue::Null => true,
            _ => false,
        },
        JsonValue::Bool(x) => match b {
            JsonValue::Bool(y) => *x == *y,
            _ => false,
        },
        JsonValue::Number(x) => match b {
            JsonValue::Number(y) => str_eq(x.as_str(), y.as_str()),
            _ => false,
        },
        JsonValue::Str(x) => match b {
            JsonValue::Str(y) => str_eq(x.as_str(), y.as_str()),
            _ => false,
        },
        JsonValue::Array(x) => match b {
            JsonValue::Array(y) => {
                proof {
                    lemma_array_view(*x);
                    lemma_array_view(*y);
                }
                if x.len() != y.len() {
                    proof {
                        assert(views(x@).len() != views(y@).len());
                    }
                    return false;
                }
                let mut i: usize = 0;
                while i < x.len()
                    invariant
                        i <= x@.len(),
                        x@.len() == y@.len(),
                        *a == JsonValue::Array(*x),
                        a@ == JsonView::Array(views(x@)),
                        b@ == JsonView::Array(views(y@)),
                        forall|k: int| 0 <= k < i ==> #[trigger] views(x@)[k] == views(y@)[k],
                    decreases x.len() - i,
                {
                    proof {
                        assert(decreases_to!(*a => (*a)->Array_0));
                        assert(decreases_to!((*a)->Array_0 => (*a)->Array_0@));
                        assert(decreases_to!((*a)->Array_0@ => (*a)->Array_0@[i as int]));
                    }
                    if !json_eq(&x[i], &y[i]) {
                        proof {
                            assert(views(x@)[i as int] != views(y@)[i as int]);
                        }
                        return false;
                    }
                    i = i + 1;
                }
                proof {
                    assert(views(x@) =~= views(y@));
                }
                true
            },
            _ => false,
        },
        JsonValue::Object(x) => match b {
            JsonValue::Object(y) => {
                proof {
                    lemma_object_view(*x);
                    lemma_object_view(*y);
                }
                if x.len() != y.len() {
                    proof {
                        assert(member_views(x@).len() != member_views(y@).len());
                    }
                    return false;
                }
                let mut i: usize = 0;
                while i < x.len()
                    invariant
                        i <= x@.len(),
                        x@.len() == y@.len(),
                        *a == JsonValue::Object(*x),
                        a@ == JsonView::Object(member_views(x@)),
                        b@ == JsonView::Object(member_views(y@)),
                        forall|k: int|
                            0 <= k < i ==> #[trigger] member_views(x@)[k] == member_views(y@)[k],
                    decreases x.len() - i,
                {
                    proof {
                        assert(decreases_to!(*a => (*a)->Object_0));
                        assert(decreases_to!((*a)->Object_0 => (*a)->Object_0@));
                        assert(decreases_to!((*a)->Object_0@ => (*a)->Object_0@[i as int]));
                        assert(decreases_to!((*a)->Object_0@[i as int] => (*a)->Object_0@[i as int].value));
                    }
                    if !str_eq(x[i].key.as_str(), y[i].key.as_str()) {
                        proof {
                            assert(member_views(x@)[i as int] != member_views(y@)[i as int]);
                        }
                        return false;
                    }
                    if !json_eq(&x[i].value, &y[i].value) {
                        proof {
                            assert(member_views(x@)[i as int] != member_views(y@)[i as int]);
                        }
                        return false;
                    }
                    i = i + 1;
                }
                proof {
                    assert(member_views(x@) =~= member_views(y@));
                }
                true
            },
            _ => false,
        },
    }
}

/// Appending a member leaves the lookup of a key already present unchanged.
pub proof fn lemma_obj_get_push_present(m: Seq<(Seq<char>, JsonView)>, key: Seq<char>, x: (Seq<char>, JsonView))
    requires
        obj_get(m, key) is Some,
    ensures
        obj_get(m.push(x), key) == obj_get(m, key),
        obj_index(m.push(x), key) == obj_index(m, key),
    decreases m.len(),
{
    if m[0].0 != key {
        lemma_obj_get_push_present(m.drop_first(), key, x);
        assert(m.push(x).drop_first() =~= m.drop_first().push(x));
    }
}

/// Appending a member with a key not yet present makes it that key's value.
pub proof fn lemma_obj_get_push_absent(m: Seq<(Seq<char>, JsonView)>, key: Seq<char>, v: JsonView)
    requires
        obj_get(m, key) is None,
    ensures
        obj_get(m.push((key, v)), key) == Some(v),
    decreases m.len(),
{
    if m.len() > 0 {
        lemma_obj_get_push_absent(m.drop_first(), key, v);
        assert(m.push((key, v)).drop_first() =~= m.drop_first().push((key, v)));
    }
}

/// Appending a member under another key leaves the lookup of a key as it was.
pub proof fn lemma_obj_get_push_other(m: Seq<(Seq<char>, JsonView)>, key: Seq<char>, x: (Seq<char>, JsonView))
    requires
        x.0 != key,
    ensures
        obj_get(m.push(x), key) == obj_get(m, key),
    decreases m.len(),
{
    if m.len() > 0 {
        lemma_obj_get_push_other(m.drop_first(), key, x);
        assert(m.push(x).drop_first() =~= m.drop_first().push(x));
    } else {
        assert(m.push(x).drop_first() =~= m);
    }
}

/// `obj_index` is -1, when no member has the key, or the position of a
/// member with it.
pub proof fn lemma_obj_index_below_len(m: Seq<(Seq<char>, JsonView)>, key: Seq<char>)
    ensures
        -1 <= obj_index(m, key) < m.len(),
        obj_index(m, key) >= 0 ==> m[obj_index(m, key)].0 == key,
        obj_index(m, key) < 0 ==> forall|j: int| 0 <= j < m.len() ==> m[j].0 != key,
    decreases m.len(),
{
    if m.len() > 0 && m[0].0 != key {
        lemma_obj_index_below_len(m.drop_first(), key);
        assert forall|j: int| 1 <= j < m.len() implies m[j] == m.drop_first()[j - 1] by {}
    }
}

/// After `obj_insert`, the key's value is the inserted one.
pub proof fn lemma_obj_insert_get(m: Seq<(Seq<char>, JsonView)>, key: Seq<char>, v: JsonView)
    ensures
        obj_get(obj_insert(m, key, v), key) == Some(v),
    decreases m.len(),
{
    if m.len() == 0 {
        assert(obj_insert(m, key, v) =~= seq![(key, v)]);
    } else if m[0].0 == key {
        assert(obj_insert(m, key, v)[0] == (key, v));
    } else {
        let t = m.drop_first();
        lemma_obj_insert_get(t, key, v);
        let r = obj_index(t, key);
        lemma_obj_index_below_len(t, key);
        if r >= 0 {
            assert(obj_index(m, key) == r + 1);
            assert(obj_insert(m, key, v) == m.update(r + 1, (key, v)));
            assert(obj_insert(m, key, v).drop_first() =~= obj_insert(t, key, v));
            assert(obj_insert(m, key, v)[0] == m[0]);
        } else {
            assert(obj_index(m, key) == -1);
            assert(obj_insert(m, key, v) == m.push((key, v)));
            assert(obj_insert(t, key, v) == t.push((key, v)));
            assert(obj_insert(m, key, v).drop_first() =~= obj_insert(t, key, v));
            assert(obj_insert(m, key, v)[0] == m[0]);
        }
    }
}

} // verus!
