//! The gateway in front of the nodes: reads go to the nodes in turn,
//! writes to the leader it knows; a node's answer that names another
//! leader makes it learn that leader and try again there, and a failed
//! request is tried again after a short pause, three tries in all.
use vstd::prelude::*;
use vstd::string::StrSliceExecFns;
use vstd::string::StringExecFns;
use crate::keypair::str_chars;

verus! {

/// The gateway's state: the nodes, the leader it knows and the position
/// of the next read.
pub struct ProxyState {
    pub nodes: Vec<String>,
    pub current_leader: String,
    pub rr_index: usize,
}

/// What the gateway does next.
pub enum ProxyStep {
    /// Sends the request (again) to `target`, after a short pause when
    /// `pause` is set; `attempt` counts from 0.
    Send { target: String, attempt: u32, pause: bool },
    /// Answers with the node's status and body.
    Reply { status: u16 },
    /// Answers that no node could serve the request.
    Unavailable,
}

/// The number of tries.
pub const MAX_ATTEMPTS: u32 = 3;

/// `needle` occurs in `hay`.
pub open spec fn text_contains(hay: Seq<char>, needle: Seq<char>) -> bool {
    exists|i: int| 0 <= i && i + needle.len() <= hay.len() && #[trigger] hay.subrange(i, i + needle.len()) == needle
}

/// Whether `needle` occurs in `hay`.
pub fn contains_text(hay: &str, needle: &str) -> (r: bool)
    ensures
        r == text_contains(hay@, needle@),
{
    let h = str_chars(hay);
    let n = str_chars(needle);
    if n.len() > h.len() {
        return false;
    }
    let mut i: usize = 0;
    while i <= h.len() - n.len()
        invariant
            h@ == hay@,
            n@ == needle@,
            n@.len() <= h@.len(),
            i <= h@.len() - n@.len() + 1,
            forall|t: int| 0 <= t < i ==> #[trigger] h@.subrange(t, t + n@.len()) != n@,
        decreases h.len() - n.len() + 1 - i,
    {
        let mut j: usize = 0;
        while j < n.len()
            invariant
                j <= n@.len(),
                i + n@.len() <= h@.len(),
                h@.len() == h.len(),
                forall|t: int| 0 <= t < j ==> h@[i + t] == n@[t],
            ensures
                j <= n@.len(),
                forall|t: int| 0 <= t < j ==> h@[i + t] == n@[t],
                j < n@.len() ==> h@[i + j] != n@[j as int],
            decreases n.len() - j,
        {
            if h[i + j] != n[j] {
                break;
            }
            j = j + 1;
        }
        if j == n.len() {
            assert(h@.subrange(i as int, i + n@.len()) =~= n@);
            return true;
        }
        assert(h@.subrange(i as int, i + n@.len())[j as int] != n@[j as int]);
        i = i + 1;
    }
    proof {
        assert forall|t: int| 0 <= t && t + needle@.len() <= hay@.len() implies #[trigger] hay@.subrange(t, t + needle@.len()) != needle@ by {
            assert(t < i);
        }
    }
    false
}

/// A path served from any node: a scan, a page or a read.
pub open spec fn read_only_path(path: Seq<char>) -> bool {
    text_contains(path, "/kv/scan"@) || text_contains(path, "/kv/page"@) || text_contains(path, "/kv/get"@)
}

/// Whether the path is served from any node.
pub fn is_read_only_path(path: &str) -> (r: bool)
    ensures
        r == read_only_path(path@),
{
    contains_text(path, "/kv/scan") || contains_text(path, "/kv/page") || contains_text(path, "/kv/get")
}

/// A request that must go to the leader: not a `GET`, and not on a path
/// any node serves.
pub open spec fn is_write(method_is_get: bool, path: Seq<char>) -> bool {
    !method_is_get && !read_only_path(path)
}

/// A JSON value as plain values: a number is kept as its text, an object
/// as its fields in order.
#[derive(Debug)]
pub enum JsonValue {
    Null,
    Bool(bool),
    Number(String),
    Str(String),
    Array(Vec<JsonValue>),
    Object(Vec<(String, JsonValue)>),
}

/// The value of the first field named `key`, if any.
pub open spec fn field_of(fields: Seq<(String, JsonValue)>, key: Seq<char>) -> Option<JsonValue>
    decreases fields.len(),
{
    if fields.len() == 0 {
        None
    } else if fields[0].0@ == key {
        Some(fields[0].1)
    } else {
        field_of(fields.drop_first(), key)
    }
}

/// The member `key` of a JSON object; nothing for any other value.
pub open spec fn json_get(v: JsonValue, key: Seq<char>) -> Option<JsonValue> {
    match v {
        JsonValue::Object(fields) => field_of(fields@, key),
        _ => None,
    }
}

/// What a node's answer says of the leader: `leader_node.addr`, when it
/// is there, and its text when it is text.
pub open spec fn leader_addr(reply: JsonValue) -> Option<Option<Seq<char>>> {
    match json_get(reply, "leader_node"@) {
        None => None,
        Some(info) => match json_get(info, "addr"@) {
            None => None,
            Some(JsonValue::Str(a)) => Some(Some(a@)),
            Some(_) => Some(None),
        },
    }
}

/// Fields that are not named `key` do not decide what `field_of` finds.
proof fn lemma_field_of_skip(fields: Seq<(String, JsonValue)>, key: Seq<char>, i: int)
    requires
        0 <= i <= fields.len(),
        forall|j: int| 0 <= j < i ==> (#[trigger] fields[j]).0@ != key,
    ensures
        field_of(fields, key) == field_of(fields.skip(i), key),
    decreases i,
{
    if i > 0 {
        lemma_field_of_skip(fields.drop_first(), key, i - 1);
        assert(fields.drop_first().skip(i - 1) =~= fields.skip(i));
        assert(fields[0].0@ != key);
    } else {
        assert(fields.skip(0) =~= fields);
    }
}

/// The member `key` of a JSON object.
pub fn json_member<'a>(v: &'a JsonValue, key: &str) -> (r: Option<&'a JsonValue>)
    ensures
        match json_get(*v, key@) {
            None => r is None,
            Some(m) => r is Some && *r->Some_0 == m,
        },
{
    match v {
        JsonValue::Object(fields) => {
            assert(json_get(*v, key@) == field_of(fields@, key@));
            let k = String::from_str(key);
            let mut i: usize = 0;
            while i < fields.len()
                invariant
                    i <= fields@.len(),
                    k@ == key@,
                    json_get(*v, key@) == field_of(fields@, key@),
                    forall|j: int| 0 <= j < i ==> (#[trigger] fields@[j]).0@ != key@,
                decreases fields.len() - i,
            {
                if fields[i].0 == k {
                    proof {
                        lemma_field_of_skip(fields@, key@, i as int);
                        let rest = fields@.skip(i as int);
                        assert(rest[0] == fields@[i as int]);
                        assert(rest.len() > 0);
                        assert(rest[0].0@ == key@);
                        assert(field_of(rest, key@) == Some(rest[0].1));
                    }
                    return Some(&fields[i].1);
                }
                i = i + 1;
            }
            proof {
                lemma_field_of_skip(fields@, key@, i as int);
                assert(fields@.skip(i as int).len() == 0);
            }
            None
        },
        _ => None,
    }
}

/// Reads `leader_node.addr` from a node's answer: nothing when it is
/// absent, `Some(None)` when it is not text.
pub fn leader_hint(reply: &JsonValue) -> (r: Option<Option<String>>)
    ensures
        match leader_addr(*reply) {
            None => r is None,
            Some(None) => r == Some(None::<String>),
            Some(Some(a)) => r is Some && r->Some_0 is Some && r->Some_0->Some_0@ == a,
        },
{
    proof {
        reveal_strlit("leader_node");
        reveal_strlit("addr");
    }
    match json_member(reply, "leader_node") {
        None => None,
        Some(info) => match json_member(info, "addr") {
            None => None,
            Some(JsonValue::Str(a)) => Some(Some(String::from_str(a.as_str()))),
            Some(_) => Some(None),
        },
    }
}

impl ProxyState {
    /// Where a request goes first: a write to the known leader, a read to
    /// the next node in turn.
    pub fn pick_target(&mut self, method_is_get: bool, path: &str) -> (r: String)
        requires
            old(self).nodes@.len() > 0,
        ensures
            final(self).nodes@ == old(self).nodes@,
            final(self).current_leader@ == old(self).current_leader@,
            is_write(method_is_get, path@) ==> r@ == old(self).current_leader@ && final(self).rr_index == old(self).rr_index,
            !is_write(method_is_get, path@) ==> {
                &&& r@ == old(self).nodes@[(old(self).rr_index as int) % (old(self).nodes@.len() as int)]@
                &&& final(self).rr_index == (if old(self).rr_index == usize::MAX { 0 } else { old(self).rr_index + 1 })
            },
    {
        let read_only = is_read_only_path(path);
        if !method_is_get && !read_only {
            return String::from_str(self.current_leader.as_str());
        }
        let idx = self.rr_index % self.nodes.len();
        self.rr_index = if self.rr_index == usize::MAX {
            0
        } else {
            self.rr_index + 1
        };
        String::from_str(self.nodes[idx].as_str())
    }

    /// After a node answered try `attempt`: an answer naming a leader
    /// (`hint`) makes the gateway learn `http://` and that address and try
    /// again there (while tries are left); any other answer is passed on.
    pub fn after_response(&mut self, attempt: u32, status: u16, hint: Option<String>) -> (r: ProxyStep)
        requires
            attempt < MAX_ATTEMPTS,
        ensures
            final(self).nodes@ == old(self).nodes@,
            final(self).rr_index == old(self).rr_index,
            hint is None ==> final(self).current_leader@ == old(self).current_leader@ && r == (ProxyStep::Reply { status }),
            hint is Some ==> {
                &&& final(self).current_leader@ == "http://"@ + hint->Some_0@
                &&& attempt + 1 < MAX_ATTEMPTS ==> (r matches ProxyStep::Send { target, attempt: a, pause } && target@
                    == final(self).current_leader@ && a == attempt + 1 && !pause)
                &&& attempt + 1 >= MAX_ATTEMPTS ==> r is Unavailable
            },
    {
        match hint {
            None => ProxyStep::Reply { status },
            Some(addr) => {
                let mut leader = String::from_str("http://");
                leader.append(addr.as_str());
                self.current_leader = leader;
                if attempt + 1 < MAX_ATTEMPTS {
                    ProxyStep::Send { target: String::from_str(self.current_leader.as_str()), attempt: attempt + 1, pause: false }
                } else {
                    ProxyStep::Unavailable
                }
            },
        }
    }

    /// After a node answered try `attempt` with this reply (read as JSON;
    /// a reply that is not JSON reads as `Null`).  `None` when the reply
    /// names a leader whose address is not text, an answer the gateway
    /// cannot read.
    pub fn inspect_response(&mut self, attempt: u32, status: u16, reply: &JsonValue) -> (r: Option<ProxyStep>)
        requires
            attempt < MAX_ATTEMPTS,
        ensures
            leader_addr(*reply) == Some(None::<Seq<char>>) ==> r is None && *final(self) == *old(self),
            leader_addr(*reply) is None ==> r == Some(ProxyStep::Reply { status }) && *final(self) == *old(self),
            leader_addr(*reply) matches Some(Some(a)) ==> {
                &&& final(self).nodes@ == old(self).nodes@
                &&& final(self).rr_index == old(self).rr_index
                &&& final(self).current_leader@ == "http://"@ + a
                &&& attempt + 1 < MAX_ATTEMPTS ==> (r matches Some(ProxyStep::Send { target, attempt: n, pause }) && target@
                    == final(self).current_leader@ && n == attempt + 1 && !pause)
                &&& attempt + 1 >= MAX_ATTEMPTS ==> r matches Some(ProxyStep::Unavailable)
            },
    {
        match leader_hint(reply) {
            None => Some(ProxyStep::Reply { status }),
            Some(None) => None,
            Some(Some(addr)) => Some(self.after_response(attempt, status, Some(addr))),
        }
    }
}

/// After try `attempt` failed to reach `target`: try again after a short
/// pause while tries are left.
pub fn after_failure(target: &String, attempt: u32) -> (r: ProxyStep)
    requires
        attempt < MAX_ATTEMPTS,
    ensures
        attempt + 1 < MAX_ATTEMPTS ==> (r matches ProxyStep::Send { target: t, attempt: a, pause } && t@ == target@ && a
            == attempt + 1 && pause),
        attempt + 1 >= MAX_ATTEMPTS ==> r is Unavailable,
{
    if attempt + 1 < MAX_ATTEMPTS {
        ProxyStep::Send { target: String::from_str(target.as_str()), attempt: attempt + 1, pause: true }
    } else {
        ProxyStep::Unavailable
    }
}

} // verus!
