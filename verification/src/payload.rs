use vstd::prelude::*;
use vstd::string::StrSliceExecFns;

verus! {

/// The longest text, in characters, that is still filed as a keyword.
pub const KEYWORD_MAX_CHARS: usize = 64;

/// One value of a point's metadata.
#[derive(Debug, PartialEq)]
pub enum PayloadValue {
    /// A short token for exact matches: tags, flags, tenant names.
    Keyword(String),
    /// Longer free text.
    Text(String),
    /// A signed integer: a key, a timestamp, a counter.
    Integer(i64),
    /// A 64-bit IEEE 754 number, held by its bit pattern (`f64::to_bits`).
    Float(u64),
}

impl Clone for PayloadValue {
    fn clone(&self) -> (r: Self)
        ensures
            r == *self,
    {
        match self {
            PayloadValue::Keyword(s) => PayloadValue::Keyword(s.clone()),
            PayloadValue::Text(s) => PayloadValue::Text(s.clone()),
            PayloadValue::Integer(i) => PayloadValue::Integer(*i),
            PayloadValue::Float(b) => PayloadValue::Float(*b),
        }
    }
}

/// The value a string is filed as: a keyword up to `KEYWORD_MAX_CHARS`
/// characters, free text beyond.
pub open spec fn string_value(s: String) -> PayloadValue {
    if s@.len() <= KEYWORD_MAX_CHARS {
        PayloadValue::Keyword(s)
    } else {
        PayloadValue::Text(s)
    }
}

impl PayloadValue {
    /// Files a string as a keyword when it is at most 64 characters long,
    /// and as free text otherwise.
    pub fn from_string(s: String) -> (r: Self)
        ensures
            r == string_value(s),
    {
        if s.as_str().unicode_len() <= KEYWORD_MAX_CHARS {
            PayloadValue::Keyword(s)
        } else {
            PayloadValue::Text(s)
        }
    }
}

/// Schema-less metadata of a point: a map from text keys to values, in a
/// hash map with the rustc-hash hasher.
#[verifier::external_body]
pub struct Payload {
    inner: rustc_hash::FxHashMap<String, PayloadValue>,
}

/// A payload without entries.
pub open spec fn no_entries() -> Map<Seq<char>, PayloadValue> {
    Map::empty()
}

/// The entries that a payload holds, by the text of their keys.
pub uninterp spec fn payload_entries(m: Payload) -> Map<Seq<char>, PayloadValue>;

impl View for Payload {
    type V = Map<Seq<char>, PayloadValue>;

    open spec fn view(&self) -> Map<Seq<char>, PayloadValue> {
        payload_entries(*self)
    }
}

impl Payload {
    /// Calls `FxHashMap::default`. Claimed: the map is empty.
    #[verifier::external_body]
    fn empty() -> (r: Payload)
        ensures
            payload_entries(r) == no_entries(),
    {
        Payload { inner: rustc_hash::FxHashMap::default() }
    }

    /// Calls `HashMap::get` with a text key. Claimed: the value filed under a
    /// key of the same text, if any.
    #[verifier::external_body]
    fn lookup(&self, key: &str) -> (r: Option<&PayloadValue>)
        ensures
            match r {
                Some(v) => payload_entries(*self).contains_key(key@) && *v == payload_entries(*self)[key@],
                None => !payload_entries(*self).contains_key(key@),
            },
    {
        self.inner.get(key)
    }

    /// Calls `HashMap::insert`. Claimed: `value` is filed under the text of
    /// `key`, and what was filed there before is returned.
    #[verifier::external_body]
    fn store(&mut self, key: String, value: PayloadValue) -> (r: Option<PayloadValue>)
        ensures
            payload_entries(*final(self)) == payload_entries(*old(self)).insert(key@, value),
            match r {
                Some(v) => payload_entries(*old(self)).contains_key(key@) && v == payload_entries(*old(self))[key@],
                None => !payload_entries(*old(self)).contains_key(key@),
            },
    {
        self.inner.insert(key, value)
    }

    /// Calls `HashMap::clone`, which clones each key and value (the value by
    /// `PayloadValue::clone`, which keeps it). Claimed: the same entries.
    #[verifier::external_body]
    fn copy(&self) -> (r: Payload)
        ensures
            payload_entries(r) == payload_entries(*self),
    {
        Payload { inner: self.inner.clone() }
    }

    /// Calls `HashMap::iter`, cloning each entry out. Claimed: every entry
    /// once, each key with its value, in the map's order.
    #[verifier::external_body]
    fn entry_list(&self) -> (r: Vec<(String, PayloadValue)>)
        ensures
            forall|i: int|
                0 <= i < r@.len() ==> payload_entries(*self).contains_key((#[trigger] r@[i]).0@)
                    && payload_entries(*self)[r@[i].0@] == r@[i].1,
            forall|k: Seq<char>|
                #[trigger] payload_entries(*self).contains_key(k) ==> exists|i: int|
                    0 <= i < r@.len() && (#[trigger] r@[i]).0@ == k,
            forall|i: int, j: int| 0 <= i < j < r@.len() ==> (#[trigger] r@[i]).0@ != (#[trigger] r@[j]).0@,
    {
        self.inner.iter().map(|(k, v)| (k.clone(), v.clone())).collect()
    }

    /// An empty payload.
    pub fn new() -> (r: Self)
        ensures
            r@ == Map::<Seq<char>, PayloadValue>::empty(),
    {
        Payload::empty()
    }

    /// The value filed under `key`, if any.
    pub fn get(&self, key: &str) -> (r: Option<&PayloadValue>)
        ensures
            match r {
                Some(v) => self@.contains_key(key@) && self@[key@] == *v,
                None => !self@.contains_key(key@),
            },
    {
        self.lookup(key)
    }

    /// Files `value` under `key`, replacing and returning what was filed
    /// there before.
    pub fn insert(&mut self, key: String, value: PayloadValue) -> (r: Option<PayloadValue>)
        ensures
            final(self)@ == old(self)@.insert(key@, value),
            r == (if old(self)@.contains_key(key@) {
                Some(old(self)@[key@])
            } else {
                None
            }),
    {
        self.store(key, value)
    }

    /// The entries of the payload, one per key.
    pub fn entries(&self) -> (r: Vec<(String, PayloadValue)>)
        ensures
            forall|i: int| 0 <= i < r@.len() ==> self@.contains_key((#[trigger] r@[i]).0@) && self@[r@[i].0@] == r@[i].1,
            forall|k: Seq<char>| #[trigger] self@.contains_key(k) ==> exists|i: int| 0 <= i < r@.len() && (#[trigger] r@[i]).0@ == k,
            forall|i: int, j: int| 0 <= i < j < r@.len() ==> (#[trigger] r@[i]).0@ != (#[trigger] r@[j]).0@,
    {
        self.entry_list()
    }
}

/// Copies of payloads hold the same entries.
impl Clone for Payload {
    fn clone(&self) -> (r: Self)
        ensures
            r@ == self@,
    {
        self.copy()
    }
}

/// The tenant that a payload names under the key `tenant_id`, where that
/// value is a keyword or a text.
pub open spec fn tenant_of(payload: Option<Payload>) -> Option<Seq<char>> {
    match payload {
        Some(m) => if m@.contains_key("tenant_id"@) {
            match m@["tenant_id"@] {
                PayloadValue::Keyword(s) => Some(s@),
                PayloadValue::Text(s) => Some(s@),
                _ => None,
            }
        } else {
            None
        },
        None => None,
    }
}

/// The tenant named by an optional payload (see `tenant_of`).
pub fn payload_tenant(payload: &Option<Payload>) -> (r: Option<&String>)
    ensures
        match r {
            Some(s) => tenant_of(*payload) == Some(s@),
            None => tenant_of(*payload) is None,
        },
{
    match payload {
        Some(map) => match map.get("tenant_id") {
            Some(PayloadValue::Keyword(s)) => Some(s),
            Some(PayloadValue::Text(s)) => Some(s),
            _ => None,
        },
        None => None,
    }
}

/// Two optional payloads hold the same entries.
pub open spec fn same_payload(a: Option<Payload>, b: Option<Payload>) -> bool {
    match (a, b) {
        (Some(x), Some(y)) => x@ == y@,
        (None, None) => true,
        _ => false,
    }
}

/// A copy of an optional payload.
pub fn clone_payload(p: &Option<Payload>) -> (r: Option<Payload>)
    ensures
        same_payload(r, *p),
{
    match p {
        Some(x) => Some(x.clone()),
        None => None,
    }
}

} // verus!
