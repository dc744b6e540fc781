use vstd::prelude::*;
use crate::filter::Filter;
use crate::payload::{Payload, PayloadValue, tenant_of};

verus! {

/// An entity of the store: its identifier, its embedding (of a type chosen
/// by the caller) and optional metadata.
pub struct Point<V> {
    /// Unique identifier of the point.
    pub id: u64,
    /// The embedding of the point.
    pub vector: V,
    /// Optional metadata, read by tenant filters.
    pub payload: Option<Payload>,
}

/// The tombstone slot of a point identifier.
pub open spec fn slot(id: u64) -> int {
    (id as usize) as int
}

/// Is the tombstone of `id` set in `deleted`?
pub open spec fn tombstoned(deleted: Seq<bool>, id: u64) -> bool {
    slot(id) < deleted.len() && deleted[slot(id)]
}

/// Does the optional filter admit a point with this payload?
pub open spec fn filter_admits(filter: Option<&Filter>, payload: Option<Payload>) -> bool {
    match filter {
        Some(f) => tenant_of(payload) == Some(f.tenant_id@),
        None => true,
    }
}

/// Does `payload` hold, under the key `tenant_id`, the text `t` as a keyword
/// or as free text?
pub open spec fn names_tenant(payload: Option<Payload>, t: Seq<char>) -> bool {
    exists|s: String|
        #![trigger s@]
        s@ == t && payload is Some && payload->0@.contains_key("tenant_id"@) && (payload->0@["tenant_id"@]
            == PayloadValue::Keyword(s) || payload->0@["tenant_id"@] == PayloadValue::Text(s))
}

/// A filter for tenant `t` admits exactly the payloads that name `t` under
/// `tenant_id` (as a keyword or as text): a missing payload, a payload
/// without that key, or one holding another text or another kind of value
/// there is never admitted. No filter admits every payload.
pub proof fn law_filter_admits_named_tenant(f: &Filter, payload: Option<Payload>)
    ensures
        filter_admits(Some(f), payload) <==> names_tenant(payload, f.tenant_id@),
        tenant_of(payload) == Some(f.tenant_id@) <==> names_tenant(payload, f.tenant_id@),
        filter_admits(None, payload),
{
    if tenant_of(payload) == Some(f.tenant_id@) {
        let m = payload->0;
        match m@["tenant_id"@] {
            PayloadValue::Keyword(s) => {
                assert(s@ == f.tenant_id@);
            },
            PayloadValue::Text(s) => {
                assert(s@ == f.tenant_id@);
            },
            _ => {},
        }
    }
    if names_tenant(payload, f.tenant_id@) {
        let s = choose|s: String|
            #![trigger s@]
            s@ == f.tenant_id@ && payload is Some && payload->0@.contains_key("tenant_id"@) && (payload->0@["tenant_id"@]
                == PayloadValue::Keyword(s) || payload->0@["tenant_id"@] == PayloadValue::Text(s));
        assert(tenant_of(payload) == Some(s@));
    }
}

/// Is `id` a point that a search may report: stored, not tombstoned, and
/// admitted by the filter?
pub open spec fn admitted<V>(
    points: Map<u64, Point<V>>,
    filter: Option<&Filter>,
    deleted: Seq<bool>,
    id: u64,
) -> bool {
    &&& points.contains_key(id)
    &&& !tombstoned(deleted, id)
    &&& filter_admits(filter, points[id].payload)
}

/// Does an exact scan report the point stored under key `k`: is it not
/// tombstoned under its own identifier, and admitted by the filter? For a
/// point filed under its own identifier this is `admitted`.
pub open spec fn reportable<V>(
    points: Map<u64, Point<V>>,
    filter: Option<&Filter>,
    deleted: Seq<bool>,
    k: u64,
) -> bool {
    &&& points.contains_key(k)
    &&& !tombstoned(deleted, points[k].id)
    &&& filter_admits(filter, points[k].payload)
}

/// Is the tombstone of `id` set? Reads `deleted_bits` at the slot of `id`.
pub fn is_tombstoned(deleted_bits: &Vec<bool>, id: u64) -> (r: bool)
    ensures
        r == tombstoned(deleted_bits@, id),
{
    let idx = id as usize;
    idx < deleted_bits.len() && deleted_bits[idx]
}

/// Does the optional filter admit a point with this payload?
pub fn passes_filter(filter: Option<&Filter>, payload: &Option<Payload>) -> (r: bool)
    ensures
        r == filter_admits(filter, *payload),
{
    match filter {
        Some(f) => f.matches(payload),
        None => true,
    }
}

/// A distance (or score) function on embeddings: callable on every
/// embedding, and giving one answer for each.
pub open spec fn is_measure<V, R, F: Fn(&V) -> R>(f: F) -> bool {
    &&& forall|v: &V| #[trigger] f.requires((v,))
    &&& forall|v: &V, a: R, b: R| #[trigger] f.ensures((v,), a) && #[trigger] f.ensures((v,), b) ==> a == b
}

/// The value the measure `f` gives to `v`.
pub open spec fn measure<V, R, F: Fn(&V) -> R>(f: F, v: &V) -> R {
    choose|k: R| f.ensures((v,), k)
}

/// Calls the measure and ties its result to `measure`.
pub fn apply_measure<V, R, F: Fn(&V) -> R>(f: &F, v: &V) -> (r: R)
    requires
        is_measure::<V, R, F>(*f),
    ensures
        r == measure::<V, R, F>(*f, v),
{
    let r = f(v);
    assert(f.ensures((v,), r));
    r
}

} // verus!
