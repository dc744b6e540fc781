use vstd::prelude::*;
use crate::payload::{Payload, payload_tenant, tenant_of};

verus! {

/// A tenancy restriction: only points whose payload names this tenant pass.
#[derive(Debug)]
pub struct Filter {
    /// The tenant that points must belong to.
    pub tenant_id: String,
}

impl Clone for Filter {
    fn clone(&self) -> (r: Self)
        ensures
            r == *self,
    {
        Filter { tenant_id: self.tenant_id.clone() }
    }
}

impl Filter {
    /// A filter that admits the points of `tenant_id`.
    pub fn new(tenant_id: String) -> (r: Self)
        ensures
            r.tenant_id == tenant_id,
    {
        Filter { tenant_id }
    }

    /// Does `payload` name this filter's tenant under `tenant_id`, as a
    /// keyword or as text? A missing payload, a missing key or a value of
    /// another kind never matches.
    pub fn matches(&self, payload: &Option<Payload>) -> (r: bool)
        ensures
            r == (tenant_of(*payload) == Some(self.tenant_id@)),
    {
        match payload_tenant(payload) {
            Some(t) => *t == self.tenant_id,
            None => false,
        }
    }
}

} // verus!
