//! Plain data carried between the request layer and the store: keys and
//! values are opaque strings, and the request/response shapes mirror the
//! operations the store exposes.

use vstd::prelude::*;

verus! {

pub type Key = String;

pub type Value = String;

/// A single key together with the value bound to it.
#[derive(Debug)]
pub struct KeyValue {
    pub key: Key,
    pub value: Value,
}

impl Clone for KeyValue {
    fn clone(&self) -> (r: Self)
        ensures
            r == *self,
    {
        KeyValue { key: self.key.clone(), value: self.value.clone() }
    }
}

impl PartialEq for KeyValue {
    fn eq(&self, other: &Self) -> (r: bool) {
        self.key == other.key && self.value == other.value
    }
}

impl vstd::std_specs::cmp::PartialEqSpecImpl for KeyValue {
    open spec fn obeys_eq_spec() -> bool {
        true
    }

    open spec fn eq_spec(&self, other: &Self) -> bool {
        self.key@ == other.key@ && self.value@ == other.value@
    }
}

/// Answer to a read: the key asked for, and its value if it was bound.
#[derive(Debug)]
pub struct GetResponse {
    pub key: Key,
    pub value: Option<Value>,
}

impl Clone for GetResponse {
    fn clone(&self) -> (r: Self)
        ensures
            r == *self,
    {
        GetResponse { key: self.key.clone(), value: clone_opt_value(&self.value) }
    }
}

/// A write request as the request layer hands it over.
#[derive(Debug)]
pub struct PutRequest {
    pub key: Key,
    pub value: Value,
    pub lease: i64,
    pub prev_kv: bool,
    pub ignore_value: bool,
    pub ignore_lease: bool,
}

impl Clone for PutRequest {
    fn clone(&self) -> (r: Self)
        ensures
            r == *self,
    {
        PutRequest {
            key: self.key.clone(),
            value: self.value.clone(),
            lease: self.lease,
            prev_kv: self.prev_kv,
            ignore_value: self.ignore_value,
            ignore_lease: self.ignore_lease,
        }
    }
}

/// Answer to a write: the value the key held just before the write took
/// effect, if any.
#[derive(Debug)]
pub struct PutResponse {
    pub prev_kv: Option<KeyValue>,
}

impl Clone for PutResponse {
    fn clone(&self) -> (r: Self)
        ensures
            r == *self,
    {
        let prev_kv = match &self.prev_kv {
            Some(kv) => Some(kv.clone()),
            None => None,
        };
        PutResponse { prev_kv }
    }
}

fn clone_opt_value(v: &Option<Value>) -> (r: Option<Value>)
    ensures
        r == *v,
{
    match v {
        Some(s) => Some(s.clone()),
        None => None,
    }
}

} // verus!
