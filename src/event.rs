use vstd::prelude::*;

verus! {

/// A caller-supplied point in time.
pub type Timestamp = u64;

#[verifier::external_type_specification]
#[verifier::external_body]
pub struct ExValue(serde_json::Value);

/// Relies on serde_json's derived `Clone` for `Value`: a deep copy equal to the value cloned.
pub assume_specification[ <serde_json::Value as Clone>::clone ](v: &serde_json::Value) -> (r:
    serde_json::Value)
    ensures
        r == *v,
;

/// An immutable event: a type label, a timestamp and an opaque payload.
#[derive(Debug, PartialEq)]
pub struct Event {
    pub event_type: String,
    pub timestamp: Timestamp,
    pub payload: serde_json::Value,
}

impl Clone for Event {
    fn clone(&self) -> (r: Self)
        ensures
            r == *self,
    {
        Event {
            event_type: self.event_type.clone(),
            timestamp: self.timestamp,
            payload: self.payload.clone(),
        }
    }
}

} // verus!
