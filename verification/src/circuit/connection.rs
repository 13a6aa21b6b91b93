use vstd::prelude::*;
use crate::text::string_from;

verus! {

/// A pin of an instance.
#[derive(Debug, Clone, PartialEq, Eq)]
pub struct PinRef {
    pub instance: String,
    pub pin: String,
}

impl PinRef {
    pub fn new(instance: &str, pin: &str) -> (r: Self)
        ensures
            r.instance@ == instance@,
            r.pin@ == pin@,
    {
        PinRef { instance: string_from(instance), pin: string_from(pin) }
    }
}

/// A pin tied to a net.
#[derive(Debug, Clone, PartialEq, Eq)]
pub struct Connection {
    pub from: PinRef,
    pub net: String,
}

impl Connection {
    pub fn new(from: PinRef, net: &str) -> (r: Self)
        ensures
            r.from == from,
            r.net@ == net@,
    {
        Connection { from, net: string_from(net) }
    }
}

} // verus!
