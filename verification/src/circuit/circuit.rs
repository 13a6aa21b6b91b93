use vstd::prelude::*;
use crate::circuit::{Connection, Instance};
use crate::text::string_from;

verus! {

/// A circuit: instances of blocks and the nets their pins are tied to.
#[derive(Debug, Clone, PartialEq, Eq)]
pub struct Circuit {
    pub name: String,
    pub instances: Vec<Instance>,
    pub connections: Vec<Connection>,
}

impl Circuit {
    /// An empty circuit.
    pub fn new(name: &str) -> (r: Self)
        ensures
            r.name@ == name@,
            r.instances@ == Seq::<Instance>::empty(),
            r.connections@ == Seq::<Connection>::empty(),
    {
        Circuit { name: string_from(name), instances: Vec::new(), connections: Vec::new() }
    }

    /// Adds an instance after the others.
    pub fn add_instance(&mut self, instance: Instance)
        ensures
            final(self).name == old(self).name,
            final(self).instances@ == old(self).instances@.push(instance),
            final(self).connections@ == old(self).connections@,
    {
        self.instances.push(instance);
    }

    /// Adds a connection after the others.
    pub fn connect(&mut self, connection: Connection)
        ensures
            final(self).name == old(self).name,
            final(self).instances@ == old(self).instances@,
            final(self).connections@ == old(self).connections@.push(connection),
    {
        self.connections.push(connection);
    }
}

} // verus!
