//! Storage primitives.

use crate::text::texts;
use vstd::prelude::*;

verus! {

/// The storage kinds of a logic graph.
#[derive(Clone, Copy, Debug, PartialEq, Eq, Structural)]
pub enum SequentialType {
    RsLatch,
    DLatch,
}

/// A storage element with named input and output ports.
#[derive(Clone, Debug)]
pub struct SequentialPrimitive {
    pub sequential_type: SequentialType,
    pub input_ports: Vec<String>,
    pub output_ports: Vec<String>,
}

impl SequentialPrimitive {
    pub fn new(
        sequential_type: SequentialType,
        input_ports: Vec<String>,
        output_ports: Vec<String>,
    ) -> (primitive: Self)
        ensures
            primitive.sequential_type == sequential_type,
            texts(primitive.input_ports@) == texts(input_ports@),
            texts(primitive.output_ports@) == texts(output_ports@),
    {
        SequentialPrimitive { sequential_type, input_ports, output_ports }
    }
}

} // verus!
