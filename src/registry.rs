use vstd::prelude::*;

use crate::graph::NodeInput;

verus! {

/// What the registry knows of one node type: the default of each of its inputs.
pub struct NodeType {
    pub type_id: u64,
    pub inputs: Vec<NodeInput>,
}

/// The node-type registry, as handed in by the caller.
pub struct NodeTypeRegistry {
    pub types: Vec<NodeType>,
}

/// Default of input `index` of the first type from position `k` on whose id is `t`.
pub open spec fn lookup_default_from(types: Seq<NodeType>, t: u64, index: int, k: int) -> Option<
    NodeInput,
>
    decreases types.len() - k,
{
    if k < 0 || k >= types.len() {
        None
    } else if types[k].type_id == t {
        if 0 <= index < types[k].inputs@.len() {
            Some(types[k].inputs@[index])
        } else {
            None
        }
    } else {
        lookup_default_from(types, t, index, k + 1)
    }
}

impl NodeTypeRegistry {
    /// The registry's default for input `index` of nodes of type `t`.
    pub open spec fn default_of(&self, t: u64, index: int) -> Option<NodeInput> {
        lookup_default_from(self.types@, t, index, 0)
    }

    /// The default for input `index` of nodes of type `t`, if the type is known and has that input.
    pub fn default_input(&self, t: u64, index: usize) -> (r: Option<NodeInput>)
        ensures
            r == self.default_of(t, index as int),
    {
        let mut k: usize = 0;
        while k < self.types.len()
            invariant
                k <= self.types@.len(),
                lookup_default_from(self.types@, t, index as int, k as int) == self.default_of(
                    t,
                    index as int,
                ),
            decreases self.types@.len() - k,
        {
            if self.types[k].type_id == t {
                if index < self.types[k].inputs.len() {
                    return Some(self.types[k].inputs[index]);
                } else {
                    return None;
                }
            }
            k = k + 1;
        }
        None
    }
}

} // verus!
