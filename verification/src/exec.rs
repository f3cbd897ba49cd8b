//! Running the collected nodes one after another.
use vstd::prelude::*;
use crate::node::Node;

verus! {

/// What to do for one node: announce it, with its description when it has
/// one, and activate it unless the run is dry.
#[derive(Debug)]
pub struct Activation {
    pub description: Option<String>,
    pub execute: bool,
}

/// The activations of `nodes`, in their order: each is announced, and each
/// is activated unless `dry` is set. A failed activation is reported and the
/// run goes on.
pub fn activation_plan(nodes: &Vec<Node>, dry: bool) -> (res: Vec<Activation>)
    ensures
        res.len() == nodes.len(),
        forall|i: int|
            0 <= i < res.len() ==> #[trigger] res@[i].description == nodes@[i].meta.description
                && res@[i].execute == !dry,
{
    let mut res: Vec<Activation> = Vec::new();
    for i in 0..nodes.len()
        invariant
            res.len() == i,
            forall|j: int|
                0 <= j < i ==> #[trigger] res@[j].description == nodes@[j].meta.description
                    && res@[j].execute == !dry,
    {
        let description = match &nodes[i].meta.description {
            Some(d) => Some(d.clone()),
            None => None,
        };
        res.push(Activation { description, execute: !dry });
    }
    res
}

} // verus!
