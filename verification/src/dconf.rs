//! Dconf nodes that keep the key whole and split it when they run.
use vstd::prelude::*;
use vstd::string::*;
use crate::gsettings::{DconfFields, is_absolute, key_components, set_args_spec, split_key};
use crate::node::{ExecError, Node, NodeKind, NodeMetadata, list_or_empty};
use crate::text::{join, join_spec, views};

verus! {

broadcast use vstd::string::group_string_axioms;

/// Sets the dconf `key`, an absolute path, to `value`.
#[derive(Debug)]
pub struct DconfNode {
    pub key: String,
    pub value: String,
}

impl DconfNode {
    /// The arguments of the `gsettings` call that activates this node: the
    /// key's path split into schema and key name.
    pub fn set_args(&self) -> (res: Vec<String>)
        requires
            is_absolute(self.key@),
        ensures
            views(res@) == set_args_spec(
                key_components(self.key@).drop_last(),
                key_components(self.key@).last(),
                self.value@,
            ),
            res.len() == 4,
            res@[0]@ == "set"@,
            res@[1]@ == join_spec(key_components(self.key@).drop_last(), "."@),
            res@[2]@ == key_components(self.key@).last(),
            res@[3]@ == self.value@,
    {
        let (schema, key) = split_key(self.key.as_str());
        let mut res: Vec<String> = Vec::new();
        res.push(String::from_str("set"));
        res.push(join(&schema, "."));
        res.push(key);
        res.push(self.value.clone());
        assert(views(res@) =~= set_args_spec(views(schema@), key@, self.value@));
        res
    }

    /// The result of the `gsettings` call, given whether it exited
    /// successfully.
    pub fn outcome(&self, success: bool) -> (res: Result<(), ExecError>)
        ensures
            success ==> res is Ok,
            !success ==> res == Err::<(), ExecError>(ExecError::CommandFailed),
    {
        if success {
            Ok(())
        } else {
            Err(ExecError::CommandFailed)
        }
    }
}

/// The description of a dconf node of this kind.
pub open spec fn dconf_description(key: Seq<char>, value: Seq<char>) -> Seq<char> {
    key + " \u{21d2}  "@ + value
}

/// The node of a dconf table, keeping the key whole. Its identifier is the
/// placeholder `FIXME`.
pub fn dconf_node(input: DconfFields) -> (res: Node)
    ensures
        res.kind == NodeKind::Dconf(DconfNode { key: input.key, value: input.value }),
        res.meta.id@ == "FIXME"@,
        res.meta.before@ == list_or_empty(input.before),
        res.meta.after@ == list_or_empty(input.after),
        res.meta.description matches Some(d) && d@ == dconf_description(input.key@, input.value@),
{
    let DconfFields { key, value, before, after } = input;
    let before = match before {
        Some(b) => b,
        None => Vec::new(),
    };
    let after = match after {
        Some(a) => a,
        None => Vec::new(),
    };
    let mut description = key.clone();
    description.append(" \u{21d2}  ");
    description.append(value.as_str());
    let meta = NodeMetadata { id: String::from_str("FIXME"), before, after, description: Some(description) };
    Node { meta, kind: NodeKind::Dconf(DconfNode { key, value }) }
}

} // verus!
