//! Nodes that run a command.
use vstd::prelude::*;
use vstd::string::*;
use crate::node::{ExecError, IdGenerator, MetadataFields, Node, NodeKind, NodeMetadata, internal_id, list_or_empty};
use crate::text::{join, join_spec, views};

verus! {

broadcast use vstd::string::group_string_axioms;

/// Runs `command[0]` with the remaining words as its arguments.
#[derive(Debug)]
pub struct ExecNode {
    pub command: Vec<String>,
}

/// The fields of a command node's table.
#[derive(Debug)]
pub struct ExecFields {
    pub command: Vec<String>,
    pub meta: MetadataFields,
}

impl ExecNode {
    /// The program to run and its arguments.
    pub fn invocation(&self) -> (res: (String, Vec<String>))
        requires
            self.command.len() > 0,
        ensures
            res.0 == self.command@[0],
            res.1@ == self.command@.skip(1),
    {
        let program = self.command[0].clone();
        let mut args: Vec<String> = Vec::new();
        for i in 1..self.command.len()
            invariant
                self.command.len() > 0,
                args@ == self.command@.subrange(1, i as int),
        {
            args.push(self.command[i].clone());
            assert(args@ =~= self.command@.subrange(1, i + 1));
        }
        assert(args@ =~= self.command@.skip(1));
        (program, args)
    }

    /// The result of the run, given whether the program exited successfully.
    pub fn outcome(&self, success: bool) -> (res: Result<(), ExecError>)
        ensures
            success ==> res is Ok,
            !success ==> res == Err::<(), ExecError>(ExecError::ExecFailed),
    {
        if success {
            Ok(())
        } else {
            Err(ExecError::ExecFailed)
        }
    }
}

/// The command node of a table: its description, when the table gives none,
/// is the command's words joined by spaces.
pub fn lua_to_exec(input: ExecFields, ids: &mut IdGenerator) -> (res: Node)
    requires
        old(ids).count() < u64::MAX,
    ensures
        final(ids).count() == old(ids).count() + 1,
        res.kind == NodeKind::Exec(ExecNode { command: input.command }),
        res.meta.id@ == internal_id(final(ids).count()),
        res.meta.before@ == list_or_empty(input.meta.before),
        res.meta.after@ == list_or_empty(input.meta.after),
        res.meta.description matches Some(d) && d@ == match input.meta.description {
            Some(d) => d@,
            None => join_spec(views(input.command@), " "@),
        },
{
    let ExecFields { command, meta } = input;
    let mut meta = NodeMetadata::from_table(meta, ids);
    let description = match meta.description {
        Some(d) => d,
        None => join(&command, " "),
    };
    meta.description = Some(description);
    Node { meta, kind: NodeKind::Exec(ExecNode { command }) }
}

} // verus!
