# activation-manager

Activation tasks ("nodes") declared by a Lua or Rune manifest, and the rules
by which they are built, ordered and run. The library in `src/` is verified
with Verus; the program around it in `app/` reads manifests, runs commands
and touches the file system.

- `src/node.rs`: node metadata, identifiers, file-link nodes and the steps
  that create a link.
- `src/exec_node.rs`, `src/gsettings.rs`, `src/dconf.rs`: command nodes and
  dconf nodes, with the arguments of the commands that activate them.
- `src/eval.rs`: the dependency graph built from `before`/`after` names and
  the round-based schedule that runs it, with its laws (a node runs only
  after its predecessors; cycles never run; acyclic graphs always finish).
- `src/exec.rs`: the activation plan for a list of nodes.
- `src/lua.rs`: choosing a value out of a Lua table.
- `src/text.rs`: joining, splitting, line parsing, decimal and hexadecimal
  text.
