//! Nodes that set a dconf key through `gsettings`.
use vstd::prelude::*;
use vstd::string::*;
use crate::node::{ExecError, IdGenerator, Node, NodeKind, NodeMetadata, internal_id, list_or_empty};
use crate::text::{
    chars_of, first_index, from_chars, join, join_spec, lemma_join_split, lemma_split_nonempty,
    lemma_split_pieces_lack_separator, lines, lines_spec,
    split, split_once, split_once_spec, split_spec, views,
};

verus! {

broadcast use vstd::string::group_string_axioms;

/// Sets `key` of the settings schema whose path components are `schema`.
#[derive(Debug)]
pub struct GsettingsNode {
    pub schema: Vec<String>,
    pub key: String,
    pub value: String,
}

/// The fields of a dconf node's table.
#[derive(Debug)]
pub struct DconfFields {
    pub key: String,
    pub value: String,
    pub before: Option<Vec<String>>,
    pub after: Option<Vec<String>>,
}

/// Whether a dconf key is absolute, starting with `/`.
pub open spec fn is_absolute(key: Seq<char>) -> bool {
    key.len() > 0 && key[0] == '/'
}

/// The components of an absolute dconf key.
pub open spec fn key_components(key: Seq<char>) -> Seq<Seq<char>> {
    split_spec(key.skip(1), '/')
}

/// Splitting loses nothing: a `/`, then the components of an absolute key
/// joined with `/`, give the key back; and no component holds a `/`.
pub proof fn lemma_key_components_rejoin(key: Seq<char>)
    requires
        is_absolute(key),
    ensures
        seq!['/'] + join_spec(key_components(key), seq!['/']) == key,
        key_components(key).len() >= 1,
        forall|i: int, j: int|
            0 <= i < key_components(key).len() && 0 <= j < key_components(key)[i].len()
                ==> key_components(key)[i][j] != '/',
{
    lemma_join_split(key.skip(1), '/');
    lemma_split_nonempty(key.skip(1), '/');
    lemma_split_pieces_lack_separator(key.skip(1), '/');
    assert(seq!['/'] + key.skip(1) =~= key);
}

/// An absolute dconf key split into the components of its schema path and
/// the name of the key, its last component.
pub fn split_key(key: &str) -> (res: (Vec<String>, String))
    requires
        is_absolute(key@),
    ensures
        views(res.0@) == key_components(key@).drop_last(),
        res.1@ == key_components(key@).last(),
{
    let chars = chars_of(key);
    let rest = from_chars(&chars, 1, chars.len());
    assert(rest@ =~= key@.skip(1));
    let mut parts = split(rest.as_str(), '/');
    proof {
        lemma_split_nonempty(key@.skip(1), '/');
    }
    let ghost all = parts@;
    let name = parts.pop().unwrap();
    assert(views(parts@) =~= views(all).drop_last());
    assert(views(all).last() == all.last()@);
    (parts, name)
}

/// The node `dconf_node` builds keeps the whole key: a `/`, then its schema
/// components and key name joined with `/`, give the key back, and none of
/// them holds a `/`.
pub proof fn lemma_dconf_node_keeps_key(key: Seq<char>, schema: Seq<Seq<char>>, name: Seq<char>)
    requires
        is_absolute(key),
        schema == key_components(key).drop_last(),
        name == key_components(key).last(),
    ensures
        seq!['/'] + join_spec(schema.push(name), seq!['/']) == key,
        forall|j: int| 0 <= j < name.len() ==> name[j] != '/',
        forall|i: int, j: int| 0 <= i < schema.len() && 0 <= j < schema[i].len() ==> schema[i][j] != '/',
{
    lemma_key_components_rejoin(key);
    let kc = key_components(key);
    assert(schema.push(name) =~= kc);
    assert forall|j: int| 0 <= j < name.len() implies name[j] != '/' by {
        assert(kc[kc.len() - 1] == name);
    }
    assert forall|i: int, j: int| 0 <= i < schema.len() && 0 <= j < schema[i].len() implies schema[i][j] != '/' by {
        assert(schema[i] == kc[i]);
    }
}

/// The arguments of the `gsettings` call that sets `key` of the schema with
/// path `schema` to `value`.
pub open spec fn set_args_spec(schema: Seq<Seq<char>>, key: Seq<char>, value: Seq<char>) -> Seq<Seq<char>> {
    seq!["set"@, join_spec(schema, "."@), key, value]
}

/// The `gsettings` call has exactly four arguments: the word `set`, the
/// schema's components joined by dots, the key, and the value unchanged.
pub proof fn lemma_set_args_shape(schema: Seq<Seq<char>>, key: Seq<char>, value: Seq<char>)
    ensures
        set_args_spec(schema, key, value).len() == 4,
        set_args_spec(schema, key, value)[0] == "set"@,
        set_args_spec(schema, key, value)[1] == join_spec(schema, "."@),
        set_args_spec(schema, key, value)[2] == key,
        set_args_spec(schema, key, value)[3] == value,
{
}

/// A line of `gsettings list-schemas --print-paths`: a schema, a space, its
/// path.
pub open spec fn has_space(line: Seq<char>) -> bool {
    first_index(line, ' ') is Some
}

impl GsettingsNode {
    /// The arguments of the `gsettings` call that activates this node.
    pub fn set_args(&self) -> (res: Vec<String>)
        ensures
            views(res@) == set_args_spec(views(self.schema@), self.key@, self.value@),
            res.len() == 4,
            res@[0]@ == "set"@,
            res@[1]@ == join_spec(views(self.schema@), "."@),
            res@[2]@ == self.key@,
            res@[3]@ == self.value@,
    {
        let mut res: Vec<String> = Vec::new();
        res.push(String::from_str("set"));
        res.push(join(&self.schema, "."));
        res.push(self.key.clone());
        res.push(self.value.clone());
        assert(views(res@) =~= set_args_spec(views(self.schema@), self.key@, self.value@));
        res
    }

    /// The result of the `gsettings` call, given whether it exited
    /// successfully.
    pub fn outcome(&self, success: bool) -> (res: Result<(), ExecError>)
        ensures
            success ==> res is Ok,
            !success ==> res == Err::<(), ExecError>(ExecError::CommandFailed),
    {
        if success {
            Ok(())
        } else {
            Err(ExecError::CommandFailed)
        }
    }
}

/// The (schema, path) pairs of the listing that
/// `gsettings list-schemas --print-paths` prints: each line split at its
/// first space. Every line must hold a space.
pub fn parse_schema_listing(listing: &str) -> (res: Vec<(String, String)>)
    requires
        forall|i: int| 0 <= i < lines_spec(listing@).len() ==> has_space(#[trigger] lines_spec(listing@)[i]),
    ensures
        res.len() == lines_spec(listing@).len(),
        forall|i: int|
            0 <= i < res.len() ==> Some((#[trigger] res@[i].0@, res@[i].1@)) == split_once_spec(
                lines_spec(listing@)[i],
                ' ',
            ),
{
    let ls = lines(listing);
    let mut res: Vec<(String, String)> = Vec::new();
    for i in 0..ls.len()
        invariant
            views(ls@) == lines_spec(listing@),
            forall|i: int| 0 <= i < lines_spec(listing@).len() ==> has_space(#[trigger] lines_spec(listing@)[i]),
            res.len() == i,
            forall|j: int|
                0 <= j < i ==> Some((#[trigger] res@[j].0@, res@[j].1@)) == split_once_spec(
                    lines_spec(listing@)[j],
                    ' ',
                ),
    {
        assert(views(ls@)[i as int] == ls@[i as int]@);
        assert(has_space(lines_spec(listing@)[i as int]));
        match split_once(ls[i].as_str(), ' ') {
            Some(pair) => {
                res.push(pair);
            },
            None => {
                assert(false);
            },
        }
    }
    res
}

/// The description of a dconf node.
pub open spec fn dconf_description(key: Seq<char>, value: Seq<char>) -> Seq<char> {
    key + " => "@ + value
}

/// The node of a dconf table: it sets the key named by the last component
/// of `key` in the schema named by the others, to `value`.
pub fn dconf_node(input: DconfFields, ids: &mut IdGenerator) -> (res: Node)
    requires
        is_absolute(input.key@),
        old(ids).count() < u64::MAX,
    ensures
        final(ids).count() == old(ids).count() + 1,
        res.kind matches NodeKind::Gsettings(g) && views(g.schema@) == key_components(input.key@).drop_last()
            && g.key@ == key_components(input.key@).last() && g.value == input.value,
        res.meta.id@ == internal_id(final(ids).count()),
        res.meta.before@ == list_or_empty(input.before),
        res.meta.after@ == list_or_empty(input.after),
        res.meta.description matches Some(d) && d@ == dconf_description(input.key@, input.value@),
{
    let DconfFields { key: dconf_key, value, before, after } = input;
    let before = match before {
        Some(b) => b,
        None => Vec::new(),
    };
    let after = match after {
        Some(a) => a,
        None => Vec::new(),
    };
    let (schema, key) = split_key(dconf_key.as_str());
    let mut description = dconf_key.clone();
    description.append(" => ");
    description.append(value.as_str());
    let meta = NodeMetadata { id: ids.get_next(), before, after, description: Some(description) };
    Node { meta, kind: NodeKind::Gsettings(GsettingsNode { schema, key, value }) }
}

} // verus!
