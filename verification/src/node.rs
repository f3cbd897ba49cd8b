//! Nodes: what every activation task carries (its metadata) and what it does
//! (its kind), with the file-link kind and the identifiers nodes get.
use vstd::prelude::*;
use vstd::string::*;
use vstd::utf8::encode_utf8;
use crate::text::{decimal, decimal_spec, digits_value, encode_lower, hex_spec, lemma_decimal_injective, lemma_decimal_value};
use crate::exec_node::ExecNode;
use crate::gsettings::GsettingsNode;
use crate::dconf::DconfNode;

verus! {

broadcast use vstd::string::group_string_axioms;

/// What every node carries besides its kind.
#[derive(Debug)]
pub struct NodeMetadata {
    pub id: String,
    pub before: Vec<String>,
    pub after: Vec<String>,
    pub description: Option<String>,
}

/// The metadata fields as read from a node's table: each is `None` where the
/// table has no usable value for it.
#[derive(Debug)]
pub struct MetadataFields {
    pub before: Option<Vec<String>>,
    pub after: Option<Vec<String>>,
    pub description: Option<String>,
}

/// What a node does when it is activated.
#[derive(Debug)]
pub enum NodeKind {
    File(FileNodeKind),
    Exec(ExecNode),
    Gsettings(GsettingsNode),
    Dconf(DconfNode),
}

/// An activation task.
#[derive(Debug)]
pub struct Node {
    pub meta: NodeMetadata,
    pub kind: NodeKind,
}

/// Hands out node identifiers: `node-internal-1`, `node-internal-2`, and so
/// on.
#[derive(Debug)]
pub struct IdGenerator {
    issued: u64,
}

/// The identifier handed out `n`-th.
pub open spec fn internal_id(n: nat) -> Seq<char> {
    "node-internal-"@ + decimal_spec(n)
}

/// The list a `Vec` field reads as, empty where the table had none.
pub open spec fn list_or_empty(v: Option<Vec<String>>) -> Seq<String> {
    match v {
        Some(l) => l@,
        None => Seq::empty(),
    }
}

/// The generator never hands out one identifier twice: the identifiers handed
/// out at different counts differ.
pub proof fn lemma_internal_ids_distinct(n: nat, m: nat)
    requires
        n != m,
    ensures
        internal_id(n) != internal_id(m),
{
    lemma_decimal_injective(n, m);
    let p = "node-internal-"@;
    if internal_id(n) == internal_id(m) {
        assert(internal_id(n).skip(p.len() as int) =~= decimal_spec(n));
        assert(internal_id(m).skip(p.len() as int) =~= decimal_spec(m));
    }
}

/// The number an identifier handed out by the generator ends in.
pub open spec fn id_number(id: Seq<char>) -> int {
    digits_value(id.skip("node-internal-"@.len() as int))
}

/// Identifiers count up: the identifier handed out `n`-th ends in the number
/// `n`, so of two identifiers the later one ends in the larger number.
pub proof fn lemma_internal_ids_count_up(n: nat, m: nat)
    requires
        n < m,
    ensures
        id_number(internal_id(n)) == n,
        id_number(internal_id(n)) < id_number(internal_id(m)),
        internal_id(n) != internal_id(m),
{
    let p = "node-internal-"@;
    assert(internal_id(n).skip(p.len() as int) =~= decimal_spec(n));
    assert(internal_id(m).skip(p.len() as int) =~= decimal_spec(m));
    lemma_decimal_value(n);
    lemma_decimal_value(m);
    lemma_internal_ids_distinct(n, m);
}

/// The identifier that the `i`-th of a run of calls of `get_next` returns,
/// on a generator that had handed out `c` identifiers before it.
pub open spec fn nth_id(c: nat, i: int) -> Seq<char> {
    internal_id((c + i) as nat)
}

/// Over `k` calls of `get_next` on a generator that has handed out `c`
/// identifiers, the `i`-th call returns the identifier ending in `c + i`; so
/// the returned identifiers are pairwise distinct and count up.
pub proof fn lemma_ids_over_calls(c: nat, k: nat)
    ensures
        forall|i: int| 1 <= i <= k ==> id_number(#[trigger] nth_id(c, i)) == c + i,
        forall|i: int, j: int|
            1 <= i < j <= k ==> #[trigger] nth_id(c, i) != #[trigger] nth_id(c, j) && id_number(nth_id(c, i))
                < id_number(nth_id(c, j)),
{
    assert forall|i: int| 1 <= i <= k implies id_number(#[trigger] nth_id(c, i)) == c + i by {
        lemma_internal_ids_count_up((c + i) as nat, (c + i + 1) as nat);
    }
    assert forall|i: int, j: int| 1 <= i < j <= k implies #[trigger] nth_id(c, i) != #[trigger] nth_id(c, j)
        && id_number(nth_id(c, i)) < id_number(nth_id(c, j)) by {
        lemma_internal_ids_count_up((c + i) as nat, (c + j) as nat);
    }
}

impl IdGenerator {
    /// The number of identifiers handed out so far.
    pub closed spec fn count(&self) -> nat {
        self.issued as nat
    }

    /// A generator that has handed out nothing.
    pub fn new() -> (res: IdGenerator)
        ensures
            res.count() == 0,
    {
        IdGenerator { issued: 0 }
    }

    /// The number of identifiers handed out so far.
    pub fn issued(&self) -> (n: u64)
        ensures
            n == self.count(),
    {
        self.issued
    }

    /// The next identifier.
    pub fn get_next(&mut self) -> (id: String)
        requires
            old(self).count() < u64::MAX,
        ensures
            final(self).count() == old(self).count() + 1,
            id@ == internal_id(final(self).count()),
    {
        self.issued = self.issued + 1;
        let mut id = String::from_str("node-internal-");
        let digits = decimal(self.issued);
        id.append(digits.as_str());
        id
    }
}

impl NodeMetadata {
    /// The metadata of a node whose table gave `fields`: a fresh identifier,
    /// the `before` and `after` lists (empty where absent) and the
    /// description.
    pub fn from_table(fields: MetadataFields, ids: &mut IdGenerator) -> (res: NodeMetadata)
        requires
            old(ids).count() < u64::MAX,
        ensures
            final(ids).count() == old(ids).count() + 1,
            res.id@ == internal_id(final(ids).count()),
            res.before@ == list_or_empty(fields.before),
            res.after@ == list_or_empty(fields.after),
            res.description == fields.description,
    {
        let before = match fields.before {
            Some(b) => b,
            None => Vec::new(),
        };
        let after = match fields.after {
            Some(a) => a,
            None => Vec::new(),
        };
        NodeMetadata { id: ids.get_next(), before, after, description: fields.description }
    }
}

/// A symbolic link to create: `link` will point at `target`.
#[derive(Debug)]
pub struct FileNodeKind {
    pub link: String,
    pub target: String,
}

/// The fields of a file node's table.
#[derive(Debug)]
pub struct FileFields {
    pub link: String,
    pub target: String,
    pub id: Option<String>,
    pub meta: MetadataFields,
}

/// The SHA-256 digest of `data`.
pub uninterp spec fn sha256_spec(data: Seq<u8>) -> Seq<u8>;

/// `sha2::Sha256::digest`: the digest of `data`, 32 bytes long as its output
/// type fixes. What the digest is, is left to the name.
#[verifier::external_body]
fn sha256(data: &[u8]) -> (res: Vec<u8>)
    ensures
        res@ == sha256_spec(data@),
        res@.len() == 32,
{
    <sha2::Sha256 as sha2::Digest>::digest(data).to_vec()
}

/// The identifier a file node derives: the one its table names, or else
/// `node-` and the hexadecimal SHA-256 digest of its link and target.
pub open spec fn file_id_spec(link: Seq<char>, target: Seq<char>, id: Option<Seq<char>>) -> Seq<char> {
    match id {
        Some(x) => x,
        None => "node-"@ + hex_spec(sha256_spec(encode_utf8(link) + encode_utf8(target))),
    }
}

/// The identifier a file node derives from its table.
pub fn file_node_id(link: &String, target: &String, id: &Option<String>) -> (res: String)
    ensures
        res@ == file_id_spec(link@, target@, match id {
            Some(x) => Some(x@),
            None => None,
        }),
{
    match id {
        Some(x) => x.clone(),
        None => {
            let mut data: Vec<u8> = Vec::new();
            let lb = link.as_str().as_bytes();
            let tb = target.as_str().as_bytes();
            for i in 0..lb.len()
                invariant
                    data@ == lb@.take(i as int),
            {
                data.push(lb[i]);
            }
            assert(lb@.take(lb@.len() as int) =~= lb@);
            let ghost ld = data@;
            for i in 0..tb.len()
                invariant
                    data@ == ld + tb@.take(i as int),
            {
                data.push(tb[i]);
                assert(data@ =~= ld + tb@.take(i + 1));
            }
            assert(tb@.take(tb@.len() as int) =~= tb@);
            let digest = sha256(data.as_slice());
            let hex = encode_lower(digest.as_slice());
            let mut res = String::from_str("node-");
            res.append(hex.as_str());
            res
        },
    }
}

/// The description of a file node that has none of its own.
pub open spec fn file_description(link: Seq<char>, target: Seq<char>) -> Seq<char> {
    "Symlink "@ + link + " -> "@ + target
}

/// The file node of a table: it links `link` to `target`, and has the
/// default description when the table gives none. As the node is built its
/// identifier is derived from the table, but the node carries a generated
/// one.
pub fn file_from_lua(input: FileFields, ids: &mut IdGenerator) -> (res: Node)
    requires
        old(ids).count() < u64::MAX,
    ensures
        final(ids).count() == old(ids).count() + 1,
        res.kind == NodeKind::File(FileNodeKind { link: input.link, target: input.target }),
        res.meta.id@ == internal_id(final(ids).count()),
        res.meta.before@ == list_or_empty(input.meta.before),
        res.meta.after@ == list_or_empty(input.meta.after),
        res.meta.description matches Some(d) && d@ == match input.meta.description {
            Some(d) => d@,
            None => file_description(input.link@, input.target@),
        },
{
    let FileFields { link, target, id, meta } = input;
    let mut meta = NodeMetadata::from_table(meta, ids);
    let _derived = file_node_id(&link, &target, &id);
    let description = match meta.description {
        Some(d) => d,
        None => {
            let mut d = String::from_str("Symlink ");
            d.append(link.as_str());
            d.append(" -> ");
            d.append(target.as_str());
            d
        },
    };
    meta.description = Some(description);
    Node { meta, kind: NodeKind::File(FileNodeKind { link, target }) }
}


/// Why activating a node failed.
#[derive(PartialEq, Eq, Structural, Clone, Copy, Debug)]
pub enum ExecError {
    /// A command node's program exited unsuccessfully.
    ExecFailed,
    /// The `gsettings` program exited unsuccessfully.
    CommandFailed,
    /// A link path has no parent directory.
    NoParent,
}

impl ExecError {
    /// The report for this error.
    pub fn message(&self) -> (res: String)
        ensures
            res@ == match self {
                ExecError::ExecFailed => "Failed to execute command!"@,
                ExecError::CommandFailed => "Command failed"@,
                ExecError::NoParent => "Failed to get parent"@,
            },
    {
        match self {
            ExecError::ExecFailed => String::from_str("Failed to execute command!"),
            ExecError::CommandFailed => String::from_str("Command failed"),
            ExecError::NoParent => String::from_str("Failed to get parent"),
        }
    }
}

/// The parent directory of a path, as `Path::parent` gives it.
pub uninterp spec fn path_parent_spec(path: Seq<char>) -> Option<Seq<char>>;

/// `std::path::Path::parent`: the path without its final component, `None`
/// for a root or an empty path. Which path that is, is left to the name.
#[verifier::external_body]
fn path_parent(path: &str) -> (res: Option<String>)
    ensures
        match res {
            Some(p) => path_parent_spec(path@) == Some(p@),
            None => path_parent_spec(path@) is None,
        },
{
    std::path::Path::new(path).parent().map(|p| p.to_string_lossy().into_owned())
}

/// One step of creating a link, in the order they are taken.
#[derive(Debug, PartialEq, Eq)]
pub enum FileStep {
    /// Remove the symbolic link that stands at this path.
    RemoveLink(String),
    /// Create this directory and its missing ancestors.
    CreateDir(String),
    /// Make `link` a symbolic link to `target`.
    Link { target: String, link: String },
    /// Stop: the link path has no parent directory.
    Fail(ExecError),
}

/// A step of creating a link, with its paths as character sequences.
pub enum FileStepView {
    RemoveLink(Seq<char>),
    CreateDir(Seq<char>),
    Link(Seq<char>, Seq<char>),
    Fail(ExecError),
}

impl View for FileStep {
    type V = FileStepView;

    open spec fn view(&self) -> FileStepView {
        match self {
            FileStep::RemoveLink(p) => FileStepView::RemoveLink(p@),
            FileStep::CreateDir(p) => FileStepView::CreateDir(p@),
            FileStep::Link { target, link } => FileStepView::Link(target@, link@),
            FileStep::Fail(e) => FileStepView::Fail(*e),
        }
    }
}

/// The steps that activate a link from `link` to `target`, given whether a
/// symbolic link already stands at `link`.
pub open spec fn file_steps(link: Seq<char>, target: Seq<char>, link_is_symlink: bool) -> Seq<FileStepView> {
    (if link_is_symlink { seq![FileStepView::RemoveLink(link)] } else { Seq::empty() }) + match path_parent_spec(link) {
        Some(p) => seq![FileStepView::CreateDir(p), FileStepView::Link(target, link)],
        None => seq![FileStepView::Fail(ExecError::NoParent)],
    }
}

/// Activating a link first removes a symbolic link already standing at the
/// link path, whatever the path, and otherwise removes nothing; it then
/// creates the parent directory and links the path to the target, or fails
/// when the path has no parent.
pub proof fn lemma_file_steps_shape(link: Seq<char>, target: Seq<char>, link_is_symlink: bool)
    ensures
        link_is_symlink ==> file_steps(link, target, link_is_symlink)[0] == FileStepView::RemoveLink(link),
        !link_is_symlink ==> forall|k: int|
            0 <= k < file_steps(link, target, link_is_symlink).len() ==> !(#[trigger] file_steps(
                link,
                target,
                link_is_symlink,
            )[k] is RemoveLink),
        path_parent_spec(link) matches Some(p) ==> {
            let s = file_steps(link, target, link_is_symlink);
            &&& s.len() == if link_is_symlink { 3int } else { 2int }
            &&& s[s.len() - 2] == FileStepView::CreateDir(p)
            &&& s[s.len() - 1] == FileStepView::Link(target, link)
        },
        path_parent_spec(link) is None ==> {
            let s = file_steps(link, target, link_is_symlink);
            &&& s.len() == if link_is_symlink { 2int } else { 1int }
            &&& s[s.len() - 1] == FileStepView::Fail(ExecError::NoParent)
        },
{
}

impl FileNodeKind {
    /// The steps that activate this node, given whether a symbolic link
    /// already stands at `link`: remove it if so; then create the parent
    /// directory and link, or fail when the link path has no parent.
    pub fn steps(&self, link_is_symlink: bool) -> (res: Vec<FileStep>)
        ensures
            res@.map_values(|s: FileStep| s@) == file_steps(self.link@, self.target@, link_is_symlink),
            link_is_symlink ==> res@[0]@ == FileStepView::RemoveLink(self.link@),
            !link_is_symlink ==> forall|k: int| 0 <= k < res.len() ==> !(#[trigger] res@[k]@ is RemoveLink),
            path_parent_spec(self.link@) matches Some(p) ==> {
                &&& res.len() == if link_is_symlink { 3int } else { 2int }
                &&& res@[res.len() - 2]@ == FileStepView::CreateDir(p)
                &&& res@[res.len() - 1]@ == FileStepView::Link(self.target@, self.link@)
            },
            path_parent_spec(self.link@) is None ==> {
                &&& res.len() == if link_is_symlink { 2int } else { 1int }
                &&& res@[res.len() - 1]@ == FileStepView::Fail(ExecError::NoParent)
            },
    {
        let mut res: Vec<FileStep> = Vec::new();
        if link_is_symlink {
            res.push(FileStep::RemoveLink(self.link.clone()));
        }
        match path_parent(self.link.as_str()) {
            Some(p) => {
                res.push(FileStep::CreateDir(p));
                res.push(FileStep::Link { target: self.target.clone(), link: self.link.clone() });
            },
            None => {
                res.push(FileStep::Fail(ExecError::NoParent));
            },
        }
        assert(res@.map_values(|s: FileStep| s@) =~= file_steps(self.link@, self.target@, link_is_symlink));
        res
    }
}

} // verus!
