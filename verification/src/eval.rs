//! The dependency graph of evaluated nodes and the round-based schedule that
//! runs them: a node runs once every node it comes after has finished.
use vstd::prelude::*;
use crate::text::views;

verus! {

/// The graph that orders nodes: one graph node per evaluated node, in the
/// same order, and an edge `u -> v` when `u` must finish before `v` starts.
pub type DependencyGraph = petgraph::graph::Graph<(), (), petgraph::Directed, u32>;

#[verifier::external_type_specification]
#[verifier::external_body]
#[verifier::reject_recursive_types(N)]
#[verifier::reject_recursive_types(E)]
#[verifier::reject_recursive_types(Ty)]
#[verifier::reject_recursive_types(Ix)]
pub struct ExGraph<N, E, Ty, Ix>(petgraph::graph::Graph<N, E, Ty, Ix>);

#[verifier::external_type_specification]
#[verifier::external_body]
pub struct ExDirected(petgraph::Directed);

/// The number of nodes of a graph.
pub uninterp spec fn graph_node_count(g: DependencyGraph) -> nat;

/// The edges of a graph as (source, target) pairs, in insertion order.
pub uninterp spec fn graph_edges(g: DependencyGraph) -> Seq<(usize, usize)>;

/// The sources of the edges into `a`, latest edge first.
pub open spec fn incoming_spec(edges: Seq<(usize, usize)>, a: usize) -> Seq<usize>
    decreases edges.len(),
{
    if edges.len() == 0 {
        Seq::empty()
    } else if edges.last().1 == a {
        seq![edges.last().0] + incoming_spec(edges.drop_last(), a)
    } else {
        incoming_spec(edges.drop_last(), a)
    }
}

/// `Graph::new`: a graph with no nodes and no edges.
#[verifier::external_body]
fn graph_new() -> (g: DependencyGraph)
    ensures
        graph_node_count(g) == 0,
        graph_edges(g) == Seq::<(usize, usize)>::empty(),
{
    petgraph::graph::Graph::new()
}

/// `Graph::node_count`.
#[verifier::external_body]
fn node_count(g: &DependencyGraph) -> (n: usize)
    ensures
        n == graph_node_count(*g),
{
    g.node_count()
}

/// `Graph::add_node`: the new node takes the next index; edges stay as they
/// were. It panics when the index would reach `u32::MAX`, which `requires`
/// rules out.
#[verifier::external_body]
fn graph_add_node(g: &mut DependencyGraph) -> (i: usize)
    requires
        graph_node_count(*old(g)) < u32::MAX,
    ensures
        i == graph_node_count(*old(g)),
        graph_node_count(*final(g)) == graph_node_count(*old(g)) + 1,
        graph_edges(*final(g)) == graph_edges(*old(g)),
{
    g.add_node(()).index()
}

/// `Graph::add_edge`: appends the edge `a -> b`; the nodes stay as they were.
/// It panics when an endpoint is not a node or the edge index would reach
/// `u32::MAX`, which `requires` rules out.
#[verifier::external_body]
fn graph_add_edge(g: &mut DependencyGraph, a: usize, b: usize)
    requires
        a < graph_node_count(*old(g)),
        b < graph_node_count(*old(g)),
        graph_edges(*old(g)).len() < u32::MAX,
    ensures
        graph_node_count(*final(g)) == graph_node_count(*old(g)),
        graph_edges(*final(g)) == graph_edges(*old(g)).push((a, b)),
{
    g.add_edge(petgraph::graph::NodeIndex::new(a), petgraph::graph::NodeIndex::new(b), ());
}

/// `Graph::edges_directed` with `Incoming`: the sources of the edges into
/// `a`, walked from the latest edge to the first, as petgraph keeps each
/// node's incoming edges in a list that new edges are put in front of.
#[verifier::external_body]
fn graph_incoming(g: &DependencyGraph, a: usize) -> (res: Vec<usize>)
    requires
        a < graph_node_count(*g),
    ensures
        res@ == incoming_spec(graph_edges(*g), a),
{
    g.edges_directed(petgraph::graph::NodeIndex::new(a), petgraph::Direction::Incoming).map(
        |e| petgraph::visit::EdgeRef::source(&e).index(),
    ).collect()
}


/// A node produced by evaluating the manifest: its name and the names of the
/// nodes it must run before and after.
#[derive(Debug, Clone)]
pub struct Node {
    pub name: String,
    pub before: Vec<String>,
    pub after: Vec<String>,
}

/// The names of `nodes`, in order.
pub open spec fn names(nodes: Seq<Node>) -> Seq<Seq<char>> {
    nodes.map_values(|n: Node| n.name@)
}

/// The index under which `name` is registered: the last position that
/// carries it, as later names replace earlier ones in the name table.
pub open spec fn lookup(names: Seq<Seq<char>>, name: Seq<char>) -> Option<usize>
    decreases names.len(),
{
    if names.len() == 0 {
        None
    } else if names.last() == name {
        Some((names.len() - 1) as usize)
    } else {
        lookup(names.drop_last(), name)
    }
}

/// The indices of `wanted` in `names`, or the first name that is missing.
pub open spec fn resolve(names: Seq<Seq<char>>, wanted: Seq<Seq<char>>) -> Result<Seq<usize>, Seq<char>>
    decreases wanted.len(),
{
    if wanted.len() == 0 {
        Ok(Seq::empty())
    } else {
        match resolve(names, wanted.drop_last()) {
            Err(missing) => Err(missing),
            Ok(found) => match lookup(names, wanted.last()) {
                Some(i) => Ok(found.push(i)),
                None => Err(wanted.last()),
            },
        }
    }
}

/// A dependency that names no node.
pub enum MissingLink {
    /// `node` is to run after `missing`.
    After(Seq<char>, Seq<char>),
    /// `node` is to run before `missing`.
    Before(Seq<char>, Seq<char>),
}

/// The edges contributed by `nodes[..k]`, node by node: for each of its
/// `after` names an edge from that node to it, then for each of its `before`
/// names an edge from it to that node; or the first dependency that names no
/// node.
pub open spec fn edges_of(nodes: Seq<Node>, k: int) -> Result<Seq<(usize, usize)>, MissingLink>
    decreases k,
{
    if k <= 0 {
        Ok(Seq::empty())
    } else {
        match edges_of(nodes, k - 1) {
            Err(e) => Err(e),
            Ok(es) => {
                let n = nodes[k - 1];
                let me = lookup(names(nodes), n.name@).unwrap();
                match resolve(names(nodes), views(n.after@)) {
                    Err(m) => Err(MissingLink::After(n.name@, m)),
                    Ok(afters) => match resolve(names(nodes), views(n.before@)) {
                        Err(m) => Err(MissingLink::Before(n.name@, m)),
                        Ok(befores) => Ok(
                            es + afters.map_values(|a: usize| (a, me)) + befores.map_values(
                                |b: usize| (me, b),
                            ),
                        ),
                    },
                }
            },
        }
    }
}

/// How many names of `wanted`, from the first on, resolve before the first
/// one that names no node.
pub open spec fn resolved_len(names: Seq<Seq<char>>, wanted: Seq<Seq<char>>) -> nat
    decreases wanted.len(),
{
    if wanted.len() == 0 {
        0
    } else {
        match resolve(names, wanted.drop_last()) {
            Err(_) => resolved_len(names, wanted.drop_last()),
            Ok(_) => if lookup(names, wanted.last()) is Some {
                wanted.len()
            } else {
                (wanted.len() - 1) as nat
            },
        }
    }
}

/// The number of edges that building the graph of `nodes[..k]` adds before
/// it stops: all of them, or those added before the first dependency that
/// names no node.
pub open spec fn edges_added(nodes: Seq<Node>, k: int) -> nat
    decreases k,
{
    if k <= 0 {
        0
    } else {
        match edges_of(nodes, k - 1) {
            Err(_) => edges_added(nodes, k - 1),
            Ok(es) => {
                let n = nodes[k - 1];
                let nm = names(nodes);
                es.len() + resolved_len(nm, views(n.after@)) + if resolve(nm, views(n.after@)) is Ok {
                    resolved_len(nm, views(n.before@))
                } else {
                    0
                }
            },
        }
    }
}

/// Why the dependency graph cannot be built.
#[derive(Debug, PartialEq, Eq)]
pub enum GraphError {
    /// `node` is to run after `missing`, which names no node.
    MissingAfter { node: String, missing: String },
    /// `node` is to run before `missing`, which names no node.
    MissingBefore { node: String, missing: String },
}

impl View for GraphError {
    type V = MissingLink;

    open spec fn view(&self) -> MissingLink {
        match self {
            GraphError::MissingAfter { node, missing } => MissingLink::After(node@, missing@),
            GraphError::MissingBefore { node, missing } => MissingLink::Before(node@, missing@),
        }
    }
}

impl GraphError {
    /// The report for this error.
    pub fn message(&self) -> (res: String)
        ensures
            res@ == match self@ {
                MissingLink::After(node, missing) => node + " is after "@ + missing
                    + ", but it doesn't exist"@,
                MissingLink::Before(node, missing) => node + " is before "@ + missing
                    + ", but it doesn't exist"@,
            },
    {
        match self {
            GraphError::MissingAfter { node, missing } => {
                let mut res = node.clone();
                res.append(" is after ");
                res.append(missing.as_str());
                res.append(", but it doesn't exist");
                res
            },
            GraphError::MissingBefore { node, missing } => {
                let mut res = node.clone();
                res.append(" is before ");
                res.append(missing.as_str());
                res.append(", but it doesn't exist");
                res
            },
        }
    }
}

/// The position under which `name` is registered among `nodes`.
fn find_last(nodes: &Vec<Node>, name: &String) -> (res: Option<usize>)
    ensures
        res == lookup(names(nodes@), name@),
        res matches Some(i) ==> i < nodes.len() && nodes@[i as int].name@ == name@ && forall|j: int|
            i < j < nodes.len() ==> #[trigger] nodes@[j].name@ != name@,
        res is None ==> forall|j: int| 0 <= j < nodes.len() ==> #[trigger] nodes@[j].name@ != name@,
{
    let ghost all = names(nodes@);
    let mut i = nodes.len();
    proof {
        assert(all.len() == i);
        lemma_lookup_exact(all, name@);
    }
    assert(all.take(i as int) =~= all);
    while i > 0
        invariant
            i <= nodes.len(),
            all == names(nodes@),
            lookup(all, name@) == lookup(all.take(i as int), name@),
            forall|j: int| #![trigger all[j]] #![trigger nodes@[j]] 0 <= j < nodes.len() ==> all[j] == nodes@[j].name@,
            lookup(all, name@) matches Some(k) ==> k < all.len() && all[k as int] == name@ && forall|j: int|
                k < j < all.len() ==> #[trigger] all[j] != name@,
            lookup(all, name@) is None ==> forall|j: int| 0 <= j < all.len() ==> #[trigger] all[j] != name@,
        decreases i,
    {
        assert(all.take(i as int).drop_last() =~= all.take(i - 1));
        if nodes[i - 1].name == *name {
            return Some(i - 1);
        }
        i = i - 1;
    }
    assert(all.take(0) =~= Seq::<Seq<char>>::empty());
    None
}

/// A name resolves only to a position that carries exactly that name, and to
/// the last such position; a name that no position carries resolves to
/// nothing.
pub proof fn lemma_lookup_exact(names: Seq<Seq<char>>, name: Seq<char>)
    requires
        names.len() <= usize::MAX,
    ensures
        lookup(names, name) matches Some(i) ==> i < names.len() && names[i as int] == name && forall|j: int|
            i < j < names.len() ==> #[trigger] names[j] != name,
        lookup(names, name) is None ==> forall|j: int| 0 <= j < names.len() ==> #[trigger] names[j] != name,
    decreases names.len(),
{
    if names.len() > 0 && names.last() != name {
        let rest = names.drop_last();
        lemma_lookup_exact(rest, name);
        assert(lookup(names, name) == lookup(rest, name));
        match lookup(rest, name) {
            Some(i) => {
                assert(names[i as int] == rest[i as int]);
                assert forall|j: int| i < j < names.len() implies #[trigger] names[j] != name by {
                    if j < rest.len() {
                        assert(names[j] == rest[j]);
                    }
                }
            },
            None => {
                assert forall|j: int| 0 <= j < names.len() implies #[trigger] names[j] != name by {
                    if j < rest.len() {
                        assert(names[j] == rest[j]);
                    }
                }
            },
        }
    }
}

/// A node's own name is always registered, at a position that is in range.
proof fn lemma_lookup_own(names: Seq<Seq<char>>, i: int)
    requires
        0 <= i < names.len(),
    ensures
        lookup(names, names[i]) is Some,
        lookup(names, names[i])->0 < names.len(),
    decreases names.len(),
{
    if names.last() != names[i] {
        lemma_lookup_own(names.drop_last(), i);
    }
}

/// A registered name sits at a position that is in range.
proof fn lemma_lookup_range(names: Seq<Seq<char>>, name: Seq<char>)
    ensures
        lookup(names, name) matches Some(i) ==> i < names.len(),
    decreases names.len(),
{
    if names.len() > 0 {
        lemma_lookup_range(names.drop_last(), name);
    }
}

/// Resolved indices are in range, one per wanted name.
proof fn lemma_resolve_ok(names: Seq<Seq<char>>, wanted: Seq<Seq<char>>)
    ensures
        resolve(names, wanted) matches Ok(found) ==> found.len() == wanted.len() && forall|j: int|
            0 <= j < found.len() ==> found[j] < names.len() && lookup(names, wanted[j]) == Some(found[j]),
    decreases wanted.len(),
{
    if wanted.len() > 0 {
        lemma_resolve_ok(names, wanted.drop_last());
        lemma_lookup_range(names, wanted.last());
        if resolve(names, wanted) is Ok {
            let found = resolve(names, wanted)->Ok_0;
            let prev = resolve(names, wanted.drop_last())->Ok_0;
            assert forall|j: int| 0 <= j < found.len() implies found[j] < names.len() && lookup(names, wanted[j]) == Some(found[j]) by {
                if j < found.len() - 1 {
                    assert(found[j] == prev[j]);
                    assert(wanted.drop_last()[j] == wanted[j]);
                }
            }
        }
    }
}

/// Once a prefix of `wanted` names a missing node, so does the whole.
proof fn lemma_resolve_err_prefix(names: Seq<Seq<char>>, wanted: Seq<Seq<char>>, m: int)
    requires
        0 <= m <= wanted.len(),
        resolve(names, wanted.take(m)) is Err,
    ensures
        resolve(names, wanted) == resolve(names, wanted.take(m)),
    decreases wanted.len() - m,
{
    if m < wanted.len() {
        assert(wanted.take(m + 1).drop_last() =~= wanted.take(m));
        lemma_resolve_err_prefix(names, wanted, m + 1);
    } else {
        assert(wanted.take(m) =~= wanted);
    }
}

/// Once a prefix of the nodes names a missing node, so do all nodes.
proof fn lemma_edges_err_prefix(nodes: Seq<Node>, k: int, m: int)
    requires
        0 <= k <= m,
        edges_of(nodes, k) is Err,
    ensures
        edges_of(nodes, m) == edges_of(nodes, k),
    decreases m - k,
{
    if k < m {
        lemma_edges_err_prefix(nodes, k, m - 1);
    }
}

/// The endpoints of the edges of a prefix are nodes.
proof fn lemma_edges_bound(nodes: Seq<Node>, k: int)
    requires
        0 <= k <= nodes.len(),
    ensures
        edges_of(nodes, k) matches Ok(es) ==> forall|j: int|
            0 <= j < es.len() ==> es[j].0 < nodes.len() && es[j].1 < nodes.len(),
    decreases k,
{
    if k > 0 {
        lemma_edges_bound(nodes, k - 1);
        let n = nodes[k - 1];
        let nm = names(nodes);
        assert(nm[k - 1] == n.name@);
        lemma_lookup_own(nm, k - 1);
        lemma_resolve_ok(nm, views(n.after@));
        lemma_resolve_ok(nm, views(n.before@));
    }
}

/// When every name resolves, all of them count.
proof fn lemma_resolved_len_full(names: Seq<Seq<char>>, wanted: Seq<Seq<char>>)
    requires
        resolve(names, wanted) is Ok,
    ensures
        resolved_len(names, wanted) == wanted.len(),
{
}

/// Resolving more names never resolves fewer.
proof fn lemma_resolved_len_mono(names: Seq<Seq<char>>, wanted: Seq<Seq<char>>, m: int)
    requires
        0 <= m <= wanted.len(),
    ensures
        resolved_len(names, wanted.take(m)) <= resolved_len(names, wanted),
        resolve(names, wanted.take(m)) is Err ==> resolved_len(names, wanted) == resolved_len(names, wanted.take(m)),
    decreases wanted.len() - m,
{
    if m < wanted.len() {
        let x = wanted.take(m + 1);
        assert(x.drop_last() =~= wanted.take(m));
        if resolve(names, wanted.take(m)) is Ok {
            lemma_resolved_len_full(names, wanted.take(m));
        } else {
            lemma_resolve_err_prefix(names, x, m);
            assert(x.take(m) =~= wanted.take(m));
        }
        lemma_resolved_len_mono(names, wanted, m + 1);
    } else {
        assert(wanted.take(m) =~= wanted);
    }
}

/// A prefix that resolves counts in full.
proof fn lemma_resolved_len_prefix(names: Seq<Seq<char>>, wanted: Seq<Seq<char>>, m: int)
    requires
        0 <= m <= wanted.len(),
        resolve(names, wanted.take(m)) is Ok,
    ensures
        m <= resolved_len(names, wanted),
{
    lemma_resolved_len_full(names, wanted.take(m));
    lemma_resolved_len_mono(names, wanted, m);
}

/// While the build succeeds, the edges it adds are its edges.
proof fn lemma_edges_added_ok(nodes: Seq<Node>, k: int)
    requires
        0 <= k <= nodes.len(),
    ensures
        edges_of(nodes, k) matches Ok(es) ==> edges_added(nodes, k) == es.len(),
    decreases k,
{
    if k > 0 {
        if edges_of(nodes, k) is Ok {
            let n = nodes[k - 1];
            let nm = names(nodes);
            lemma_resolve_ok(nm, views(n.after@));
            lemma_resolve_ok(nm, views(n.before@));
            lemma_resolved_len_full(nm, views(n.after@));
            lemma_resolved_len_full(nm, views(n.before@));
        }
    }
}

/// The build adds more edges as it goes on, and none once it has stopped.
proof fn lemma_edges_added_mono(nodes: Seq<Node>, k: int, m: int)
    requires
        0 <= k <= m <= nodes.len(),
    ensures
        edges_added(nodes, k) <= edges_added(nodes, m),
        edges_of(nodes, k) is Err ==> edges_added(nodes, m) == edges_added(nodes, k),
    decreases m - k,
{
    if k < m {
        lemma_edges_added_mono(nodes, k, m - 1);
        lemma_edges_added_ok(nodes, m - 1);
        if edges_of(nodes, k) is Err {
            lemma_edges_err_prefix(nodes, k, m - 1);
        }
    }
}

/// The number of edges that building the graph of `nodes` adds before it
/// stops, or `u64::MAX` when that is more.
pub fn edges_added_count(nodes: &Vec<Node>) -> (res: u64)
    ensures
        res == (if edges_added(nodes@, nodes.len() as int) < u64::MAX {
            edges_added(nodes@, nodes.len() as int)
        } else {
            u64::MAX as nat
        }),
{
    let ghost nm = names(nodes@);
    let ghost total = edges_added(nodes@, nodes.len() as int);
    let mut count: u64 = 0;
    for i in 0..nodes.len()
        invariant
            nm == names(nodes@),
            total == edges_added(nodes@, nodes.len() as int),
            edges_of(nodes@, i as int) is Ok,
            count == (if edges_of(nodes@, i as int)->Ok_0.len() < u64::MAX {
                edges_of(nodes@, i as int)->Ok_0.len()
            } else {
                u64::MAX as nat
            }),
    {
        let n = &nodes[i];
        let ghost es = edges_of(nodes@, i as int)->Ok_0;
        let ghost wa = views(n.after@);
        let ghost wb = views(n.before@);
        proof {
            lemma_edges_added_ok(nodes@, i as int);
        }
        for j in 0..n.after.len()
            invariant
                nm == names(nodes@),
                i < nodes.len(),
                n == nodes@[i as int],
                wa == views(n.after@),
                edges_of(nodes@, i as int) == Ok::<Seq<(usize, usize)>, MissingLink>(es),
                total == edges_added(nodes@, nodes.len() as int),
                resolve(nm, wa.take(j as int)) is Ok,
                count == (if es.len() + j < u64::MAX { es.len() + j } else { u64::MAX as int }),
        {
            assert(wa.take(j + 1).drop_last() =~= wa.take(j as int));
            match find_last(nodes, &n.after[j]) {
                Some(_) => {
                    count = count.saturating_add(1);
                },
                None => {
                    proof {
                        assert(views(n.after@)[j as int] == n.after@[j as int]@);
                        lemma_resolve_err_prefix(nm, wa, j + 1);
                        lemma_resolved_len_mono(nm, wa, j + 1);
                        lemma_resolved_len_full(nm, wa.take(j as int));
                        lemma_edges_err_prefix(nodes@, i + 1, nodes.len() as int);
                        lemma_edges_added_mono(nodes@, i + 1, nodes.len() as int);
                    }
                    return count;
                },
            }
        }
        assert(wa.take(n.after.len() as int) =~= wa);
        proof {
            lemma_resolve_ok(nm, wa);
        }
        for j in 0..n.before.len()
            invariant
                nm == names(nodes@),
                i < nodes.len(),
                n == nodes@[i as int],
                wa == views(n.after@),
                wb == views(n.before@),
                resolve(nm, wa) is Ok,
                resolve(nm, wa)->Ok_0.len() == wa.len(),
                edges_of(nodes@, i as int) == Ok::<Seq<(usize, usize)>, MissingLink>(es),
                total == edges_added(nodes@, nodes.len() as int),
                resolve(nm, wb.take(j as int)) is Ok,
                count == (if es.len() + wa.len() + j < u64::MAX { es.len() + wa.len() + j } else { u64::MAX as int }),
        {
            assert(wb.take(j + 1).drop_last() =~= wb.take(j as int));
            match find_last(nodes, &n.before[j]) {
                Some(_) => {
                    count = count.saturating_add(1);
                },
                None => {
                    proof {
                        assert(views(n.before@)[j as int] == n.before@[j as int]@);
                        lemma_resolve_err_prefix(nm, wb, j + 1);
                        lemma_resolved_len_mono(nm, wb, j + 1);
                        lemma_resolved_len_full(nm, wb.take(j as int));
                        lemma_resolved_len_full(nm, wa);
                        lemma_edges_err_prefix(nodes@, i + 1, nodes.len() as int);
                        lemma_edges_added_mono(nodes@, i + 1, nodes.len() as int);
                    }
                    return count;
                },
            }
        }
        assert(wb.take(n.before.len() as int) =~= wb);
        proof {
            lemma_resolve_ok(nm, wb);
            assert(nm[i as int] == n.name@);
            lemma_lookup_own(nm, i as int);
        }
    }
    proof {
        lemma_edges_added_ok(nodes@, nodes.len() as int);
    }
    count
}

/// The dependency graph of `nodes`: one graph node per node, in order, then
/// node by node an edge from each node it comes after to it and from it to
/// each node it comes before. A name stands for the last node that carries
/// it. The first dependency that names no node is the error.
pub fn dependency_graph(nodes: &Vec<Node>) -> (res: Result<DependencyGraph, GraphError>)
    requires
        nodes.len() <= u32::MAX,
        edges_added(nodes@, nodes.len() as int) <= u32::MAX,
    ensures
        match (res, edges_of(nodes@, nodes.len() as int)) {
            (Ok(g), Ok(es)) => graph_node_count(g) == nodes.len() && graph_edges(g) == es
                && edges_within(es, nodes.len() as nat),
            (Err(e), Err(m)) => e@ == m,
            _ => false,
        },
{
    let mut g = graph_new();
    for i in 0..nodes.len()
        invariant
            nodes.len() <= u32::MAX,
            graph_node_count(g) == i,
            graph_edges(g) == Seq::<(usize, usize)>::empty(),
    {
        graph_add_node(&mut g);
    }
    let ghost nm = names(nodes@);
    let ghost total = edges_added(nodes@, nodes.len() as int);
    for i in 0..nodes.len()
        invariant
            nm == names(nodes@),
            total == edges_added(nodes@, nodes.len() as int),
            total <= u32::MAX,
            graph_node_count(g) == nodes.len(),
            edges_of(nodes@, i as int) == Ok::<Seq<(usize, usize)>, MissingLink>(graph_edges(g)),
    {
        let n = &nodes[i];
        proof {
            assert(nm[i as int] == n.name@);
            lemma_lookup_own(nm, i as int);
            lemma_edges_bound(nodes@, i as int);
            lemma_edges_added_mono(nodes@, i + 1, nodes.len() as int);
        }
        let me = match find_last(nodes, &n.name) {
            Some(me) => me,
            None => {
                proof {
                    assert(false);
                }
                0
            },
        };
        let ghost es = graph_edges(g);
        let ghost wa = views(n.after@);
        for j in 0..n.after.len()
            invariant
                nm == names(nodes@),
                i < nodes.len(),
                n == nodes@[i as int],
                wa == views(n.after@),
                me < nodes.len(),
                me == lookup(nm, n.name@)->0,
                edges_of(nodes@, i as int) == Ok::<Seq<(usize, usize)>, MissingLink>(es),
                total <= u32::MAX,
                edges_added(nodes@, i + 1) <= total,
                graph_node_count(g) == nodes.len(),
                resolve(nm, wa.take(j as int)) matches Ok(rs) && graph_edges(g) == es
                    + rs.map_values(|a: usize| (a, me)),
        {
            assert(wa.take(j + 1).drop_last() =~= wa.take(j as int));
            let ghost rs = resolve(nm, wa.take(j as int))->Ok_0;
            proof {
                lemma_resolve_ok(nm, wa.take(j as int));
            }
            match find_last(nodes, &n.after[j]) {
                Some(a) => {
                    proof {
                        lemma_lookup_range(nm, wa[j as int]);
                        assert(resolve(nm, wa.take(j + 1)) is Ok);
                        lemma_resolved_len_prefix(nm, wa, j + 1);
                    }
                    graph_add_edge(&mut g, a, me);
                    assert(graph_edges(g) =~= es + rs.push(a).map_values(|a: usize| (a, me)));
                },
                None => {
                    proof {
                        assert(views(n.after@)[j as int] == n.after@[j as int]@);
                        assert(resolve(nm, wa.take(j + 1)) == Err::<Seq<usize>, Seq<char>>(wa[j as int]));
                        lemma_resolve_err_prefix(nm, wa, j + 1);
                        assert(edges_of(nodes@, i + 1) == Err::<Seq<(usize, usize)>, MissingLink>(MissingLink::After(n.name@, wa[j as int])));
                        lemma_edges_err_prefix(nodes@, i + 1, nodes.len() as int);
                    }
                    return Err(GraphError::MissingAfter { node: n.name.clone(), missing: n.after[j].clone() });
                },
            }
        }
        assert(wa.take(n.after.len() as int) =~= wa);
        let ghost ea = graph_edges(g);
        let ghost wb = views(n.before@);
        proof {
            lemma_resolve_ok(nm, wa);
        }
        for j in 0..n.before.len()
            invariant
                nm == names(nodes@),
                i < nodes.len(),
                n == nodes@[i as int],
                wa == views(n.after@),
                wb == views(n.before@),
                resolve(nm, wa) is Ok,
                me < nodes.len(),
                me == lookup(nm, n.name@)->0,
                edges_of(nodes@, i as int) == Ok::<Seq<(usize, usize)>, MissingLink>(es),
                ea == es + resolve(nm, wa)->Ok_0.map_values(|a: usize| (a, me)),
                total <= u32::MAX,
                edges_added(nodes@, i + 1) <= total,
                graph_node_count(g) == nodes.len(),
                resolve(nm, wb.take(j as int)) matches Ok(rs) && graph_edges(g) == ea
                    + rs.map_values(|b: usize| (me, b)),
        {
            assert(wb.take(j + 1).drop_last() =~= wb.take(j as int));
            let ghost rs = resolve(nm, wb.take(j as int))->Ok_0;
            proof {
                lemma_resolve_ok(nm, wb.take(j as int));
            }
            match find_last(nodes, &n.before[j]) {
                Some(b) => {
                    proof {
                        lemma_lookup_range(nm, wb[j as int]);
                        assert(resolve(nm, wb.take(j + 1)) is Ok);
                        lemma_resolved_len_prefix(nm, wb, j + 1);
                        lemma_resolved_len_full(nm, wa);
                        lemma_resolve_ok(nm, wa);
                    }
                    graph_add_edge(&mut g, me, b);
                    assert(graph_edges(g) =~= ea + rs.push(b).map_values(|b: usize| (me, b)));
                },
                None => {
                    proof {
                        assert(views(n.before@)[j as int] == n.before@[j as int]@);
                        assert(resolve(nm, wb.take(j + 1)) == Err::<Seq<usize>, Seq<char>>(wb[j as int]));
                        lemma_resolve_err_prefix(nm, wb, j + 1);
                        assert(edges_of(nodes@, i + 1) == Err::<Seq<(usize, usize)>, MissingLink>(MissingLink::Before(n.name@, wb[j as int])));
                        lemma_edges_err_prefix(nodes@, i + 1, nodes.len() as int);
                    }
                    return Err(GraphError::MissingBefore { node: n.name.clone(), missing: n.before[j].clone() });
                },
            }
        }
        assert(wb.take(n.before.len() as int) =~= wb);
        assert(edges_of(nodes@, i + 1) == Ok::<Seq<(usize, usize)>, MissingLink>(graph_edges(g)));
    }
    proof {
        lemma_edges_bound(nodes@, nodes.len() as int);
    }
    Ok(g)
}


/// The number of rounds a run attempts before it gives up.
pub const ROUND_LIMIT: u32 = 99;

/// Where a node stands in a run.
#[derive(PartialEq, Eq, Structural, Clone, Copy, Debug)]
pub enum State {
    /// Its task has completed.
    Finished,
    /// Its task has been launched in the current round.
    Running,
    /// Its task has not been launched yet.
    Waiting,
}

/// Whether `edges` holds an edge `u -> v`.
pub open spec fn has_edge(edges: Seq<(usize, usize)>, u: int, v: int) -> bool {
    exists|k: int| 0 <= k < edges.len() && edges[k].0 == u && edges[k].1 == v
}

/// Whether every endpoint of `edges` is below `n`.
pub open spec fn edges_within(edges: Seq<(usize, usize)>, n: nat) -> bool {
    forall|k: int| 0 <= k < edges.len() ==> edges[k].0 < n && edges[k].1 < n
}

/// Whether `v` is waiting and every node with an edge into it has finished.
pub open spec fn is_ready(edges: Seq<(usize, usize)>, states: Seq<State>, v: int) -> bool {
    &&& states[v] == State::Waiting
    &&& forall|k: int|
        0 <= k < edges.len() && edges[k].1 == v ==> states[edges[k].0 as int] == State::Finished
}

/// The ready nodes among the first `k`, in increasing order.
pub open spec fn ready_upto(edges: Seq<(usize, usize)>, states: Seq<State>, k: int) -> Seq<usize>
    decreases k,
{
    if k <= 0 {
        Seq::empty()
    } else if is_ready(edges, states, k - 1) {
        ready_upto(edges, states, k - 1).push((k - 1) as usize)
    } else {
        ready_upto(edges, states, k - 1)
    }
}

/// The states of `n` nodes that all wait.
pub open spec fn all_waiting(n: nat) -> Seq<State> {
    Seq::new(n, |v: int| State::Waiting)
}

/// The states once the ready nodes are launched.
pub open spec fn launched_states(edges: Seq<(usize, usize)>, states: Seq<State>) -> Seq<State> {
    Seq::new(states.len(), |v: int| if is_ready(edges, states, v) { State::Running } else { states[v] })
}

/// Whether `c` is a cycle of `edges`: an edge from each of its nodes to the
/// next, and from the last back to the first.
pub open spec fn is_cycle(edges: Seq<(usize, usize)>, c: Seq<usize>) -> bool {
    &&& c.len() >= 1
    &&& forall|j: int|
        0 <= j < c.len() ==> #[trigger] has_edge(edges, c[j] as int, cycle_next(c, j) as int)
}

/// The node after `c[j]` on the cycle `c`.
pub open spec fn cycle_next(c: Seq<usize>, j: int) -> usize {
    if j + 1 == c.len() {
        c[0]
    } else {
        c[j + 1]
    }
}

/// A run of the dependency graph, round by round: each round launches every
/// waiting node whose predecessors have all finished, and the run is over
/// when every node has finished or the round limit is spent.
pub struct Schedule {
    graph: DependencyGraph,
    states: Vec<State>,
    rounds: u32,
    launched_in: Ghost<Seq<int>>,
}

impl Schedule {
    /// The edges of the graph being run.
    pub closed spec fn edges(&self) -> Seq<(usize, usize)> {
        graph_edges(self.graph)
    }

    /// The number of nodes of the graph being run.
    pub closed spec fn size(&self) -> nat {
        graph_node_count(self.graph)
    }

    /// The state of each node.
    pub closed spec fn states(&self) -> Seq<State> {
        self.states@
    }

    /// The number of rounds launched so far.
    pub closed spec fn rounds(&self) -> nat {
        self.rounds as nat
    }

    /// The invariant of a run: each node that has left the waiting state did
    /// so in a round that has been launched, and after every node with an edge
    /// into it had finished, in an earlier round.
    pub closed spec fn wf(&self) -> bool {
        let n = graph_node_count(self.graph);
        let es = graph_edges(self.graph);
        let st = self.states@;
        let li = self.launched_in@;
        &&& st.len() == n
        &&& li.len() == n
        &&& n <= usize::MAX
        &&& edges_within(es, n)
        &&& self.rounds <= ROUND_LIMIT
        &&& forall|v: int| 0 <= v < n && st[v] != State::Waiting ==> 1 <= li[v] <= self.rounds
        &&& forall|k: int|
            0 <= k < es.len() && st[es[k].1 as int] != State::Waiting ==> {
                &&& st[es[k].0 as int] == State::Finished
                &&& li[es[k].0 as int] < li[es[k].1 as int]
            }
    }

    /// A run of `graph` where no round has been launched and every node
    /// waits.
    pub fn new(graph: DependencyGraph) -> (res: Schedule)
        requires
            edges_within(graph_edges(graph), graph_node_count(graph)),
        ensures
            res.wf(),
            res.edges() == graph_edges(graph),
            res.size() == graph_node_count(graph),
            res.states().len() == res.size(),
            res.rounds() == 0,
            res.states() == all_waiting(graph_node_count(graph)),
    {
        let n = node_count(&graph);
        let mut states: Vec<State> = Vec::new();
        for i in 0..n
            invariant
                states@ == Seq::new(i as nat, |v: int| State::Waiting),
        {
            states.push(State::Waiting);
            assert(states@ =~= Seq::new((i + 1) as nat, |v: int| State::Waiting));
        }
        Schedule {
            graph,
            states,
            rounds: 0,
            launched_in: Ghost(Seq::new(n as nat, |v: int| 0)),
        }
    }

    /// The number of nodes of the graph being run.
    pub fn len(&self) -> (n: usize)
        requires
            self.wf(),
        ensures
            n == self.size(),
    {
        self.states.len()
    }

    /// The state of node `v`.
    pub fn state(&self, v: usize) -> (st: State)
        requires
            self.wf(),
            v < self.size(),
        ensures
            st == self.states()[v as int],
    {
        self.states[v]
    }

    /// Whether every node has finished.
    pub fn all_finished(&self) -> (res: bool)
        requires
            self.wf(),
        ensures
            res == forall|v: int| 0 <= v < self.size() ==> self.states()[v] == State::Finished,
    {
        let mut v: usize = 0;
        while v < self.states.len()
            invariant
                self.wf(),
                v <= self.states.len(),
                forall|u: int| 0 <= u < v ==> self.states@[u] == State::Finished,
            decreases self.states.len() - v,
        {
            if self.states[v] != State::Finished {
                return false;
            }
            v = v + 1;
        }
        true
    }
}

impl Schedule {
    /// Whether `v` is ready: waiting, with every predecessor finished.
    fn ready(&self, v: usize) -> (res: bool)
        requires
            self.wf(),
            v < self.size(),
        ensures
            res == is_ready(self.edges(), self.states(), v as int),
    {
        if self.states[v] != State::Waiting {
            return false;
        }
        let parents = graph_incoming(&self.graph, v);
        proof {
            lemma_incoming(graph_edges(self.graph), v);
        }
        let ghost es = graph_edges(self.graph);
        let mut all = true;
        for q in 0..parents.len()
            invariant
                self.wf(),
                v < self.size(),
                es == graph_edges(self.graph),
                parents@ == incoming_spec(es, v),
                forall|q: int| 0 <= q < parents@.len() ==> has_edge(es, #[trigger] parents@[q] as int, v as int),
                all == forall|r: int| 0 <= r < q ==> self.states@[#[trigger] parents@[r] as int] == State::Finished,
        {
            let p = parents[q];
            assert(has_edge(es, parents@[q as int] as int, v as int));
            if self.states[p] != State::Finished {
                all = false;
            }
        }
        proof {
            if all {
                assert forall|k: int| 0 <= k < es.len() && es[k].1 == v implies self.states@[es[k].0 as int] == State::Finished by {
                    assert(parents@.contains(es[k].0));
                    let r = choose|r: int| 0 <= r < parents@.len() && parents@[r] == es[k].0;
                    assert(self.states@[parents@[r] as int] == State::Finished);
                }
            } else {
                let r = choose|r: int| 0 <= r < parents@.len() && self.states@[#[trigger] parents@[r] as int] != State::Finished;
                assert(has_edge(es, parents@[r] as int, v as int));
            }
        }
        all
    }

    /// Starts the next round: `None` once `ROUND_LIMIT` rounds have been
    /// launched; otherwise the ready nodes, in increasing order, which are now
    /// running.
    pub fn launch(&mut self) -> (res: Option<Vec<usize>>)
        requires
            old(self).wf(),
        ensures
            final(self).wf(),
            final(self).edges() == old(self).edges(),
            final(self).size() == old(self).size(),
            final(self).states().len() == final(self).size(),
            old(self).rounds() >= ROUND_LIMIT ==> res is None && final(self).states() == old(self).states()
                && final(self).rounds() == old(self).rounds(),
            old(self).rounds() < ROUND_LIMIT ==> (res matches Some(batch) && batch@ == ready_upto(
                old(self).edges(),
                old(self).states(),
                old(self).size() as int,
            ) && final(self).rounds() == old(self).rounds() + 1 && final(self).states() == launched_states(
                old(self).edges(),
                old(self).states(),
            )),
    {
        if self.rounds >= ROUND_LIMIT {
            return None;
        }
        let n = self.states.len();
        let ghost es = graph_edges(self.graph);
        let ghost st0 = self.states@;
        let mut flags: Vec<bool> = Vec::new();
        let mut batch: Vec<usize> = Vec::new();
        for v in 0..n
            invariant
                self.wf(),
                n == self.size(),
                es == self.edges(),
                st0 == self.states(),
                flags.len() == v,
                forall|u: int| 0 <= u < v ==> flags@[u] == is_ready(es, st0, u),
                batch@ == ready_upto(es, st0, v as int),
        {
            let r = self.ready(v);
            flags.push(r);
            if r {
                batch.push(v);
            }
        }
        let ghost li0 = self.launched_in@;
        let ghost pre = *self;
        let r = self.rounds + 1;
        for v in 0..n
            invariant
                pre.wf(),
                pre.states@ == st0,
                pre.launched_in@ == li0,
                es == graph_edges(pre.graph),
                self.graph == pre.graph,
                self.rounds == pre.rounds,
                r == pre.rounds + 1,
                n == self.states.len(),
                n == graph_node_count(self.graph),
                flags.len() == n,
                forall|u: int| 0 <= u < n ==> flags@[u] == is_ready(es, st0, u),
                self.states@ == Seq::new(
                    n as nat,
                    |u: int| if u < v && is_ready(es, st0, u) { State::Running } else { st0[u] },
                ),
        {
            if flags[v] {
                self.states.set(v, State::Running);
            }
            assert(self.states@ =~= Seq::new(
                n as nat,
                |u: int| if u < v + 1 && is_ready(es, st0, u) { State::Running } else { st0[u] },
            ));
        }
        self.rounds = r;
        self.launched_in = Ghost(Seq::new(n as nat, |u: int| if is_ready(es, st0, u) { r as int } else { li0[u] }));
        assert(self.states@ =~= Seq::new(
            n as nat,
            |u: int| if is_ready(es, st0, u) { State::Running } else { st0[u] },
        ));
        proof {
            let st = self.states@;
            let li = self.launched_in@;
            assert forall|k: int| 0 <= k < es.len() && st[es[k].1 as int] != State::Waiting implies {
                &&& st[es[k].0 as int] == State::Finished
                &&& li[es[k].0 as int] < li[es[k].1 as int]
            } by {
                let (a, b) = (es[k].0 as int, es[k].1 as int);
                if is_ready(es, st0, b) {
                    assert(st0[a] == State::Finished);
                    assert(!is_ready(es, st0, a));
                } else {
                    assert(st0[b] != State::Waiting);
                    assert(!is_ready(es, st0, a));
                }
            }
        }
        Some(batch)
    }

    /// Records that the task of node `v` has completed: a running node
    /// finishes and `true` comes back; any other call changes nothing and
    /// gives `false`.
    pub fn complete(&mut self, v: usize) -> (res: bool)
        requires
            old(self).wf(),
        ensures
            final(self).wf(),
            final(self).edges() == old(self).edges(),
            final(self).size() == old(self).size(),
            final(self).states().len() == final(self).size(),
            final(self).rounds() == old(self).rounds(),
            res == (v < old(self).size() && old(self).states()[v as int] == State::Running),
            res ==> final(self).states() == old(self).states().update(v as int, State::Finished),
            !res ==> final(self).states() == old(self).states(),
    {
        if v < self.states.len() && self.states[v] == State::Running {
            let ghost st0 = self.states@;
            self.states.set(v, State::Finished);
            proof {
                let es = graph_edges(self.graph);
                assert forall|k: int| 0 <= k < es.len() && self.states@[es[k].1 as int] != State::Waiting implies {
                    &&& self.states@[es[k].0 as int] == State::Finished
                    &&& self.launched_in@[es[k].0 as int] < self.launched_in@[es[k].1 as int]
                } by {
                    if es[k].1 as int != v as int {
                        assert(st0[es[k].1 as int] != State::Waiting);
                    }
                }
            }
            true
        } else {
            false
        }
    }
}

/// The sources of the edges into `a` are exactly the nodes with an edge to
/// `a`.
proof fn lemma_incoming(edges: Seq<(usize, usize)>, a: usize)
    ensures
        forall|q: int| 0 <= q < incoming_spec(edges, a).len() ==> has_edge(edges, #[trigger] incoming_spec(edges, a)[q] as int, a as int),
        forall|k: int| 0 <= k < edges.len() && edges[k].1 == a ==> incoming_spec(edges, a).contains(#[trigger] edges[k].0),
    decreases edges.len(),
{
    if edges.len() > 0 {
        let prev = edges.drop_last();
        lemma_incoming(prev, a);
        let inc = incoming_spec(edges, a);
        let pinc = incoming_spec(prev, a);
        assert forall|q: int| 0 <= q < inc.len() implies has_edge(edges, #[trigger] inc[q] as int, a as int) by {
            if edges.last().1 == a {
                if q == 0 {
                    assert(edges[edges.len() - 1] == edges.last());
                } else {
                    assert(inc[q] == pinc[q - 1]);
                    let k = choose|k: int| 0 <= k < prev.len() && prev[k].0 == pinc[q - 1] as int && prev[k].1 == a as int;
                    assert(edges[k] == prev[k]);
                }
            } else {
                let k = choose|k: int| 0 <= k < prev.len() && prev[k].0 == pinc[q] as int && prev[k].1 == a as int;
                assert(edges[k] == prev[k]);
            }
        }
        assert forall|k: int| 0 <= k < edges.len() && edges[k].1 == a implies inc.contains(#[trigger] edges[k].0) by {
            if k == edges.len() - 1 {
                assert(inc[0] == edges[k].0);
            } else {
                assert(prev[k] == edges[k]);
                assert(pinc.contains(prev[k].0));
                let q = choose|q: int| 0 <= q < pinc.len() && pinc[q] == prev[k].0;
                if edges.last().1 == a {
                    assert(inc[q + 1] == pinc[q]);
                } else {
                    assert(inc[q] == pinc[q]);
                }
            }
        }
    }
}


/// The ready nodes among the first `k` are exactly the nodes below `k` that
/// are ready.
pub proof fn lemma_ready_upto(edges: Seq<(usize, usize)>, states: Seq<State>, k: int)
    requires
        0 <= k,
        k <= usize::MAX + 1,
    ensures
        forall|v: int| 0 <= v < k && is_ready(edges, states, v) ==> ready_upto(edges, states, k).contains(v as usize),
        forall|q: int| 0 <= q < ready_upto(edges, states, k).len() ==> {
            &&& ready_upto(edges, states, k)[q] < k
            &&& is_ready(edges, states, ready_upto(edges, states, k)[q] as int)
        },
    decreases k,
{
    if k > 0 {
        lemma_ready_upto(edges, states, k - 1);
        let prev = ready_upto(edges, states, k - 1);
        let cur = ready_upto(edges, states, k);
        assert forall|v: int| 0 <= v < k && is_ready(edges, states, v) implies cur.contains(v as usize) by {
            if v < k - 1 {
                let q = choose|q: int| 0 <= q < prev.len() && prev[q] == v as usize;
                assert(cur[q] == prev[q]);
            } else {
                assert(cur[cur.len() - 1] == (k - 1) as usize);
            }
        }
    }
}

/// A node leaves the waiting state only after every node it comes after has
/// finished: in every state of a run, each edge into a launched or finished
/// node starts at a finished node.
pub proof fn lemma_runs_after_predecessors(s: Schedule)
    requires
        s.wf(),
    ensures
        s.states().len() == s.size(),
        s.size() <= usize::MAX,
        edges_within(s.edges(), s.size()),
        forall|k: int|
            0 <= k < s.edges().len() && s.states()[s.edges()[k].1 as int] != State::Waiting
                ==> s.states()[s.edges()[k].0 as int] == State::Finished,
{
}

/// Among the nodes of `c` that have left the waiting state, one that did so
/// no later than any other.
proof fn earliest_on(s: Schedule, c: Seq<usize>, m: int) -> (j: int)
    requires
        s.wf(),
        0 < m <= c.len(),
        forall|i: int| 0 <= i < c.len() ==> c[i] < s.size(),
        exists|i: int| 0 <= i < m && s.states()[c[i] as int] != State::Waiting,
    ensures
        0 <= j < m,
        s.states()[c[j] as int] != State::Waiting,
        forall|i: int|
            0 <= i < m && s.states()[c[i] as int] != State::Waiting ==> s.launched_in@[c[j] as int]
                <= s.launched_in@[c[i] as int],
    decreases m,
{
    let last = m - 1;
    if exists|i: int| 0 <= i < last && s.states()[c[i] as int] != State::Waiting {
        let j = earliest_on(s, c, last);
        if s.states()[c[last] as int] != State::Waiting && s.launched_in@[c[last] as int] < s.launched_in@[c[j] as int] {
            last
        } else {
            j
        }
    } else {
        last
    }
}

/// The nodes of a dependency cycle never run: in every state of a run they
/// all still wait.
pub proof fn lemma_cycle_never_runs(s: Schedule, c: Seq<usize>)
    requires
        s.wf(),
        is_cycle(s.edges(), c),
    ensures
        forall|i: int| 0 <= i < c.len() ==> s.states()[c[i] as int] == State::Waiting,
{
    let es = s.edges();
    assert forall|i: int| 0 <= i < c.len() implies c[i] < s.size() by {
        assert(has_edge(es, c[i] as int, cycle_next(c, i) as int));
        let k = choose|k: int| 0 <= k < es.len() && es[k].0 == c[i] as int && es[k].1 == cycle_next(c, i) as int;
    }
    if exists|i: int| 0 <= i < c.len() && s.states()[c[i] as int] != State::Waiting {
        let j = earliest_on(s, c, c.len() as int);
        let p = if j == 0 { c.len() - 1 } else { j - 1 };
        assert(cycle_next(c, p) == c[j]);
        assert(has_edge(es, c[p] as int, cycle_next(c, p) as int));
        let k = choose|k: int| 0 <= k < es.len() && es[k].0 == c[p] as int && es[k].1 == c[j] as int;
        assert(s.states()[c[p] as int] == State::Finished);
        assert(false);
    }
}

/// Among more than `n` values below `n`, two are equal.
proof fn lemma_pigeonhole(w: Seq<int>, n: int)
    requires
        0 <= n < w.len(),
        forall|i: int| 0 <= i < w.len() ==> 0 <= #[trigger] w[i] < n,
    ensures
        exists|i: int, j: int| 0 <= i < j < w.len() && w[i] == w[j],
{
    if !(exists|i: int, j: int| 0 <= i < j < w.len() && w[i] == w[j]) {
        assert(w.no_duplicates()) by {
            assert forall|i: int, j: int| 0 <= i < w.len() && 0 <= j < w.len() && i != j implies w[i] != w[j] by {
                if i > j {
                    assert(!(0 <= j < i < w.len() && w[j] == w[i]));
                }
            }
        }
        w.unique_seq_to_set();
        vstd::set_lib::lemma_int_range(0, n);
        assert(w.to_set().subset_of(vstd::set_lib::set_int_range(0, n)));
        vstd::set_lib::lemma_len_subset(w.to_set(), vstd::set_lib::set_int_range(0, n));
    }
}

/// A walk of `len` steps backwards along edges into waiting nodes, starting
/// at the waiting node `w0`, when no node is ready or running.
proof fn stalled_walk(edges: Seq<(usize, usize)>, states: Seq<State>, w0: int, len: nat) -> (w: Seq<int>)
    requires
        edges_within(edges, states.len()),
        0 <= w0 < states.len(),
        states[w0] == State::Waiting,
        forall|v: int| 0 <= v < states.len() ==> states[v] != State::Running,
        forall|v: int| 0 <= v < states.len() ==> !is_ready(edges, states, v),
    ensures
        w.len() == len + 1,
        w[0] == w0,
        forall|i: int| 0 <= i < w.len() ==> 0 <= w[i] < states.len() && states[w[i]] == State::Waiting,
        forall|i: int| 0 <= i < len ==> #[trigger] has_edge(edges, w[i + 1], w[i]),
    decreases len,
{
    if len == 0 {
        seq![w0]
    } else {
        let prev = stalled_walk(edges, states, w0, (len - 1) as nat);
        let x = prev.last();
        assert(prev[len - 1] == x);
        assert(!is_ready(edges, states, x));
        let k = choose|k: int| 0 <= k < edges.len() && edges[k].1 == x && states[edges[k].0 as int] != State::Finished;
        let p = edges[k].0 as int;
        let w = prev.push(p);
        assert forall|i: int| 0 <= i < len implies #[trigger] has_edge(edges, w[i + 1], w[i]) by {
            if i < len - 1 {
                assert(has_edge(edges, prev[i + 1], prev[i]));
            } else {
                assert(edges[k].0 == w[i + 1] && edges[k].1 == w[i]);
            }
        }
        w
    }
}

/// A run stalls only on a dependency cycle: when no node is running and some
/// node waits, yet none is ready, the edges hold a cycle through waiting
/// nodes.
pub proof fn lemma_stall_means_cycle(edges: Seq<(usize, usize)>, states: Seq<State>)
    requires
        states.len() <= usize::MAX,
        edges_within(edges, states.len()),
        forall|v: int| 0 <= v < states.len() ==> states[v] != State::Running,
        exists|v: int| 0 <= v < states.len() && states[v] == State::Waiting,
        forall|v: int| 0 <= v < states.len() ==> !is_ready(edges, states, v),
    ensures
        exists|c: Seq<usize>|
            is_cycle(edges, c) && forall|i: int|
                0 <= i < c.len() ==> c[i] < states.len() && states[c[i] as int] == State::Waiting,
{
    let n = states.len();
    let w0 = choose|v: int| 0 <= v < n && states[v] == State::Waiting;
    let w = stalled_walk(edges, states, w0, n);
    lemma_pigeonhole(w, n as int);
    let (i, j) = choose|i: int, j: int| 0 <= i < j < w.len() && w[i] == w[j];
    let c = Seq::new((j - i) as nat, |m: int| w[j - 1 - m] as usize);
    assert forall|m: int| 0 <= m < c.len() implies #[trigger] has_edge(edges, c[m] as int, cycle_next(c, m) as int) by {
        if m + 1 == c.len() {
            let t = j - 1;
            assert(has_edge(edges, w[t + 1], w[t]));
            assert(c[m] as int == w[i]);
        } else {
            let t = j - 2 - m;
            assert(has_edge(edges, w[t + 1], w[t]));
        }
    }
    assert(is_cycle(edges, c));
    assert forall|m: int| 0 <= m < c.len() implies c[m] < states.len() && states[c[m] as int] == State::Waiting by {
        assert(0 <= w[j - 1 - m] < n);
    }
}

/// A run of an acyclic graph never stalls: while no node is running and some
/// node waits, the next round launches at least one node.
pub proof fn lemma_acyclic_progress(s: Schedule)
    requires
        s.wf(),
        forall|v: int| 0 <= v < s.size() ==> s.states()[v] != State::Running,
        exists|v: int| 0 <= v < s.size() && s.states()[v] == State::Waiting,
        forall|c: Seq<usize>| !is_cycle(s.edges(), c),
    ensures
        ready_upto(s.edges(), s.states(), s.size() as int).len() > 0,
{
    lemma_ready_upto(s.edges(), s.states(), s.size() as int);
    if ready_upto(s.edges(), s.states(), s.size() as int).len() == 0 {
        assert forall|v: int| 0 <= v < s.size() implies !is_ready(s.edges(), s.states(), v) by {
            if is_ready(s.edges(), s.states(), v) {
                assert(ready_upto(s.edges(), s.states(), s.size() as int).contains(v as usize));
            }
        }
        lemma_stall_means_cycle(s.edges(), s.states());
        let c = choose|c: Seq<usize>| is_cycle(s.edges(), c);
    }
}


/// The states after one round in which every launched task succeeds: the
/// ready nodes have finished.
pub open spec fn round_step(edges: Seq<(usize, usize)>, states: Seq<State>) -> Seq<State> {
    Seq::new(states.len(), |v: int| if is_ready(edges, states, v) { State::Finished } else { states[v] })
}

/// The states after `k` such rounds.
pub open spec fn run_rounds(edges: Seq<(usize, usize)>, states: Seq<State>, k: nat) -> Seq<State>
    decreases k,
{
    if k == 0 {
        states
    } else {
        run_rounds(edges, round_step(edges, states), (k - 1) as nat)
    }
}

/// The states once each node of `batch` has completed, in order.
pub open spec fn complete_all(states: Seq<State>, batch: Seq<usize>) -> Seq<State>
    decreases batch.len(),
{
    if batch.len() == 0 {
        states
    } else {
        complete_all(states, batch.drop_last()).update(batch.last() as int, State::Finished)
    }
}

/// The number of finished nodes.
pub open spec fn finished_count(states: Seq<State>) -> nat
    decreases states.len(),
{
    if states.len() == 0 {
        0
    } else {
        finished_count(states.drop_last()) + if states.last() == State::Finished { 1nat } else { 0nat }
    }
}

/// A round in which every launched task completes is one `round_step`:
/// completing, in order, each node that `launch` hands out takes the launched
/// states to the states in which exactly the ready nodes have finished.
pub proof fn lemma_round_completes(edges: Seq<(usize, usize)>, states: Seq<State>)
    requires
        states.len() <= usize::MAX,
        forall|v: int| 0 <= v < states.len() ==> states[v] != State::Running,
    ensures
        complete_all(launched_states(edges, states), ready_upto(edges, states, states.len() as int))
            == round_step(edges, states),
{
    let n = states.len() as int;
    lemma_round_completes_upto(edges, states, n);
    assert(Seq::new(
        states.len(),
        |v: int|
            if is_ready(edges, states, v) {
                if v < n { State::Finished } else { State::Running }
            } else {
                states[v]
            },
    ) =~= round_step(edges, states));
}

proof fn lemma_round_completes_upto(edges: Seq<(usize, usize)>, states: Seq<State>, k: int)
    requires
        states.len() <= usize::MAX,
        0 <= k <= states.len(),
    ensures
        complete_all(launched_states(edges, states), ready_upto(edges, states, k)) == Seq::new(
            states.len(),
            |v: int|
                if is_ready(edges, states, v) {
                    if v < k { State::Finished } else { State::Running }
                } else {
                    states[v]
                },
        ),
    decreases k,
{
    let target = Seq::new(
        states.len(),
        |v: int|
            if is_ready(edges, states, v) {
                if v < k { State::Finished } else { State::Running }
            } else {
                states[v]
            },
    );
    if k == 0 {
        assert(complete_all(launched_states(edges, states), ready_upto(edges, states, k)) =~= target);
    } else {
        lemma_round_completes_upto(edges, states, k - 1);
        let prev = ready_upto(edges, states, k - 1);
        if is_ready(edges, states, k - 1) {
            let cur = prev.push((k - 1) as usize);
            assert(cur.drop_last() =~= prev);
            assert(complete_all(launched_states(edges, states), cur) =~= target);
        } else {
            assert(complete_all(launched_states(edges, states), prev) =~= target);
        }
    }
}

/// Finished counts are at most the number of nodes, and reach it only when
/// every node has finished.
proof fn lemma_finished_count_bound(states: Seq<State>)
    ensures
        finished_count(states) <= states.len(),
        finished_count(states) == states.len() ==> forall|v: int| 0 <= v < states.len() ==> states[v] == State::Finished,
        (forall|v: int| 0 <= v < states.len() ==> states[v] == State::Finished) ==> finished_count(states) == states.len(),
    decreases states.len(),
{
    if states.len() > 0 {
        lemma_finished_count_bound(states.drop_last());
        if forall|v: int| 0 <= v < states.len() ==> states[v] == State::Finished {
            assert forall|v: int| 0 <= v < states.len() - 1 implies states.drop_last()[v] == State::Finished by {
                assert(states.drop_last()[v] == states[v]);
            }
            assert(states.last() == states[states.len() - 1]);
        }
        if finished_count(states) == states.len() {
            assert forall|v: int| 0 <= v < states.len() implies states[v] == State::Finished by {
                if v < states.len() - 1 {
                    assert(states.drop_last()[v] == states[v]);
                }
            }
        }
    }
}

/// A pointwise gain of finished nodes raises the count; one new finished node
/// raises it by at least one.
proof fn lemma_finished_count_grows(a: Seq<State>, b: Seq<State>)
    requires
        a.len() == b.len(),
        forall|v: int| 0 <= v < a.len() && a[v] == State::Finished ==> b[v] == State::Finished,
    ensures
        finished_count(a) <= finished_count(b),
        (exists|v: int| 0 <= v < a.len() && a[v] != State::Finished && b[v] == State::Finished) ==> finished_count(a)
            < finished_count(b),
    decreases a.len(),
{
    if a.len() > 0 {
        let (a0, b0) = (a.drop_last(), b.drop_last());
        assert forall|v: int| 0 <= v < a0.len() && a0[v] == State::Finished implies b0[v] == State::Finished by {
            assert(a[v] == a0[v] && b[v] == b0[v]);
        }
        lemma_finished_count_grows(a0, b0);
        if exists|v: int| 0 <= v < a.len() && a[v] != State::Finished && b[v] == State::Finished {
            let v = choose|v: int| 0 <= v < a.len() && a[v] != State::Finished && b[v] == State::Finished;
            if v < a.len() - 1 {
                assert(a0[v] == a[v] && b0[v] == b[v]);
            }
        }
    }
}

/// After `k` rounds of an acyclic graph in which every task succeeds, at
/// least `k` more nodes have finished, or all of them.
proof fn lemma_rounds_progress(edges: Seq<(usize, usize)>, states: Seq<State>, k: nat)
    requires
        states.len() <= usize::MAX,
        edges_within(edges, states.len()),
        forall|v: int| 0 <= v < states.len() ==> states[v] != State::Running,
        forall|c: Seq<usize>| !is_cycle(edges, c),
    ensures
        run_rounds(edges, states, k).len() == states.len(),
        finished_count(run_rounds(edges, states, k)) >= if finished_count(states) + k < states.len() {
            finished_count(states) + k
        } else {
            states.len() as nat
        },
    decreases k,
{
    lemma_finished_count_bound(states);
    if k > 0 {
        let next = round_step(edges, states);
        assert forall|v: int| 0 <= v < states.len() && states[v] == State::Finished implies next[v] == State::Finished by {}
        lemma_finished_count_grows(states, next);
        if exists|v: int| 0 <= v < states.len() && states[v] != State::Finished {
            let w = choose|v: int| 0 <= v < states.len() && states[v] != State::Finished;
            assert(states[w] == State::Waiting);
            if forall|v: int| 0 <= v < states.len() ==> !is_ready(edges, states, v) {
                lemma_stall_means_cycle(edges, states);
                let c = choose|c: Seq<usize>| is_cycle(edges, c);
            }
            let r = choose|v: int| 0 <= v < states.len() && is_ready(edges, states, v);
            assert(states[r] != State::Finished && next[r] == State::Finished);
        }
        lemma_rounds_progress(edges, next, (k - 1) as nat);
    }
}

/// Every node of an acyclic graph runs: when every task succeeds, a run that
/// starts with all nodes waiting has finished them all after as many rounds
/// as there are nodes.
pub proof fn lemma_acyclic_run_finishes(edges: Seq<(usize, usize)>, n: nat)
    requires
        n <= usize::MAX,
        edges_within(edges, n),
        forall|c: Seq<usize>| !is_cycle(edges, c),
    ensures
        forall|v: int|
            0 <= v < n ==> #[trigger] run_rounds(edges, all_waiting(n), n)[v] == State::Finished,
{
    let start = all_waiting(n);
    lemma_rounds_progress(edges, start, n);
    let end = run_rounds(edges, start, n);
    lemma_finished_count_bound(end);
}


/// A node is launched at most once: `launch` hands out only waiting nodes and
/// leaves every other node as it was, and neither `launch` nor `complete`
/// ever returns a node to waiting.
pub proof fn lemma_launched_once(edges: Seq<(usize, usize)>, states: Seq<State>, u: int)
    requires
        states.len() <= usize::MAX,
        0 <= u < states.len(),
    ensures
        forall|q: int|
            0 <= q < ready_upto(edges, states, states.len() as int).len() ==> states[#[trigger] ready_upto(
                edges,
                states,
                states.len() as int,
            )[q] as int] == State::Waiting,
        forall|v: int|
            0 <= v < states.len() && states[v] != State::Waiting ==> #[trigger] launched_states(edges, states)[v]
                == states[v],
        forall|v: int|
            0 <= v < states.len() && states[v] != State::Waiting ==> #[trigger] states.update(u, State::Finished)[v]
                != State::Waiting,
{
    lemma_ready_upto(edges, states, states.len() as int);
}

/// Where building the graph succeeds, the edges of a shorter prefix of the
/// nodes begin the edges of a longer one.
proof fn lemma_edges_prefix(nodes: Seq<Node>, k: int, m: int)
    requires
        0 <= k <= m,
        edges_of(nodes, m) is Ok,
    ensures
        edges_of(nodes, k) is Ok,
        edges_of(nodes, k)->Ok_0.len() <= edges_of(nodes, m)->Ok_0.len(),
        forall|j: int|
            0 <= j < edges_of(nodes, k)->Ok_0.len() ==> edges_of(nodes, k)->Ok_0[j] == edges_of(nodes, m)->Ok_0[j],
    decreases m - k,
{
    if k < m {
        lemma_edges_prefix(nodes, k, m - 1);
    }
}

/// Each dependency of a node gives an edge of the graph: from the node its
/// `after` names stand for to the node its own name stands for, and from
/// that node to the node each `before` name stands for.
proof fn lemma_node_edges(nodes: Seq<Node>, i: int)
    requires
        0 <= i < nodes.len(),
        edges_of(nodes, nodes.len() as int) is Ok,
    ensures
        lookup(names(nodes), nodes[i].name@) is Some,
        forall|q: int|
            0 <= q < nodes[i].after@.len() ==> lookup(names(nodes), #[trigger] nodes[i].after@[q]@) is Some
                && has_edge(
                edges_of(nodes, nodes.len() as int)->Ok_0,
                lookup(names(nodes), nodes[i].after@[q]@)->0 as int,
                lookup(names(nodes), nodes[i].name@)->0 as int,
            ),
        forall|q: int|
            0 <= q < nodes[i].before@.len() ==> lookup(names(nodes), #[trigger] nodes[i].before@[q]@) is Some
                && has_edge(
                edges_of(nodes, nodes.len() as int)->Ok_0,
                lookup(names(nodes), nodes[i].name@)->0 as int,
                lookup(names(nodes), nodes[i].before@[q]@)->0 as int,
            ),
{
    let nm = names(nodes);
    let n = nodes[i];
    let em = edges_of(nodes, nodes.len() as int)->Ok_0;
    lemma_edges_prefix(nodes, i, nodes.len() as int);
    lemma_edges_prefix(nodes, i + 1, nodes.len() as int);
    let es = edges_of(nodes, i)->Ok_0;
    let e1 = edges_of(nodes, i + 1)->Ok_0;
    let wa = views(n.after@);
    let wb = views(n.before@);
    assert(nm[i] == n.name@);
    lemma_lookup_own(nm, i);
    lemma_resolve_ok(nm, wa);
    lemma_resolve_ok(nm, wb);
    let me = lookup(nm, n.name@)->0;
    let afters = resolve(nm, wa)->Ok_0;
    let befores = resolve(nm, wb)->Ok_0;
    assert(e1 == es + afters.map_values(|a: usize| (a, me)) + befores.map_values(|b: usize| (me, b)));
    assert forall|q: int| 0 <= q < n.after@.len() implies lookup(nm, #[trigger] n.after@[q]@) is Some && has_edge(
        em,
        lookup(nm, n.after@[q]@)->0 as int,
        me as int,
    ) by {
        assert(wa[q] == n.after@[q]@);
        let k = es.len() + q;
        assert(e1[k] == (afters[q], me));
        assert(em[k] == e1[k]);
    }
    assert forall|q: int| 0 <= q < n.before@.len() implies lookup(nm, #[trigger] n.before@[q]@) is Some && has_edge(
        em,
        me as int,
        lookup(nm, n.before@[q]@)->0 as int,
    ) by {
        assert(wb[q] == n.before@[q]@);
        let k = es.len() + afters.len() + q;
        assert(e1[k] == (me, befores[q]));
        assert(em[k] == e1[k]);
    }
}

/// A node runs only after the nodes named by its `after` list have
/// finished, and the nodes named by its `before` list run only after it has
/// finished; a name stands for the last node that carries it.
pub proof fn lemma_runs_after_named(s: Schedule, nodes: Seq<Node>)
    requires
        s.wf(),
        edges_of(nodes, nodes.len() as int) == Ok::<Seq<(usize, usize)>, MissingLink>(s.edges()),
    ensures
        forall|i: int, q: int|
            0 <= i < nodes.len() && 0 <= q < nodes[i].after@.len() && s.states()[lookup(
                names(nodes),
                nodes[i].name@,
            )->0 as int] != State::Waiting ==> s.states()[lookup(names(nodes), #[trigger] nodes[i].after@[q]@)->0 as int]
                == State::Finished,
        forall|i: int, q: int|
            0 <= i < nodes.len() && 0 <= q < nodes[i].before@.len() && s.states()[lookup(
                names(nodes),
                #[trigger] nodes[i].before@[q]@,
            )->0 as int] != State::Waiting ==> s.states()[lookup(names(nodes), nodes[i].name@)->0 as int]
                == State::Finished,
{
    let es = s.edges();
    assert forall|i: int, q: int|
        0 <= i < nodes.len() && 0 <= q < nodes[i].after@.len() && s.states()[lookup(names(nodes), nodes[i].name@)->0 as int]
            != State::Waiting implies s.states()[lookup(names(nodes), #[trigger] nodes[i].after@[q]@)->0 as int]
        == State::Finished by {
        lemma_node_edges(nodes, i);
        assert(lookup(names(nodes), nodes[i].after@[q]@) is Some);
        let k = choose|k: int|
            0 <= k < es.len() && es[k].0 == lookup(names(nodes), nodes[i].after@[q]@)->0 as int && es[k].1
                == lookup(names(nodes), nodes[i].name@)->0 as int;
    }
    assert forall|i: int, q: int|
        0 <= i < nodes.len() && 0 <= q < nodes[i].before@.len() && s.states()[lookup(
            names(nodes),
            #[trigger] nodes[i].before@[q]@,
        )->0 as int] != State::Waiting implies s.states()[lookup(names(nodes), nodes[i].name@)->0 as int]
        == State::Finished by {
        lemma_node_edges(nodes, i);
        assert(lookup(names(nodes), nodes[i].before@[q]@) is Some);
        let k = choose|k: int|
            0 <= k < es.len() && es[k].0 == lookup(names(nodes), nodes[i].name@)->0 as int && es[k].1
                == lookup(names(nodes), nodes[i].before@[q]@)->0 as int;
    }
}

/// Whether `edges` holds an edge from the `j`-th node of `p` to the next.
pub open spec fn path_step(edges: Seq<(usize, usize)>, p: Seq<usize>, j: int) -> bool {
    has_edge(edges, p[j] as int, p[j + 1] as int)
}

/// Whether `p` is a path of `edges`: an edge from each of its nodes to the
/// next.
pub open spec fn is_path(edges: Seq<(usize, usize)>, p: Seq<usize>) -> bool {
    &&& p.len() >= 1
    &&& forall|j: int| 0 <= j < p.len() - 1 ==> #[trigger] path_step(edges, p, j)
}

/// Along a path, a node that has left the waiting state has every earlier
/// node finished or launched too.
proof fn lemma_path_back(s: Schedule, p: Seq<usize>, m: int)
    requires
        s.wf(),
        is_path(s.edges(), p),
        0 <= m < p.len(),
        p[m] < s.size(),
        s.states()[p[m] as int] != State::Waiting,
    ensures
        forall|j: int| 0 <= j <= m ==> p[j] < s.size() && s.states()[#[trigger] p[j] as int] != State::Waiting,
    decreases m,
{
    if m > 0 {
        let es = s.edges();
        assert(path_step(es, p, m - 1));
        let k = choose|k: int| 0 <= k < es.len() && es[k].0 == p[m - 1] as int && es[k].1 == p[m] as int;
        lemma_path_back(s, p, m - 1);
    }
}

/// Nodes downstream of a dependency cycle never run: in every state of a
/// run, the end of a path that starts on a cycle still waits.
pub proof fn lemma_downstream_of_cycle_never_runs(s: Schedule, c: Seq<usize>, p: Seq<usize>)
    requires
        s.wf(),
        is_cycle(s.edges(), c),
        is_path(s.edges(), p),
        c.contains(p[0]),
    ensures
        s.states()[p.last() as int] == State::Waiting,
{
    let es = s.edges();
    let m = p.len() - 1;
    if m > 0 {
        assert(path_step(es, p, m - 1));
        let k = choose|k: int| 0 <= k < es.len() && es[k].0 == p[m - 1] as int && es[k].1 == p[m] as int;
    } else {
        let i = choose|i: int| 0 <= i < c.len() && c[i] == p[0];
        assert(has_edge(es, c[i] as int, cycle_next(c, i) as int));
    }
    assert(p.last() == p[m]);
    if s.states()[p[m] as int] != State::Waiting {
        lemma_path_back(s, p, m);
        lemma_cycle_never_runs(s, c);
        let i = choose|i: int| 0 <= i < c.len() && c[i] == p[0];
        assert(s.states()[c[i] as int] == State::Waiting);
    }
}

/// Whether some path of `len` edges ends at `v`.
pub open spec fn has_path_into(edges: Seq<(usize, usize)>, v: int, len: nat) -> bool {
    exists|p: Seq<usize>| #[trigger] is_path(edges, p) && p.len() == len + 1 && p.last() == v
}

/// Running one more round is one more `round_step` at the end.
proof fn lemma_run_rounds_last(edges: Seq<(usize, usize)>, states: Seq<State>, k: nat)
    ensures
        run_rounds(edges, states, k + 1) == round_step(edges, run_rounds(edges, states, k)),
        run_rounds(edges, states, k).len() == states.len(),
    decreases k,
{
    if k > 0 {
        let next = round_step(edges, states);
        lemma_run_rounds_last(edges, next, (k - 1) as nat);
        assert(run_rounds(edges, states, k + 1) == run_rounds(edges, next, k));
        assert(run_rounds(edges, states, k) == run_rounds(edges, next, (k - 1) as nat));
        assert(((k - 1) as nat) + 1 == k);
    } else {
        assert(run_rounds(edges, states, 1) == run_rounds(edges, round_step(edges, states), 0));
    }
}

/// After `k` rounds in which every task succeeds, every node that no path of
/// `k` edges ends at has finished, and no node is running; this holds whether
/// or not the graph has cycles.
pub proof fn lemma_depth_rounds(edges: Seq<(usize, usize)>, n: nat, k: nat)
    requires
        n <= usize::MAX,
        edges_within(edges, n),
    ensures
        run_rounds(edges, all_waiting(n), k).len() == n,
        forall|v: int| 0 <= v < n ==> run_rounds(edges, all_waiting(n), k)[v] != State::Running,
        forall|v: int|
            0 <= v < n && !has_path_into(edges, v, k) ==> #[trigger] run_rounds(edges, all_waiting(n), k)[v]
                == State::Finished,
    decreases k,
{
    let start = all_waiting(n);
    lemma_run_rounds_last(edges, start, k);
    if k == 0 {
        assert forall|v: int| 0 <= v < n implies has_path_into(edges, v, 0) by {
            let p = seq![v as usize];
            assert(is_path(edges, p));
        }
    } else {
        let km = (k - 1) as nat;
        lemma_depth_rounds(edges, n, km);
        lemma_run_rounds_last(edges, start, km);
        let prev = run_rounds(edges, start, km);
        let cur = run_rounds(edges, start, k);
        assert(cur == round_step(edges, prev));
        assert forall|v: int| 0 <= v < n && !has_path_into(edges, v, k) implies #[trigger] cur[v]
            == State::Finished by {
            if prev[v] != State::Finished {
                assert forall|j: int| 0 <= j < edges.len() && edges[j].1 == v implies prev[edges[j].0 as int]
                    == State::Finished by {
                    let u = edges[j].0 as int;
                    if has_path_into(edges, u, km) {
                        let p = choose|p: Seq<usize>| #[trigger] is_path(edges, p) && p.len() == km + 1 && p.last() == u;
                        let q = p.push(v as usize);
                        assert forall|t: int| 0 <= t < q.len() - 1 implies #[trigger] path_step(edges, q, t) by {
                            if t < p.len() - 1 {
                                assert(path_step(edges, p, t));
                            } else {
                                assert(q[t] == p.last());
                            }
                        }
                        assert(is_path(edges, q));
                        assert(q.last() == v);
                    }
                }
                assert(is_ready(edges, prev, v));
            }
        }
    }
}

/// A run finishes within the round limit when no path of the graph has more
/// than `ROUND_LIMIT - 1` edges and every task succeeds: after
/// `ROUND_LIMIT` rounds from all nodes waiting, every node has finished.
pub proof fn lemma_shallow_run_finishes(edges: Seq<(usize, usize)>, n: nat)
    requires
        n <= usize::MAX,
        edges_within(edges, n),
        forall|v: int| 0 <= v < n ==> !has_path_into(edges, v, ROUND_LIMIT as nat),
    ensures
        forall|v: int|
            0 <= v < n ==> #[trigger] run_rounds(edges, all_waiting(n), ROUND_LIMIT as nat)[v] == State::Finished,
{
    lemma_depth_rounds(edges, n, ROUND_LIMIT as nat);
}

} // verus!
