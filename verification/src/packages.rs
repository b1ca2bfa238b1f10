//! Resolution of the transitive dependency graph of a package.
//!
//! A repository maps package names to descriptor texts. Resolution
//! builds a tree of [`Node`]s rooted at a requested package by parsing
//! each descriptor and recursing into its `REQUIRES` entries, in
//! declared order. A name already under resolution on the current path
//! becomes a `CyclicReference` leaf; a name without a descriptor
//! becomes an `Unresolved` leaf; a descriptor that fails to parse
//! becomes an `IntegrityError` leaf. A cache keyed by package name
//! makes every name resolve at most once across branches.

use crate::info_file_parser::clone_string_vec;
use crate::info_file_parser::init_view;
use crate::info_file_parser::spec_parse;
use crate::info_file_parser::str_eq;
use crate::info_file_parser::SboInfo;
use crate::info_file_parser::SboInfoView;
use vstd::prelude::*;
use vstd::seq_lib::seq_to_set_is_finite;

verus! {

/// Outcome of resolving one package name.
#[derive(Debug, Clone, Copy, PartialEq, Eq, Structural)]
pub enum NodeStatus {
    /// A descriptor was found and parsed; children cover its requirements.
    Resolved,
    /// No descriptor matches the name.
    Unresolved,
    /// The name was already being resolved on the current path.
    CyclicReference,
    /// The descriptor failed to parse as a unit.
    IntegrityError,
}

/// One position of the resolved dependency graph.
#[derive(Debug, PartialEq)]
pub struct Node {
    pub name: String,
    pub children: Vec<Node>,
    pub details: Option<SboInfo>,
    pub status: NodeStatus,
}

/// Mathematical model of a node.
#[verifier::ext_equal]
pub struct NodeView {
    pub name: Seq<char>,
    pub children: Seq<NodeView>,
    pub details: Option<SboInfoView>,
    pub status: NodeStatus,
}

/// The model of a node: its fields, children modelled recursively.
pub open spec fn node_view(n: Node) -> NodeView
    decreases n,
{
    NodeView {
        name: n.name@,
        children: nodes_view(n.children@),
        details: match n.details {
            Some(d) => Some(d@),
            None => None,
        },
        status: n.status,
    }
}

/// The models of a sequence of nodes, in order.
pub open spec fn nodes_view(s: Seq<Node>) -> Seq<NodeView>
    decreases s,
{
    if s.len() == 0 {
        Seq::empty()
    } else {
        seq![node_view(s[0])] + nodes_view(s.subrange(1, s.len() as int))
    }
}

/// The length and the elements of the model of a node sequence.
pub proof fn lemma_nodes_view(s: Seq<Node>)
    ensures
        nodes_view(s).len() == s.len(),
        forall|i: int| 0 <= i < s.len() ==> nodes_view(s)[i] == node_view(s[i]),
    decreases s,
{
    if s.len() == 0 {
    } else {
        lemma_nodes_view(s.subrange(1, s.len() as int));
        assert forall|i: int| 0 <= i < s.len() implies nodes_view(s)[i] == node_view(s[i]) by {
            if i > 0 {
                assert(s.subrange(1, s.len() as int)[i - 1] == s[i]);
            }
        }
    }
}

/// Appending one node appends its model.
proof fn lemma_nodes_view_push(s: Seq<Node>, x: Node)
    ensures
        nodes_view(s.push(x)) == nodes_view(s).push(node_view(x)),
{
    lemma_nodes_view(s);
    lemma_nodes_view(s.push(x));
    assert(nodes_view(s.push(x)) =~= nodes_view(s).push(node_view(x)));
}

/// A copy of a node, with the same model.
fn clone_node(n: &Node) -> (r: Node)
    ensures
        node_view(r) == node_view(*n),
    decreases *n,
{
    let mut children: Vec<Node> = Vec::new();
    let mut i: usize = 0;
    while i < n.children.len()
        invariant
            i <= n.children.len(),
            children@.len() == i,
            forall|j: int| 0 <= j < i ==> node_view(children@[j]) == node_view(n.children@[j]),
        decreases n.children.len() - i,
    {
        let c = clone_node(&n.children[i]);
        children.push(c);
        i += 1;
    }
    let details = match &n.details {
        Some(d) => Some(d.clone()),
        None => None,
    };
    let r = Node { name: n.name.clone(), children, details, status: n.status };
    proof {
        lemma_nodes_view(r.children@);
        lemma_nodes_view(n.children@);
        assert(nodes_view(r.children@) =~= nodes_view(n.children@));
        assert(node_view(r) =~= node_view(*n));
    }
    r
}

impl Clone for Node {
    /// A copy of the node, with the same model.
    fn clone(&self) -> (r: Self)
        ensures
            node_view(r) == node_view(*self),
    {
        clone_node(self)
    }
}

impl Node {
    /// A node made of the given parts.
    pub fn new(name: String, children: Vec<Node>, details: Option<SboInfo>, status: NodeStatus) -> (r: Node)
        ensures
            node_view(r) == (NodeView {
                name: name@,
                children: nodes_view(children@),
                details: match details {
                    Some(d) => Some(d@),
                    None => None,
                },
                status: status,
            }),
    {
        Node { name, children, details, status }
    }
}

/// A repository of descriptors: package names paired with the raw
/// text of their descriptor files, in the order they were found.
/// A name that occurs more than once keeps its first text, so the
/// caller's enumeration order makes the choice deterministic.
pub struct Repository {
    entries: Vec<(String, String)>,
}

impl View for Repository {
    type V = Seq<(Seq<char>, Seq<char>)>;

    closed spec fn view(&self) -> Seq<(Seq<char>, Seq<char>)> {
        Seq::new(self.entries@.len(), |i: int| (self.entries@[i].0@, self.entries@[i].1@))
    }
}

/// The text of the first entry at or after `i` whose name matches.
pub open spec fn spec_locate_at(
    repo: Seq<(Seq<char>, Seq<char>)>,
    name: Seq<char>,
    i: int,
) -> Option<Seq<char>>
    decreases repo.len() - i,
    when 0 <= i
{
    if i >= repo.len() {
        None
    } else if repo[i].0 == name {
        Some(repo[i].1)
    } else {
        spec_locate_at(repo, name, i + 1)
    }
}

/// The descriptor text of a package, if the repository holds one.
pub open spec fn spec_locate(repo: Seq<(Seq<char>, Seq<char>)>, name: Seq<char>) -> Option<
    Seq<char>,
> {
    spec_locate_at(repo, name, 0)
}

impl Repository {
    /// A repository with no entries.
    pub fn new() -> (r: Repository)
        ensures
            r@ == Seq::<(Seq<char>, Seq<char>)>::empty(),
    {
        let r = Repository { entries: Vec::new() };
        proof {
            assert(r@ =~= Seq::<(Seq<char>, Seq<char>)>::empty());
        }
        r
    }

    /// Adds one descriptor text under a package name, after all
    /// earlier entries.
    pub fn add(&mut self, name: String, text: String)
        ensures
            final(self)@ == old(self)@.push((name@, text@)),
    {
        let ghost before = self@;
        self.entries.push((name, text));
        proof {
            assert(self@ =~= before.push((name@, text@)));
        }
    }

    /// The descriptor text of a package: the first entry with that
    /// name, or nothing when no entry matches.
    pub fn locate<'a>(&'a self, name: &str) -> (r: Option<&'a String>)
        ensures
            match r {
                Some(t) => spec_locate(self@, name@) == Some(t@),
                None => spec_locate(self@, name@) is None,
            },
    {
        let mut i: usize = 0;
        while i < self.entries.len()
            invariant
                i <= self.entries.len(),
                spec_locate(self@, name@) == spec_locate_at(self@, name@, i as int),
            decreases self.entries.len() - i,
        {
            if str_eq(self.entries[i].0.as_str(), name) {
                return Some(&self.entries[i].1);
            }
            i += 1;
        }
        None
    }
}

/// The model of a memoization cache: resolved names with their nodes.
pub open spec fn cache_view(c: Vec<(String, Node)>) -> Seq<(Seq<char>, NodeView)> {
    Seq::new(c@.len(), |i: int| (c@[i].0@, node_view(c@[i].1)))
}

/// The node of the first cache entry at or after `i` whose name matches.
pub open spec fn cache_lookup_at(
    cache: Seq<(Seq<char>, NodeView)>,
    name: Seq<char>,
    i: int,
) -> Option<NodeView>
    decreases cache.len() - i,
    when 0 <= i
{
    if i >= cache.len() {
        None
    } else if cache[i].0 == name {
        Some(cache[i].1)
    } else {
        cache_lookup_at(cache, name, i + 1)
    }
}

/// The cached node of a name, if the cache holds one.
pub open spec fn cache_lookup(cache: Seq<(Seq<char>, NodeView)>, name: Seq<char>) -> Option<
    NodeView,
> {
    cache_lookup_at(cache, name, 0)
}

/// The names the repository holds, as a sequence.
pub open spec fn repo_name_seq(repo: Seq<(Seq<char>, Seq<char>)>) -> Seq<Seq<char>> {
    repo.map_values(|e: (Seq<char>, Seq<char>)| e.0)
}

/// How much work resolution may still do under a path: the number of
/// repository names not yet on the path.
pub open spec fn resolve_measure(repo: Seq<(Seq<char>, Seq<char>)>, path: Seq<Seq<char>>) -> nat {
    repo_name_seq(repo).to_set().difference(path.to_set()).len()
}

/// A located name is one of the repository's names.
pub proof fn lemma_locate_in_names(repo: Seq<(Seq<char>, Seq<char>)>, name: Seq<char>, i: int)
    requires
        0 <= i,
        spec_locate_at(repo, name, i) is Some,
    ensures
        repo_name_seq(repo).to_set().contains(name),
    decreases repo.len() - i,
{
    if i >= repo.len() {
    } else if repo[i].0 == name {
        assert(repo_name_seq(repo)[i] == name);
        assert(repo_name_seq(repo).contains(name));
    } else {
        lemma_locate_in_names(repo, name, i + 1);
    }
}

/// Stepping into a located name that is not yet on the path shrinks
/// the measure of remaining work.
pub proof fn lemma_measure_decreases(
    repo: Seq<(Seq<char>, Seq<char>)>,
    path: Seq<Seq<char>>,
    name: Seq<char>,
)
    requires
        spec_locate(repo, name) is Some,
        !path.contains(name),
    ensures
        resolve_measure(repo, path.push(name)) < resolve_measure(repo, path),
{
    broadcast use seq_to_set_is_finite;

    lemma_locate_in_names(repo, name, 0);
    path.lemma_push_to_set_commute(name);
    assert(!path.to_set().contains(name));
    repo_name_seq(repo).to_set().lemma_set_insert_diff_decreases(path.to_set(), name);
}

/// The node resolved for `name` under a path of names still being
/// resolved, together with the cache grown by this resolution.
///
/// A cached name keeps its node, untouched; a name on the path is a
/// cycle and becomes a `CyclicReference` leaf; a name without a
/// descriptor becomes an `Unresolved` leaf; a descriptor that fails
/// to parse becomes an `IntegrityError` leaf; otherwise the node is
/// `Resolved`, with one child per `REQUIRES` entry, in declared order.
pub open spec fn spec_resolve(
    repo: Seq<(Seq<char>, Seq<char>)>,
    cache: Seq<(Seq<char>, NodeView)>,
    path: Seq<Seq<char>>,
    name: Seq<char>,
) -> (NodeView, Seq<(Seq<char>, NodeView)>)
    decreases resolve_measure(repo, path), 0nat, 0nat,
{
    match cache_lookup(cache, name) {
        Some(n) => (n, cache),
        None => {
            if path.contains(name) {
                (
                    NodeView {
                        name: name,
                        children: Seq::empty(),
                        details: None,
                        status: NodeStatus::CyclicReference,
                    },
                    cache,
                )
            } else {
                match spec_locate(repo, name) {
                    None => {
                        let n = NodeView {
                            name: name,
                            children: Seq::empty(),
                            details: None,
                            status: NodeStatus::Unresolved,
                        };
                        (n, cache.push((name, n)))
                    },
                    Some(text) => {
                        match spec_parse(init_view(), text) {
                            None => {
                                let n = NodeView {
                                    name: name,
                                    children: Seq::empty(),
                                    details: None,
                                    status: NodeStatus::IntegrityError,
                                };
                                (n, cache.push((name, n)))
                            },
                            Some(d) => {
                                proof {
                                    lemma_measure_decreases(repo, path, name);
                                }
                                let rl = spec_resolve_list(
                                    repo,
                                    cache,
                                    path.push(name),
                                    d.requires,
                                    0,
                                );
                                let n = NodeView {
                                    name: name,
                                    children: rl.0,
                                    details: Some(d),
                                    status: NodeStatus::Resolved,
                                };
                                (n, rl.1.push((name, n)))
                            },
                        }
                    },
                }
            }
        },
    }
}

/// The nodes resolved for the names from position `i` on, in order,
/// each resolution seeing the cache its predecessors grew.
pub open spec fn spec_resolve_list(
    repo: Seq<(Seq<char>, Seq<char>)>,
    cache: Seq<(Seq<char>, NodeView)>,
    path: Seq<Seq<char>>,
    names: Seq<Seq<char>>,
    i: int,
) -> (Seq<NodeView>, Seq<(Seq<char>, NodeView)>)
    decreases resolve_measure(repo, path), 1nat, names.len() - i,
    when 0 <= i
{
    if i >= names.len() {
        (Seq::empty(), cache)
    } else {
        let first = spec_resolve(repo, cache, path, names[i]);
        let rest = spec_resolve_list(repo, first.1, path, names, i + 1);
        (seq![first.0] + rest.0, rest.1)
    }
}

/// Whether one of the names on the path holds the same characters.
fn path_contains(path: &Vec<String>, name: &str) -> (r: bool)
    ensures
        r == path.deep_view().contains(name@),
{
    let mut i: usize = 0;
    while i < path.len()
        invariant
            i <= path.len(),
            forall|j: int| 0 <= j < i ==> path.deep_view()[j] != name@,
        decreases path.len() - i,
    {
        if str_eq(path[i].as_str(), name) {
            proof {
                assert(path.deep_view()[i as int] == name@);
            }
            return true;
        }
        i += 1;
    }
    proof {
        assert(!path.deep_view().contains(name@));
    }
    false
}

/// The cached node of a name, if the cache holds one.
fn cache_get<'a>(cache: &'a Vec<(String, Node)>, name: &str) -> (r: Option<&'a Node>)
    ensures
        match r {
            Some(n) => cache_lookup(cache_view(*cache), name@) == Some(node_view(*n)),
            None => cache_lookup(cache_view(*cache), name@) is None,
        },
{
    let mut i: usize = 0;
    while i < cache.len()
        invariant
            i <= cache.len(),
            cache_lookup(cache_view(*cache), name@) == cache_lookup_at(
                cache_view(*cache),
                name@,
                i as int,
            ),
        decreases cache.len() - i,
    {
        if str_eq(cache[i].0.as_str(), name) {
            return Some(&cache[i].1);
        }
        i += 1;
    }
    None
}

/// Resolves one name under the given path, reading and growing the
/// cache, exactly as `spec_resolve` says.
fn resolve_rec(repo: &Repository, cache: &mut Vec<(String, Node)>, path: &Vec<String>, name: &str) -> (r: Node)
    ensures
        node_view(r) == spec_resolve(
            repo@,
            cache_view(*old(cache)),
            path.deep_view(),
            name@,
        ).0,
        cache_view(*final(cache)) == spec_resolve(
            repo@,
            cache_view(*old(cache)),
            path.deep_view(),
            name@,
        ).1,
    decreases resolve_measure(repo@, path.deep_view()),
{
    let cached = cache_get(cache, name);
    if let Some(n) = cached {
        let r = clone_node(n);
        return r;
    }
    if path_contains(path, name) {
        let r = Node {
            name: name.to_owned(),
            children: Vec::new(),
            details: None,
            status: NodeStatus::CyclicReference,
        };
        proof {
            assert(node_view(r) =~= spec_resolve(
                repo@,
                cache_view(*cache),
                path.deep_view(),
                name@,
            ).0);
        }
        return r;
    }
    match repo.locate(name) {
        None => {
            let r = Node {
                name: name.to_owned(),
                children: Vec::new(),
                details: None,
                status: NodeStatus::Unresolved,
            };
            let copy = clone_node(&r);
            let ghost before = cache_view(*cache);
            cache.push((name.to_owned(), copy));
            proof {
                assert(node_view(r) =~= spec_resolve(repo@, before, path.deep_view(), name@).0);
                assert(cache_view(*cache) =~= before.push((name@, node_view(r))));
            }
            r
        },
        Some(text) => {
            let mut info = SboInfo::new();
            if info.from_str(text.as_str()).is_err() {
                let r = Node {
                    name: name.to_owned(),
                    children: Vec::new(),
                    details: None,
                    status: NodeStatus::IntegrityError,
                };
                let copy = clone_node(&r);
                let ghost before = cache_view(*cache);
                cache.push((name.to_owned(), copy));
                proof {
                    assert(node_view(r) =~= spec_resolve(
                        repo@,
                        before,
                        path.deep_view(),
                        name@,
                    ).0);
                    assert(cache_view(*cache) =~= before.push((name@, node_view(r))));
                }
                return r;
            }
            let ghost d = info@;
            let mut path2 = clone_string_vec(path);
            path2.push(name.to_owned());
            proof {
                assert(path2.deep_view() =~= path.deep_view().push(name@));
                lemma_measure_decreases(repo@, path.deep_view(), name@);
            }
            let ghost p2 = path2.deep_view();
            let ghost cache0 = cache_view(*cache);
            let mut children: Vec<Node> = Vec::new();
            let mut idx: usize = 0;
            while idx < info.requires.len()
                invariant
                    idx <= info.requires.len(),
                    info.requires.deep_view() == d.requires,
                    children@.len() == idx,
                    p2 == path2.deep_view(),
                    p2 == path.deep_view().push(name@),
                    resolve_measure(repo@, p2) < resolve_measure(repo@, path.deep_view()),
                    spec_resolve_list(repo@, cache0, p2, d.requires, 0).0 == nodes_view(children@)
                        + spec_resolve_list(
                        repo@,
                        cache_view(*cache),
                        p2,
                        d.requires,
                        idx as int,
                    ).0,
                    spec_resolve_list(repo@, cache0, p2, d.requires, 0).1 == spec_resolve_list(
                        repo@,
                        cache_view(*cache),
                        p2,
                        d.requires,
                        idx as int,
                    ).1,
                decreases info.requires.len() - idx,
            {
                let ghost cache_in = cache_view(*cache);
                let ghost old_children = children@;
                let child = resolve_rec(repo, cache, &path2, info.requires[idx].as_str());
                children.push(child);
                proof {
                    assert(info.requires[idx as int]@ == d.requires[idx as int]);
                    lemma_nodes_view_push(old_children, children@[idx as int]);
                    assert(nodes_view(children@) =~= nodes_view(old_children).push(
                        node_view(children@[idx as int]),
                    ));
                    assert(spec_resolve_list(repo@, cache_in, p2, d.requires, idx as int).0
                        =~= seq![
                        spec_resolve(repo@, cache_in, p2, d.requires[idx as int]).0,
                    ] + spec_resolve_list(
                        repo@,
                        cache_view(*cache),
                        p2,
                        d.requires,
                        idx as int + 1,
                    ).0);
                    assert(spec_resolve_list(repo@, cache0, p2, d.requires, 0).0 =~= nodes_view(
                        children@,
                    ) + spec_resolve_list(
                        repo@,
                        cache_view(*cache),
                        p2,
                        d.requires,
                        idx as int + 1,
                    ).0);
                }
                idx += 1;
            }
            let ghost rl = spec_resolve_list(repo@, cache0, p2, d.requires, 0);
            proof {
                assert(rl.0 =~= nodes_view(children@));
                assert(rl.1 == cache_view(*cache));
            }
            let r = Node {
                name: name.to_owned(),
                children,
                details: Some(info),
                status: NodeStatus::Resolved,
            };
            let copy = clone_node(&r);
            let ghost grown = cache_view(*cache);
            cache.push((name.to_owned(), copy));
            proof {
                assert(node_view(r) =~= spec_resolve(repo@, cache0, path.deep_view(), name@).0);
                assert(cache_view(*cache) =~= grown.push((name@, node_view(r))));
            }
            r
        },
    }
}

/// Structural soundness of a node, through the whole tree: a node
/// carries a descriptor exactly when it is `Resolved`, and then one
/// child per `REQUIRES` entry of that descriptor, named after it and
/// sound in turn; any other status is a leaf.
pub open spec fn node_wf(n: NodeView) -> bool
    decreases n,
{
    &&& match n.details {
        Some(d) => {
            &&& n.status == NodeStatus::Resolved
            &&& n.children.len() == d.requires.len()
            &&& forall|i: int| 0 <= i < n.children.len() ==> n.children[i].name == d.requires[i]
        },
        None => n.status != NodeStatus::Resolved && n.children.len() == 0,
    }
    &&& forall|i: int| 0 <= i < n.children.len() ==> node_wf(#[trigger] n.children[i])
}

/// Structural soundness of a cache: every entry holds a sound node,
/// filed under that node's own name.
pub open spec fn cache_wf(cache: Seq<(Seq<char>, NodeView)>) -> bool {
    forall|i: int|
        0 <= i < cache.len() ==> node_wf(#[trigger] cache[i].1) && cache[i].0 == cache[i].1.name
}

/// A hit in a sound cache is a sound node filed under the looked-up name.
proof fn lemma_cache_lookup_wf(cache: Seq<(Seq<char>, NodeView)>, name: Seq<char>, i: int)
    requires
        cache_wf(cache),
        0 <= i,
        cache_lookup_at(cache, name, i) is Some,
    ensures
        node_wf(cache_lookup_at(cache, name, i).unwrap()),
        cache_lookup_at(cache, name, i).unwrap().name == name,
    decreases cache.len() - i,
{
    if i >= cache.len() {
    } else if cache[i].0 == name {
    } else {
        lemma_cache_lookup_wf(cache, name, i + 1);
    }
}

/// Resolution keeps structural soundness: starting from a sound
/// cache, the resolved node is sound, named after the requested
/// name, and the grown cache is sound again.
pub proof fn lemma_resolve_wf(
    repo: Seq<(Seq<char>, Seq<char>)>,
    cache: Seq<(Seq<char>, NodeView)>,
    path: Seq<Seq<char>>,
    name: Seq<char>,
)
    requires
        cache_wf(cache),
    ensures
        node_wf(spec_resolve(repo, cache, path, name).0),
        spec_resolve(repo, cache, path, name).0.name == name,
        cache_wf(spec_resolve(repo, cache, path, name).1),
    decreases resolve_measure(repo, path), 0nat, 0nat,
{
    match cache_lookup(cache, name) {
        Some(n) => {
            lemma_cache_lookup_wf(cache, name, 0);
        },
        None => {
            if path.contains(name) {
            } else {
                match spec_locate(repo, name) {
                    None => {
                        let n = spec_resolve(repo, cache, path, name).0;
                        assert forall|i: int|
                            0 <= i < cache.push((name, n)).len() implies node_wf(
                            #[trigger] cache.push((name, n))[i].1,
                        ) && cache.push((name, n))[i].0 == cache.push((name, n))[i].1.name by {
                            if i < cache.len() {
                                assert(node_wf(cache[i].1));
                            }
                        }
                    },
                    Some(text) => {
                        match spec_parse(init_view(), text) {
                            None => {
                                let n = spec_resolve(repo, cache, path, name).0;
                                assert forall|i: int|
                                    0 <= i < cache.push((name, n)).len() implies node_wf(
                                    #[trigger] cache.push((name, n))[i].1,
                                ) && cache.push((name, n))[i].0 == cache.push((name, n))[i].1.name by {
                                    if i < cache.len() {
                                        assert(node_wf(cache[i].1));
                                    }
                                }
                            },
                            Some(d) => {
                                lemma_measure_decreases(repo, path, name);
                                lemma_resolve_list_wf(
                                    repo,
                                    cache,
                                    path.push(name),
                                    d.requires,
                                    0,
                                );
                                let rl = spec_resolve_list(
                                    repo,
                                    cache,
                                    path.push(name),
                                    d.requires,
                                    0,
                                );
                                let n = spec_resolve(repo, cache, path, name).0;
                                assert(node_wf(n));
                                assert forall|i: int|
                                    0 <= i < rl.1.push((name, n)).len() implies node_wf(
                                    #[trigger] rl.1.push((name, n))[i].1,
                                ) && rl.1.push((name, n))[i].0 == rl.1.push((name, n))[i].1.name by {
                                    if i < rl.1.len() {
                                        assert(node_wf(rl.1[i].1));
                                    }
                                }
                            },
                        }
                    },
                }
            }
        },
    }
}

/// Resolving a list of names keeps structural soundness: one sound
/// node per name, each named after its entry, and a sound cache out.
pub proof fn lemma_resolve_list_wf(
    repo: Seq<(Seq<char>, Seq<char>)>,
    cache: Seq<(Seq<char>, NodeView)>,
    path: Seq<Seq<char>>,
    names: Seq<Seq<char>>,
    i: int,
)
    requires
        cache_wf(cache),
        0 <= i <= names.len(),
    ensures
        spec_resolve_list(repo, cache, path, names, i).0.len() == names.len() - i,
        forall|j: int|
            0 <= j < names.len() - i ==> node_wf(
                #[trigger] spec_resolve_list(repo, cache, path, names, i).0[j],
            ) && spec_resolve_list(repo, cache, path, names, i).0[j].name == names[i + j],
        cache_wf(spec_resolve_list(repo, cache, path, names, i).1),
    decreases resolve_measure(repo, path), 1nat, names.len() - i,
{
    if i >= names.len() {
    } else {
        lemma_resolve_wf(repo, cache, path, names[i]);
        let first = spec_resolve(repo, cache, path, names[i]);
        lemma_resolve_list_wf(repo, first.1, path, names, i + 1);
    }
}

/// Every node of a whole resolution's graph is structurally sound,
/// and the root is `Resolved` under the requested name.
pub proof fn lemma_build_wf(repo: Seq<(Seq<char>, Seq<char>)>, name: Seq<char>, n: NodeView)
    requires
        spec_build(repo, name) == Ok::<NodeView, ResolveError>(n),
    ensures
        node_wf(n),
        n.name == name,
        n.status == NodeStatus::Resolved,
{
    let empty_cache = Seq::<(Seq<char>, NodeView)>::empty();
    let empty_path = Seq::<Seq<char>>::empty();
    lemma_resolve_wf(repo, empty_cache, empty_path, name);
    assert(cache_lookup(empty_cache, name) is None);
    assert(!empty_path.contains(name));
}

/// A name already being resolved on the current path is never
/// descended into again: it resolves to a `CyclicReference` leaf with
/// no children, and the cache is left untouched. Together with the
/// resolver's termination this bounds every resolution, a cyclic
/// `REQUIRES` relationship included, to a finite tree.
pub proof fn lemma_cycle_detected(
    repo: Seq<(Seq<char>, Seq<char>)>,
    cache: Seq<(Seq<char>, NodeView)>,
    path: Seq<Seq<char>>,
    name: Seq<char>,
)
    requires
        cache_lookup(cache, name) is None,
        path.contains(name),
    ensures
        spec_resolve(repo, cache, path, name).0 == (NodeView {
            name: name,
            children: Seq::empty(),
            details: None,
            status: NodeStatus::CyclicReference,
        }),
        spec_resolve(repo, cache, path, name).1 == cache,
{
}

/// A name whose descriptor is absent resolves to an `Unresolved` leaf
/// with no children; only the cache entry for that name is added, so
/// sibling resolutions go on unchanged.
pub proof fn lemma_absent_contained(
    repo: Seq<(Seq<char>, Seq<char>)>,
    cache: Seq<(Seq<char>, NodeView)>,
    path: Seq<Seq<char>>,
    name: Seq<char>,
)
    requires
        cache_lookup(cache, name) is None,
        !path.contains(name),
        spec_locate(repo, name) is None,
    ensures
        spec_resolve(repo, cache, path, name).0 == (NodeView {
            name: name,
            children: Seq::empty(),
            details: None,
            status: NodeStatus::Unresolved,
        }),
        spec_resolve(repo, cache, path, name).1 == cache.push(
            (name, spec_resolve(repo, cache, path, name).0),
        ),
{
}

/// A cached name resolves to its cached node, whatever the current
/// path: two branches that both depend on it receive identical
/// content, and neither locates nor parses its descriptor again.
pub proof fn lemma_memoized(
    repo: Seq<(Seq<char>, Seq<char>)>,
    cache: Seq<(Seq<char>, NodeView)>,
    path1: Seq<Seq<char>>,
    path2: Seq<Seq<char>>,
    name: Seq<char>,
    n: NodeView,
)
    requires
        cache_lookup(cache, name) == Some(n),
    ensures
        spec_resolve(repo, cache, path1, name) == (n, cache),
        spec_resolve(repo, cache, path2, name) == (n, cache),
{
}

/// Error of a whole resolution: the requested root package itself
/// cannot be resolved.
#[derive(Debug, Clone, Copy, PartialEq, Eq, Structural)]
pub enum ResolveError {
    /// No descriptor matches the requested package name.
    NotFound,
    /// The root descriptor's dependency list is gated behind the
    /// sentinel `%README%`.
    RequiresReadme,
}

/// The result of a whole resolution: the root's resolved node, or
/// the error that leaves no graph to return.
pub open spec fn spec_build(repo: Seq<(Seq<char>, Seq<char>)>, name: Seq<char>) -> Result<
    NodeView,
    ResolveError,
> {
    match spec_locate(repo, name) {
        None => Err(ResolveError::NotFound),
        Some(text) => match spec_parse(init_view(), text) {
            None => Err(ResolveError::RequiresReadme),
            Some(_) => Ok(spec_resolve(repo, Seq::empty(), Seq::empty(), name).0),
        },
    }
}

/// Resolves the dependency graph rooted at `package_name`, exactly as
/// `spec_build` says.
///
/// A missing or unreadable root descriptor is a whole-resolution
/// failure; below the root, a missing descriptor, a failing parse or
/// a cycle is contained in its node and leaves the rest of the graph
/// informative. Resolution terminates on any input: a name on the
/// current path is never descended into again, and each descent
/// consumes one repository name.
pub fn build_package_tree(repo: &Repository, package_name: &str) -> (r: Result<
    Node,
    ResolveError,
>)
    ensures
        match r {
            Ok(node) => spec_build(repo@, package_name@) == Ok::<NodeView, ResolveError>(
                node_view(node),
            ),
            Err(e) => spec_build(repo@, package_name@) == Err::<NodeView, ResolveError>(e),
        },
{
    match repo.locate(package_name) {
        None => Err(ResolveError::NotFound),
        Some(text) => {
            let mut probe = SboInfo::new();
            if probe.from_str(text.as_str()).is_err() {
                return Err(ResolveError::RequiresReadme);
            }
            let mut cache: Vec<(String, Node)> = Vec::new();
            let path: Vec<String> = Vec::new();
            proof {
                assert(cache_view(cache) =~= Seq::<(Seq<char>, NodeView)>::empty());
                assert(path.deep_view() =~= Seq::<Seq<char>>::empty());
            }
            let node = resolve_rec(repo, &mut cache, &path, package_name);
            Ok(node)
        },
    }
}

} // verus!
