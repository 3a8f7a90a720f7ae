//! Workspace resolver: the packages of a workspace, their dependencies, and the
//! order in which to build them.

use crate::manifest::{
    keyed_model, keys_of, lemma_first_occurrence, lemma_key_position, lemma_put,
    lemma_put_model, lookup, put, put_entry, string_keys, text_of, unique_keys, key_position,
    Dependency, PackageManifest, WorkspaceManifest,
};
use crate::text::{first_field, str_eq, str_first_field};
use vstd::prelude::*;
use vstd::string::*;

verus! {

/// A package of the workspace with its resolved dependencies, each written
/// `"<name> <version>"`.
#[derive(Debug)]
pub struct ResolvedPackage {
    pub name: String,
    pub manifest: PackageManifest,
    pub path: String,
    pub manifest_path: String,
    pub dependencies: Vec<String>,
}

/// A resolved workspace: its manifest, its packages by name, and the order in which
/// to build them.
#[derive(Debug)]
pub struct ResolvedWorkspace {
    pub manifest: WorkspaceManifest,
    pub packages: Vec<(String, ResolvedPackage)>,
    pub build_order: Vec<String>,
}

// ---------------------------------------------------------------- the dependency graph

/// A dependency graph: each package name with its dependency entries.
pub type Graph = Seq<(Seq<char>, Seq<Seq<char>>)>;

/// The package that a dependency entry names: the text before its first space.
pub open spec fn dep_name(d: Seq<char>) -> Seq<char> {
    first_field(d, ' ')
}

/// The dependency entries of a package.
pub open spec fn dep_texts(p: ResolvedPackage) -> Seq<Seq<char>> {
    p.dependencies@.map_values(|d: String| d@)
}

/// The dependency graph of the packages `ps`.
pub open spec fn dep_graph(ps: Seq<(String, ResolvedPackage)>) -> Graph {
    keyed_model(ps, |p: ResolvedPackage| dep_texts(p))
}

/// `n` is a package of `g`.
pub open spec fn is_package(g: Graph, n: Seq<char>) -> bool {
    keys_of(g).contains(n)
}

/// The dependency entries of package `a` in `g`.
pub open spec fn deps_of(g: Graph, a: Seq<char>) -> Seq<Seq<char>> {
    match lookup(g, a) {
        Some(ds) => ds,
        None => Seq::empty(),
    }
}

/// Package `a` depends on package `b` of `g`.
pub open spec fn edge(g: Graph, a: Seq<char>, b: Seq<char>) -> bool {
    &&& is_package(g, b)
    &&& exists|j: int| 0 <= j < deps_of(g, a).len() && dep_name(#[trigger] deps_of(g, a)[j]) == b
}

/// `c` is a dependency cycle of `g`: each package depends on the next, and the last
/// on the first.
pub open spec fn is_cycle(g: Graph, c: Seq<Seq<char>>) -> bool {
    &&& c.len() > 0
    &&& forall|i: int| 0 <= i < c.len() - 1 ==> #[trigger] edge(g, c[i], c[i + 1])
    &&& edge(g, c.last(), c[0])
}

/// `order` builds every package of `g` once, each after the packages it depends on.
pub open spec fn is_build_order(g: Graph, order: Seq<Seq<char>>) -> bool {
    &&& order.no_duplicates()
    &&& forall|n: Seq<char>| #[trigger] order.contains(n) <==> is_package(g, n)
    &&& forall|i: int, b: Seq<char>|
        0 <= i < order.len() && #[trigger] edge(g, order[i], b) ==> order.take(i).contains(b)
}

/// The error of a build order: it names the first package of a dependency cycle.
pub open spec fn cycle_error(g: Graph, msg: Seq<char>) -> bool {
    exists|c: Seq<Seq<char>>|
        is_cycle(g, c) && msg == "Circular dependency detected: "@ + #[trigger] c[0]
}

/// No order builds each package after its dependencies when they form a cycle.
pub proof fn lemma_cycle_has_no_build_order(g: Graph, c: Seq<Seq<char>>, order: Seq<Seq<char>>)
    requires
        is_cycle(g, c),
    ensures
        !is_build_order(g, order),
{
    if is_build_order(g, order) {
        lemma_no_order_round_cycle(g, c, order);
    }
}

proof fn lemma_no_order_round_cycle(g: Graph, c: Seq<Seq<char>>, order: Seq<Seq<char>>)
    requires
        is_cycle(g, c),
        is_build_order(g, order),
    ensures
        c.len() == 0,
{
    // Each package of the cycle stands in the order before the one that depends on it,
    // so going round the cycle the positions strictly decrease and come back.
    assert(is_package(g, c[0])) by {
        assert(edge(g, c.last(), c[0]));
    }
    assert(order.contains(c[0]));
    let p0 = order.index_of(c[0]);
    lemma_cycle_positions(g, c, order, c.len() - 1);
    let pl = order.index_of(c.last());
    assert(edge(g, order[pl], c[0]));
    assert(order.take(pl).contains(c[0]));
    let q = choose|q: int| 0 <= q < order.take(pl).len() && order.take(pl)[q] == c[0];
    assert(order[q] == c[0]);
    lemma_index_unique(order, q, p0);
}

/// Going round a cycle, each package stands later in a build order than the next.
proof fn lemma_cycle_positions(g: Graph, c: Seq<Seq<char>>, order: Seq<Seq<char>>, k: int)
    requires
        is_cycle(g, c),
        is_build_order(g, order),
        0 <= k < c.len(),
    ensures
        order.contains(c[k]),
        order.index_of(c[k]) <= order.index_of(c[0]) - k,
    decreases k,
{
    if k == 0 {
        assert(is_package(g, c[0])) by {
            assert(edge(g, c.last(), c[0]));
        }
    } else {
        lemma_cycle_positions(g, c, order, k - 1);
        let i = k - 1;
        assert(edge(g, c[i], c[i + 1]));
        assert(c[i + 1] == c[k]);
        let p = order.index_of(c[k - 1]);
        assert(order[p] == c[k - 1]);
        assert(order.take(p).contains(c[k]));
        let q = choose|q: int| 0 <= q < order.take(p).len() && order.take(p)[q] == c[k];
        assert(order[q] == c[k]);
        lemma_index_unique(order, q, order.index_of(c[k]));
    }
}

/// In a sequence without duplicates, an element stands at one position only.
proof fn lemma_index_unique(s: Seq<Seq<char>>, a: int, b: int)
    requires
        s.no_duplicates(),
        0 <= a < s.len(),
        0 <= b < s.len(),
        s[a] == s[b],
    ensures
        a == b,
{
}


// ---------------------------------------------------------------- depth-first visit

/// The mark of a visited package: `false` while its dependencies are being visited,
/// `true` once it stands in the order.
pub open spec fn flag(b: bool) -> bool {
    b
}

/// The model of the visit marks.
pub open spec fn marks(v: Seq<(String, bool)>) -> Seq<(Seq<char>, bool)> {
    keyed_model(v, |b: bool| flag(b))
}

/// The model of a list of names.
pub open spec fn names_of(o: Seq<String>) -> Seq<Seq<char>> {
    o.map_values(|x: String| x@)
}

/// What holds between two steps of the depth-first visit of `g`: `stack` is the path
/// of packages being visited, each marked `false`; the packages marked `true` are
/// those of `order`, each after the packages it depends on.
pub open spec fn visit_inv(
    g: Graph,
    vis: Seq<(Seq<char>, bool)>,
    order: Seq<Seq<char>>,
    stack: Seq<Seq<char>>,
) -> bool {
    &&& unique_keys(vis)
    &&& forall|x: Seq<char>| #[trigger] keys_of(vis).contains(x) ==> is_package(g, x)
    &&& stack.no_duplicates()
    &&& forall|x: Seq<char>| #[trigger] lookup(vis, x) == Some(false) <==> stack.contains(x)
    &&& forall|i: int| 0 <= i < stack.len() - 1 ==> #[trigger] edge(g, stack[i], stack[i + 1])
    &&& order.no_duplicates()
    &&& forall|x: Seq<char>| #[trigger] order.contains(x) <==> lookup(vis, x) == Some(true)
    &&& forall|i: int, b: Seq<char>|
        0 <= i < order.len() && #[trigger] edge(g, order[i], b) ==> order.take(i).contains(b)
}

/// Number of packages of `g` not yet visited.
pub open spec fn unvisited(g: Graph, vis: Seq<(Seq<char>, bool)>) -> nat {
    keys_of(g).to_set().difference(keys_of(vis).to_set()).len()
}

/// Setting a key adds it to the keys.
pub proof fn lemma_keys_put<W>(s: Seq<(Seq<char>, W)>, k: Seq<char>, v: W)
    ensures
        keys_of(put(s, k, v)).to_set() == keys_of(s).to_set().insert(k),
{
    let i = key_position(keys_of(s), k);
    if i >= 0 {
        assert(keys_of(s)[i] == k);
        assert(keys_of(put(s, k, v)) =~= keys_of(s));
        assert(keys_of(s).to_set().insert(k) =~= keys_of(s).to_set());
    } else {
        assert(keys_of(put(s, k, v)) =~= keys_of(s).push(k));
        keys_of(s).lemma_push_to_set_commute(k);
    }
}

/// Marking a package not marked before leaves one package fewer unvisited.
pub proof fn lemma_unvisited_insert(g: Graph, vis: Seq<(Seq<char>, bool)>, k: Seq<char>, v: bool)
    requires
        is_package(g, k),
        !keys_of(vis).contains(k),
    ensures
        unvisited(g, put(vis, k, v)) + 1 == unvisited(g, vis),
{
    lemma_keys_put(vis, k, v);
    let p = keys_of(g).to_set();
    let d = p.difference(keys_of(vis).to_set());
    vstd::seq_lib::seq_to_set_is_finite(keys_of(g));
    vstd::set_lib::lemma_len_subset(d, p);
    assert(p.difference(keys_of(vis).to_set().insert(k)) =~= d.remove(k));
    assert(d.contains(k));
}

/// Marking more packages leaves no more packages unvisited.
pub proof fn lemma_unvisited_mono(g: Graph, v1: Seq<(Seq<char>, bool)>, v2: Seq<(Seq<char>, bool)>)
    requires
        keys_of(v1).to_set().subset_of(keys_of(v2).to_set()),
    ensures
        unvisited(g, v2) <= unvisited(g, v1),
{
    let p = keys_of(g).to_set();
    let d1 = p.difference(keys_of(v1).to_set());
    let d2 = p.difference(keys_of(v2).to_set());
    vstd::seq_lib::seq_to_set_is_finite(keys_of(g));
    vstd::set_lib::lemma_len_subset(d1, p);
    vstd::set_lib::lemma_len_subset(d2, d1);
}

proof fn lemma_prefix_contains(a: Seq<Seq<char>>, b: Seq<Seq<char>>, x: Seq<char>)
    requires
        a.is_prefix_of(b),
        a.contains(x),
    ensures
        b.contains(x),
{
    let j = choose|j: int| 0 <= j < a.len() && a[j] == x;
    assert(b[j] == x);
}

/// The mark of `name` among the visit marks.
fn find_mark(visited: &Vec<(String, bool)>, name: &str) -> (r: Option<bool>)
    ensures
        r == lookup(marks(visited@), name@),
{
    let ghost model = marks(visited@);
    proof {
        assert(keys_of(model) =~= string_keys(visited@));
    }
    let len = visited.len();
    let mut i: usize = 0;
    while i < len
        invariant
            len == visited@.len(),
            model == marks(visited@),
            keys_of(model) == string_keys(visited@),
            i <= len,
            forall|j: int| 0 <= j < i ==> #[trigger] string_keys(visited@)[j] != name@,
        decreases len - i,
    {
        if str_eq(visited[i].0.as_str(), name) {
            proof {
                lemma_key_position(keys_of(model), name@, i as int);
            }
            return Some(visited[i].1);
        }
        i = i + 1;
    }
    proof {
        lemma_key_position(keys_of(model), name@, -1);
    }
    None
}

/// Where package `name` stands among `packages`.
fn find_package(packages: &Vec<(String, ResolvedPackage)>, name: &str) -> (r: Option<usize>)
    ensures
        match r {
            Some(i) => i < packages@.len() && i == key_position(keys_of(dep_graph(packages@)), name@)
                && is_package(dep_graph(packages@), name@),
            None => !is_package(dep_graph(packages@), name@),
        },
{
    let ghost g = dep_graph(packages@);
    proof {
        assert(keys_of(g) =~= string_keys(packages@));
    }
    let len = packages.len();
    let mut i: usize = 0;
    while i < len
        invariant
            len == packages@.len(),
            g == dep_graph(packages@),
            keys_of(g) == string_keys(packages@),
            i <= len,
            forall|j: int| 0 <= j < i ==> #[trigger] string_keys(packages@)[j] != name@,
        decreases len - i,
    {
        if str_eq(packages[i].0.as_str(), name) {
            proof {
                lemma_key_position(keys_of(g), name@, i as int);
                assert(keys_of(g)[i as int] == name@);
            }
            return Some(i);
        }
        i = i + 1;
    }
    proof {
        lemma_key_position(keys_of(g), name@, -1);
        if keys_of(g).contains(name@) {
            let j = choose|j: int| 0 <= j < keys_of(g).len() && keys_of(g)[j] == name@;
            assert(string_keys(packages@)[j] != name@);
        }
    }
    None
}

/// The stack of packages being visited is a path that ends in a package marked
/// `false`: going from that package round to the end of the stack is a cycle.
proof fn lemma_found_cycle(g: Graph, vis: Seq<(Seq<char>, bool)>, order: Seq<Seq<char>>, stack: Seq<Seq<char>>, name: Seq<char>)
    requires
        visit_inv(g, vis, order, stack),
        lookup(vis, name) == Some(false),
        stack.len() > 0 ==> edge(g, stack.last(), name),
    ensures
        cycle_error(g, "Circular dependency detected: "@ + name),
{
    assert(stack.contains(name));
    let p = choose|p: int| 0 <= p < stack.len() && stack[p] == name;
    let c = stack.skip(p);
    assert forall|i: int| 0 <= i < c.len() - 1 implies #[trigger] edge(g, c[i], c[i + 1]) by {
        assert(edge(g, stack[p + i], stack[p + i + 1]));
    }
    assert(c.last() == stack.last());
    assert(is_cycle(g, c));
}

/// Marking a package that was not visited `false` and pushing it on the stack keeps
/// the invariant, and leaves one package fewer unvisited.
proof fn lemma_visit_start(g: Graph, vis0: Seq<(Seq<char>, bool)>, order0: Seq<Seq<char>>, stack: Seq<Seq<char>>, name: Seq<char>)
    requires
        visit_inv(g, vis0, order0, stack),
        lookup(vis0, name) is None,
        is_package(g, name),
        stack.len() > 0 ==> edge(g, stack.last(), name),
    ensures
        !stack.contains(name),
        visit_inv(g, put(vis0, name, false), order0, stack.push(name)),
        unvisited(g, put(vis0, name, false)) + 1 == unvisited(g, vis0),
        keys_of(vis0).to_set().subset_of(keys_of(put(vis0, name, false)).to_set()),
{
    let vis1 = put(vis0, name, false);
    let stack2 = stack.push(name);
    lemma_put(vis0, name, false);
    lemma_keys_put(vis0, name, false);
    if keys_of(vis0).contains(name) {
        let j = choose|j: int| 0 <= j < keys_of(vis0).len() && keys_of(vis0)[j] == name;
        lemma_first_occurrence(keys_of(vis0), name, j);
    }
    lemma_unvisited_insert(g, vis0, name, false);
    assert(!stack.contains(name));
    assert forall|x: Seq<char>| #[trigger] lookup(vis1, x) == Some(false) <==> stack2.contains(x) by {
        if x != name {
            assert(lookup(vis1, x) == lookup(vis0, x));
            assert(lookup(vis0, x) == Some(false) <==> stack.contains(x));
            if stack2.contains(x) {
                let j = choose|j: int| 0 <= j < stack2.len() && stack2[j] == x;
                assert(stack[j] == x);
            }
            if stack.contains(x) {
                let j = choose|j: int| 0 <= j < stack.len() && stack[j] == x;
                assert(stack2[j] == x);
            }
        } else {
            assert(stack2[stack.len() as int] == x);
        }
    }
    assert forall|i: int| 0 <= i < stack2.len() - 1 implies #[trigger] edge(g, stack2[i], stack2[i + 1]) by {
        if i + 1 < stack.len() {
            assert(edge(g, stack[i], stack[i + 1]));
        }
    }
    assert forall|x: Seq<char>| #[trigger] keys_of(vis1).contains(x) implies is_package(g, x) by {
        assert(keys_of(vis1).to_set().contains(x));
        if x != name {
            assert(keys_of(vis0).to_set().contains(x));
        }
    }
    assert forall|x: Seq<char>| #[trigger] order0.contains(x) <==> lookup(vis1, x) == Some(true) by {
        if x == name {
            assert(lookup(vis0, x) != Some(true));
        }
    }
}

/// Marking the package on top of the stack `true`, once the packages it depends on
/// are in the order, and adding it to the order, keeps the invariant.
proof fn lemma_visit_finish(
    g: Graph,
    vis2: Seq<(Seq<char>, bool)>,
    order0: Seq<Seq<char>>,
    order2: Seq<Seq<char>>,
    stack: Seq<Seq<char>>,
    name: Seq<char>,
)
    requires
        visit_inv(g, vis2, order2, stack.push(name)),
        !stack.contains(name),
        order0.is_prefix_of(order2),
        forall|j: int|
            0 <= j < deps_of(g, name).len() && is_package(g, dep_name(#[trigger] deps_of(g, name)[j]))
                ==> lookup(vis2, dep_name(deps_of(g, name)[j])) == Some(true),
    ensures
        visit_inv(g, put(vis2, name, true), order2.push(name), stack),
        lookup(put(vis2, name, true), name) == Some(true),
        order0.is_prefix_of(order2.push(name)),
        keys_of(vis2).to_set().subset_of(keys_of(put(vis2, name, true)).to_set()),
{
    let stack2 = stack.push(name);
    let vis3 = put(vis2, name, true);
    let order3 = order2.push(name);
    lemma_put(vis2, name, true);
    lemma_keys_put(vis2, name, true);
    assert(stack2.contains(name)) by {
        assert(stack2[stack.len() as int] == name);
    }
    assert(keys_of(vis2).contains(name)) by {
        lemma_lookup_key(vis2, name);
    }
    assert(keys_of(vis2).to_set().insert(name) =~= keys_of(vis2).to_set());
    assert(!order2.contains(name));
    assert forall|x: Seq<char>| #[trigger] lookup(vis3, x) == Some(false) <==> stack.contains(x) by {
        if x != name {
            assert(lookup(vis3, x) == lookup(vis2, x));
            assert(lookup(vis2, x) == Some(false) <==> stack2.contains(x));
            if stack2.contains(x) {
                let j = choose|j: int| 0 <= j < stack2.len() && stack2[j] == x;
                assert(stack[j] == x);
            }
            if stack.contains(x) {
                let j = choose|j: int| 0 <= j < stack.len() && stack[j] == x;
                assert(stack2[j] == x);
            }
        }
    }
    assert forall|i: int| 0 <= i < stack.len() - 1 implies #[trigger] edge(g, stack[i], stack[i + 1]) by {
        assert(edge(g, stack2[i], stack2[i + 1]));
    }
    assert forall|x: Seq<char>| #[trigger] order3.contains(x) <==> lookup(vis3, x) == Some(true) by {
        if order3.contains(x) && x != name {
            let j = choose|j: int| 0 <= j < order3.len() && order3[j] == x;
            assert(order2[j] == x);
        }
        if order2.contains(x) {
            let j = choose|j: int| 0 <= j < order2.len() && order2[j] == x;
            assert(order3[j] == x);
        }
        if x == name {
            assert(order3[order2.len() as int] == x);
        }
    }
    assert forall|i: int, b: Seq<char>|
        0 <= i < order3.len() && #[trigger] edge(g, order3[i], b) implies order3.take(i).contains(b) by {
        if i < order2.len() {
            assert(order3.take(i) =~= order2.take(i));
            assert(order3[i] == order2[i]);
        } else {
            assert(order3[i] == name);
            let j = choose|j: int| 0 <= j < deps_of(g, name).len() && dep_name(#[trigger] deps_of(g, name)[j]) == b;
            assert(lookup(vis2, b) == Some(true));
            assert(order2.contains(b));
            assert(order3.take(i) =~= order2);
        }
    }
    assert forall|x: Seq<char>| #[trigger] keys_of(vis3).contains(x) implies is_package(g, x) by {
        assert(keys_of(vis3).to_set().contains(x));
        assert(keys_of(vis2).to_set().contains(x));
    }
    assert forall|a: int, b: int| 0 <= a < b < stack.len() implies stack[a] != stack[b] by {
        assert(stack2[a] == stack[a]);
        assert(stack2[b] == stack[b]);
    }
    assert forall|j: int| 0 <= j < order0.len() implies order0[j] == order3[j] by {
        assert(order0[j] == order2[j]);
    }
}

/// After visiting the next dependency, the dependencies visited so far are still in
/// the order, and the order still starts with what it started with.
proof fn lemma_dep_visited(
    g: Graph,
    name: Seq<char>,
    k: int,
    order0: Seq<Seq<char>>,
    order_mid: Seq<Seq<char>>,
    order_now: Seq<Seq<char>>,
    vis_mid: Seq<(Seq<char>, bool)>,
    vis_now: Seq<(Seq<char>, bool)>,
    stack2: Seq<Seq<char>>,
)
    requires
        visit_inv(g, vis_mid, order_mid, stack2),
        visit_inv(g, vis_now, order_now, stack2),
        order0.is_prefix_of(order_mid),
        order_mid.is_prefix_of(order_now),
        0 <= k < deps_of(g, name).len(),
        lookup(vis_now, dep_name(deps_of(g, name)[k])) == Some(true),
        forall|j: int|
            0 <= j < k && is_package(g, dep_name(#[trigger] deps_of(g, name)[j]))
                ==> lookup(vis_mid, dep_name(deps_of(g, name)[j])) == Some(true),
    ensures
        forall|j: int|
            0 <= j < k + 1 && is_package(g, dep_name(#[trigger] deps_of(g, name)[j]))
                ==> lookup(vis_now, dep_name(deps_of(g, name)[j])) == Some(true),
        order0.is_prefix_of(order_now),
{
    assert forall|j: int|
        0 <= j < k + 1 && is_package(g, dep_name(#[trigger] deps_of(g, name)[j]))
            implies lookup(vis_now, dep_name(deps_of(g, name)[j])) == Some(true) by {
        if j < k {
            let x = dep_name(deps_of(g, name)[j]);
            assert(order_mid.contains(x));
            lemma_prefix_contains(order_mid, order_now, x);
        }
    }
    assert forall|j: int| 0 <= j < order0.len() implies order0[j] == order_now[j] by {
        assert(order0[j] == order_mid[j]);
    }
}

/// The marks and the order after visiting package `n` from the marks `vis` and the
/// order `order`, or the package found twice on the path of packages being visited:
/// a package marked `true` is skipped, one marked `false` closes a cycle, and any
/// other is marked `false`, its dependencies are visited in turn, then it is marked
/// `true` and added to the order.
pub open spec fn visit_outcome(
    g: Graph,
    n: Seq<char>,
    vis: Seq<(Seq<char>, bool)>,
    order: Seq<Seq<char>>,
) -> Result<(Seq<(Seq<char>, bool)>, Seq<Seq<char>>), Seq<char>>
    decreases unvisited(g, vis), 0nat, 0nat,
{
    match lookup(vis, n) {
        Some(true) => Ok((vis, order)),
        Some(false) => Err(n),
        None => {
            let vis1 = put(vis, n, false);
            if !is_package(g, n) {
                Ok((vis1, order))
            } else {
                proof {
                    lemma_unmarked_not_key(vis, n);
                    lemma_unvisited_insert(g, vis, n, false);
                }
                match visit_list_outcome(g, deps_of(g, n), vis1, order) {
                    Err(e) => Err(e),
                    Ok((vis2, order2)) => Ok((put(vis2, n, true), order2.push(n))),
                }
            }
        },
    }
}

/// The marks and the order after visiting, one after the other, the packages of `g`
/// named by the dependency entries `ds`, or the package that closes a cycle.
pub open spec fn visit_list_outcome(
    g: Graph,
    ds: Seq<Seq<char>>,
    vis: Seq<(Seq<char>, bool)>,
    order: Seq<Seq<char>>,
) -> Result<(Seq<(Seq<char>, bool)>, Seq<Seq<char>>), Seq<char>>
    decreases unvisited(g, vis), 1nat, ds.len(),
{
    if ds.len() == 0 {
        Ok((vis, order))
    } else if !is_package(g, dep_name(ds[0])) {
        visit_list_outcome(g, ds.drop_first(), vis, order)
    } else {
        match visit_outcome(g, dep_name(ds[0]), vis, order) {
            Err(e) => Err(e),
            Ok((v1, o1)) => if keys_of(vis).to_set().subset_of(keys_of(v1).to_set()) {
                proof {
                    lemma_unvisited_mono(g, vis, v1);
                }
                visit_list_outcome(g, ds.drop_first(), v1, o1)
            } else {
                Ok((v1, o1))
            },
        }
    }
}

/// The order after visiting, one after the other, the packages `names` that are
/// not yet marked, or the package that closes a cycle.
pub open spec fn order_outcome(
    g: Graph,
    names: Seq<Seq<char>>,
    vis: Seq<(Seq<char>, bool)>,
    order: Seq<Seq<char>>,
) -> Result<Seq<Seq<char>>, Seq<char>>
    decreases names.len(),
{
    if names.len() == 0 {
        Ok(order)
    } else if lookup(vis, names[0]) is None {
        match visit_outcome(g, names[0], vis, order) {
            Err(e) => Err(e),
            Ok((v1, o1)) => order_outcome(g, names.drop_first(), v1, o1),
        }
    } else {
        order_outcome(g, names.drop_first(), vis, order)
    }
}

/// `s` holds the names of `g`, in ascending order.
pub open spec fn lists_ascending(g: Graph, s: Seq<Seq<char>>) -> bool {
    &&& forall|x: Seq<char>| #[trigger] s.contains(x) <==> is_package(g, x)
    &&& forall|i: int, j: int| 0 <= i < j < s.len() ==> text_lt(#[trigger] s[i], #[trigger] s[j])
}

/// The names of `g` in ascending order.
pub open spec fn ascending_names(g: Graph) -> Seq<Seq<char>> {
    choose|s: Seq<Seq<char>>| #[trigger] lists_ascending(g, s)
}

/// The build order of `g`: the packages visited in the ascending order of their
/// names, each after a depth-first visit of its dependencies; or the package that
/// closes a dependency cycle.
pub open spec fn build_order_outcome(g: Graph) -> Result<Seq<Seq<char>>, Seq<char>> {
    order_outcome(g, ascending_names(g), Seq::empty(), Seq::empty())
}

/// A name without a mark is not a key of the marks.
pub proof fn lemma_unmarked_not_key(vis: Seq<(Seq<char>, bool)>, n: Seq<char>)
    requires
        lookup(vis, n) is None,
    ensures
        !keys_of(vis).contains(n),
{
    if keys_of(vis).contains(n) {
        let j = choose|j: int| 0 <= j < keys_of(vis).len() && keys_of(vis)[j] == n;
        lemma_first_occurrence(keys_of(vis), n, j);
    }
}

/// Two ascending sequences of the same names are the same.
pub proof fn lemma_ascending_unique(a: Seq<Seq<char>>, b: Seq<Seq<char>>)
    requires
        forall|x: Seq<char>| #![trigger a.contains(x)] #![trigger b.contains(x)] a.contains(x) <==> b.contains(x),
        forall|i: int, j: int| 0 <= i < j < a.len() ==> text_lt(#[trigger] a[i], #[trigger] a[j]),
        forall|i: int, j: int| 0 <= i < j < b.len() ==> text_lt(#[trigger] b[i], #[trigger] b[j]),
    ensures
        a == b,
    decreases a.len(),
{
    if a.len() == 0 {
        if b.len() > 0 {
            assert(b.contains(b[0]));
        }
        assert(a =~= b);
    } else if b.len() == 0 {
        assert(a.contains(a[0]));
    } else {
        assert(a.contains(a[0]));
        assert(b.contains(b[0]));
        if a[0] != b[0] {
            let j = choose|j: int| 0 <= j < b.len() && b[j] == a[0];
            let i = choose|i: int| 0 <= i < a.len() && a[i] == b[0];
            assert(j > 0);
            assert(i > 0);
            assert(text_lt(b[0], a[0]));
            assert(text_lt(a[0], b[0]));
            lemma_text_lt_total(a[0], b[0]);
        }
        let ta = a.drop_first();
        let tb = b.drop_first();
        assert forall|x: Seq<char>| #![trigger ta.contains(x)] #![trigger tb.contains(x)] ta.contains(x) <==> tb.contains(x) by {
            if ta.contains(x) {
                let i = choose|i: int| 0 <= i < ta.len() && ta[i] == x;
                assert(a[i + 1] == x);
                assert(a.contains(x));
                assert(text_lt(a[0], a[i + 1]));
                lemma_text_lt_total(a[0], x);
                let j = choose|j: int| 0 <= j < b.len() && b[j] == x;
                assert(j != 0);
                assert(tb[j - 1] == x);
            }
            if tb.contains(x) {
                let j = choose|j: int| 0 <= j < tb.len() && tb[j] == x;
                assert(b[j + 1] == x);
                assert(b.contains(x));
                assert(text_lt(b[0], b[j + 1]));
                lemma_text_lt_total(b[0], x);
                let i = choose|i: int| 0 <= i < a.len() && a[i] == x;
                assert(i != 0);
                assert(ta[i - 1] == x);
            }
        }
        assert forall|i: int, j: int| 0 <= i < j < ta.len() implies text_lt(#[trigger] ta[i], #[trigger] ta[j]) by {
            assert(text_lt(a[i + 1], a[j + 1]));
        }
        assert forall|i: int, j: int| 0 <= i < j < tb.len() implies text_lt(#[trigger] tb[i], #[trigger] tb[j]) by {
            assert(text_lt(b[i + 1], b[j + 1]));
        }
        lemma_ascending_unique(ta, tb);
        assert(a =~= seq![a[0]] + ta);
        assert(b =~= seq![b[0]] + tb);
    }
}

/// The message of a dependency cycle through `name`.
fn cycle_message(name: &str) -> (msg: String)
    ensures
        msg@ == "Circular dependency detected: "@ + name@,
{
    let mut msg = String::from_str("Circular dependency detected: ");
    msg.append(name);
    msg
}

/// Visit package `name` and, first, the packages it depends on, adding each to
/// `order` once all of its dependencies stand there.
fn visit(
    name: &str,
    packages: &Vec<(String, ResolvedPackage)>,
    visited: &mut Vec<(String, bool)>,
    order: &mut Vec<String>,
    Ghost(stack): Ghost<Seq<Seq<char>>>,
) -> (r: Result<(), String>)
    requires
        unique_keys(dep_graph(packages@)),
        visit_inv(dep_graph(packages@), marks(old(visited)@), names_of(old(order)@), stack),
        is_package(dep_graph(packages@), name@),
        stack.len() > 0 ==> edge(dep_graph(packages@), stack.last(), name@),
    ensures
        r is Ok ==> {
            &&& visit_inv(dep_graph(packages@), marks(final(visited)@), names_of(final(order)@), stack)
            &&& lookup(marks(final(visited)@), name@) == Some(true)
            &&& names_of(old(order)@).is_prefix_of(names_of(final(order)@))
            &&& keys_of(marks(old(visited)@)).to_set().subset_of(
                keys_of(marks(final(visited)@)).to_set(),
            )
        },
        r is Err ==> cycle_error(dep_graph(packages@), r->Err_0@),
        match visit_outcome(dep_graph(packages@), name@, marks(old(visited)@), names_of(old(order)@)) {
            Ok((v, o)) => r is Ok && marks(final(visited)@) == v && names_of(final(order)@) == o,
            Err(n) => r matches Err(m) && m@ == "Circular dependency detected: "@ + n,
        },
    decreases unvisited(dep_graph(packages@), marks(old(visited)@)),
{
    let ghost g = dep_graph(packages@);
    let ghost vis0 = marks(visited@);
    let ghost order0 = names_of(order@);
    let mark = find_mark(visited, name);
    match mark {
        Some(true) => {
            assert(order0.is_prefix_of(order0));
            return Ok(());
        },
        Some(false) => {
            proof {
                reveal_strlit("Circular dependency detected: ");
                lemma_found_cycle(g, vis0, order0, stack, name@);
            }
            return Err(cycle_message(name));
        },
        None => {},
    }
    let key = name.to_string();
    proof {
        lemma_put_model(visited@, key, false, |b: bool| flag(b));
        lemma_visit_start(g, vis0, order0, stack, name@);
    }
    put_entry(visited, key, false);
    let ghost vis1 = marks(visited@);
    let ghost stack2 = stack.push(name@);
    let idx = match find_package(packages, name) {
        Some(i) => i,
        None => {
            return Ok(());
        },
    };
    let deps = &packages[idx].1.dependencies;
    let n_deps = deps.len();
    let ghost ds = deps_of(g, name@);
    proof {
        assert(keys_of(g)[idx as int] == name@);
        assert(deps_of(g, name@) == dep_texts(packages@[idx as int].1));
        assert(ds.skip(0) =~= ds);
        lemma_unmarked_not_key(vis0, name@);
    }
    let mut k: usize = 0;
    while k < n_deps
        invariant
            g == dep_graph(packages@),
            unique_keys(g),
            n_deps == deps@.len(),
            deps_of(g, name@) == deps@.map_values(|d: String| d@),
            stack2 == stack.push(name@),
            !stack.contains(name@),
            visit_inv(g, marks(visited@), names_of(order@), stack2),
            k <= n_deps,
            forall|j: int|
                0 <= j < k && is_package(g, dep_name(#[trigger] deps_of(g, name@)[j]))
                    ==> lookup(marks(visited@), dep_name(deps_of(g, name@)[j])) == Some(true),
            order0.is_prefix_of(names_of(order@)),
            keys_of(vis1).to_set().subset_of(keys_of(marks(visited@)).to_set()),
            unvisited(g, vis1) + 1 == unvisited(g, vis0),
            keys_of(vis0).to_set().subset_of(keys_of(vis1).to_set()),
            vis0 == marks(old(visited)@),
            order0 == names_of(old(order)@),
            vis1 == put(vis0, name@, false),
            ds == deps_of(g, name@),
            lookup(vis0, name@) is None,
            is_package(g, name@),
            visit_list_outcome(g, ds, vis1, order0) == visit_list_outcome(
                g,
                ds.skip(k as int),
                marks(visited@),
                names_of(order@),
            ),
        decreases n_deps - k,
    {
        let dn = str_first_field(deps[k].as_str(), ' ');
        assert(deps_of(g, name@)[k as int] == deps@[k as int]@);
        let ghost rest = ds.skip(k as int);
        proof {
            assert(rest[0] == deps@[k as int]@);
            assert(rest.drop_first() =~= ds.skip(k + 1));
        }
        let found = find_package(packages, dn);
        if found.is_some() {
            let ghost vis_mid = marks(visited@);
            let ghost order_mid = names_of(order@);
            proof {
                lemma_unvisited_mono(g, vis1, vis_mid);
                assert(edge(g, stack2.last(), dn@));
                assert(unvisited(g, vis_mid) < unvisited(g, vis0));
            }
            let r = visit(dn, packages, visited, order, Ghost(stack2));
            if r.is_err() {
                proof {
                    assert(visit_outcome(g, name@, vis0, order0) == visit_list_outcome(g, ds, vis1, order0));
                }
                return r;
            }
            proof {
                lemma_dep_visited(
                    g,
                    name@,
                    k as int,
                    order0,
                    order_mid,
                    names_of(order@),
                    vis_mid,
                    marks(visited@),
                    stack2,
                );
            }
        }
        k = k + 1;
    }
    let ghost vis2 = marks(visited@);
    let ghost order2 = names_of(order@);
    proof {
        assert(ds.skip(n_deps as int) =~= Seq::<Seq<char>>::empty());
        assert(visit_list_outcome(g, ds, vis1, order0) == Ok::<(Seq<(Seq<char>, bool)>, Seq<Seq<char>>), Seq<char>>((vis2, order2)));
    }
    let key2 = name.to_string();
    proof {
        lemma_put_model(visited@, key2, true, |b: bool| flag(b));
        lemma_visit_finish(g, vis2, order0, order2, stack, name@);
    }
    put_entry(visited, key2, true);
    order.push(name.to_string());
    assert(names_of(order@) =~= order2.push(name@));
    Ok(())
}

/// A key that has a value is a key.
proof fn lemma_lookup_key<W>(s: Seq<(Seq<char>, W)>, k: Seq<char>)
    requires
        lookup(s, k) is Some,
    ensures
        keys_of(s).contains(k),
{
    let i = key_position(keys_of(s), k);
    assert(keys_of(s)[i] == k);
}


// ---------------------------------------------------------------- order of names

/// `a` comes before `b` in the lexicographic order of their characters.
pub open spec fn text_lt(a: Seq<char>, b: Seq<char>) -> bool
    decreases a.len(),
{
    if a.len() == 0 {
        b.len() > 0
    } else if b.len() == 0 {
        false
    } else if a[0] != b[0] {
        a[0] < b[0]
    } else {
        text_lt(a.drop_first(), b.drop_first())
    }
}

/// The order of names is strict and total.
pub proof fn lemma_text_lt_total(a: Seq<char>, b: Seq<char>)
    ensures
        !text_lt(a, a),
        a == b || text_lt(a, b) || text_lt(b, a),
        text_lt(a, b) ==> !text_lt(b, a),
    decreases a.len(),
{
    if a.len() > 0 {
        lemma_text_lt_total(a.drop_first(), a.drop_first());
    }
    if a.len() > 0 && b.len() > 0 && a[0] == b[0] {
        lemma_text_lt_total(a.drop_first(), b.drop_first());
        if a.drop_first() == b.drop_first() {
            assert(a =~= b) by {
                assert forall|i: int| 0 <= i < a.len() implies a[i] == b[i] by {
                    if i > 0 {
                        assert(a[i] == a.drop_first()[i - 1]);
                        assert(b[i] == b.drop_first()[i - 1]);
                    }
                }
            }
        }
    }
    if a.len() == 0 && b.len() == 0 {
        assert(a =~= b);
    }
}

/// The order of names is transitive.
pub proof fn lemma_text_lt_trans(a: Seq<char>, b: Seq<char>, c: Seq<char>)
    requires
        text_lt(a, b),
        text_lt(b, c),
    ensures
        text_lt(a, c),
    decreases a.len(),
{
    if a.len() > 0 && b.len() > 0 && c.len() > 0 && a[0] == b[0] && b[0] == c[0] {
        lemma_text_lt_trans(a.drop_first(), b.drop_first(), c.drop_first());
    }
}

/// Whether `a` comes before `b`.
fn str_lt(a: &str, b: &str) -> (r: bool)
    ensures
        r == text_lt(a@, b@),
{
    let alen = a.unicode_len();
    let blen = b.unicode_len();
    let mut i: usize = 0;
    proof {
        assert(a@.skip(0) =~= a@);
        assert(b@.skip(0) =~= b@);
    }
    while i < alen && i < blen
        invariant
            alen == a@.len(),
            blen == b@.len(),
            i <= alen,
            i <= blen,
            text_lt(a@, b@) == text_lt(a@.skip(i as int), b@.skip(i as int)),
        decreases alen - i,
    {
        let ca = a.get_char(i);
        let cb = b.get_char(i);
        if ca != cb {
            return ca < cb;
        }
        proof {
            assert(a@.skip(i as int).drop_first() =~= a@.skip(i + 1));
            assert(b@.skip(i as int).drop_first() =~= b@.skip(i + 1));
        }
        i = i + 1;
    }
    i == alen && i < blen
}

/// Where `k` goes among the ascending names `out`: after those that do not come
/// after it.
fn insert_position(out: &Vec<String>, k: &str) -> (p: usize)
    ensures
        p <= out@.len(),
        forall|q: int| 0 <= q < p ==> !text_lt(k@, #[trigger] out@[q]@),
        p < out@.len() ==> text_lt(k@, out@[p as int]@),
{
    let mut p: usize = 0;
    while p < out.len()
        invariant
            p <= out@.len(),
            forall|q: int| 0 <= q < p ==> !text_lt(k@, #[trigger] out@[q]@),
        decreases out@.len() - p,
    {
        if str_lt(k, out[p].as_str()) {
            return p;
        }
        p = p + 1;
    }
    p
}

/// The names of `packages`, in ascending order.
fn sorted_names(packages: &Vec<(String, ResolvedPackage)>) -> (names: Vec<String>)
    requires
        unique_keys(dep_graph(packages@)),
    ensures
        forall|x: Seq<char>| #[trigger] names_of(names@).contains(x) <==> is_package(dep_graph(packages@), x),
        forall|i: int, j: int| 0 <= i < j < names@.len() ==> text_lt(#[trigger] names@[i]@, #[trigger] names@[j]@),
{
    let ghost g = dep_graph(packages@);
    let ghost keys = keys_of(g);
    proof {
        assert(keys =~= string_keys(packages@));
    }
    let mut out: Vec<String> = Vec::new();
    let n = packages.len();
    let mut i: usize = 0;
    while i < n
        invariant
            n == packages@.len(),
            g == dep_graph(packages@),
            keys == keys_of(g),
            keys == string_keys(packages@),
            unique_keys(g),
            i <= n,
            forall|x: Seq<char>| #[trigger] names_of(out@).contains(x) <==> keys.take(i as int).contains(x),
            forall|a: int, b: int| 0 <= a < b < out@.len() ==> text_lt(#[trigger] out@[a]@, #[trigger] out@[b]@),
        decreases n - i,
    {
        let k = packages[i].0.clone();
        let p = insert_position(&out, k.as_str());
        proof {
            assert(keys[i as int] == k@);
            assert(!keys.take(i as int).contains(k@)) by {
                if keys.take(i as int).contains(k@) {
                    let j = choose|j: int| 0 <= j < keys.take(i as int).len() && keys.take(i as int)[j] == k@;
                    assert(g[j].0 == keys[j]);
                    assert(g[i as int].0 == keys[i as int]);
                }
            }
            assert forall|q: int| 0 <= q < p implies text_lt(#[trigger] out@[q]@, k@) by {
                lemma_text_lt_total(out@[q]@, k@);
                if out@[q]@ == k@ {
                    assert(names_of(out@)[q] == k@);
                    assert(names_of(out@).contains(k@));
                }
            }
        }
        let ghost old_out = out@;
        out.insert(p, k);
        proof {
            assert forall|a: int, b: int| 0 <= a < b < out@.len() implies text_lt(#[trigger] out@[a]@, #[trigger] out@[b]@) by {
                if b < p {
                } else if b == p {
                } else if a < p {
                    assert(out@[b] == old_out[b - 1]);
                    if p < old_out.len() {
                        assert(text_lt(k@, old_out[p as int]@));
                        if b - 1 > p {
                            lemma_text_lt_trans(k@, old_out[p as int]@, old_out[b - 1]@);
                        }
                        lemma_text_lt_trans(out@[a]@, k@, out@[b]@);
                    }
                } else if a == p {
                    assert(out@[b] == old_out[b - 1]);
                    assert(text_lt(k@, old_out[p as int]@));
                    if b - 1 > p {
                        lemma_text_lt_trans(k@, old_out[p as int]@, old_out[b - 1]@);
                    }
                } else {
                    assert(out@[a] == old_out[a - 1]);
                    assert(out@[b] == old_out[b - 1]);
                }
            }
            let no = names_of(out@);
            let nold = names_of(old_out);
            let kt = keys.take(i + 1);
            let ki = keys.take(i as int);
            assert(no.len() == nold.len() + 1);
            assert forall|j: int| 0 <= j < no.len() implies #[trigger] no[j] == (if j < p {
                nold[j]
            } else if j == p {
                k@
            } else {
                nold[j - 1]
            }) by {
                if j < p {
                    assert(out@[j] == old_out[j]);
                } else if j > p {
                    assert(out@[j] == old_out[j - 1]);
                }
            }
            assert forall|x: Seq<char>| no.contains(x) implies kt.contains(x) by {
                let j = choose|j: int| 0 <= j < no.len() && no[j] == x;
                if j == p {
                    assert(kt[i as int] == x);
                } else {
                    let m = if j < p { j } else { j - 1 };
                    assert(nold[m] == x);
                    assert(nold.contains(x));
                    assert(ki.contains(x));
                    let w = choose|w: int| 0 <= w < ki.len() && ki[w] == x;
                    assert(kt[w] == x);
                }
            }
            assert forall|x: Seq<char>| kt.contains(x) implies no.contains(x) by {
                let j = choose|j: int| 0 <= j < kt.len() && kt[j] == x;
                if j == i {
                    assert(no[p as int] == x);
                } else {
                    assert(ki[j] == x);
                    assert(ki.contains(x));
                    assert(nold.contains(x));
                    let m = choose|m: int| 0 <= m < nold.len() && nold[m] == x;
                    if m < p {
                        assert(no[m] == x);
                    } else {
                        assert(no[m + 1] == x);
                    }
                }
            }
            assert forall|x: Seq<char>| #[trigger] no.contains(x) <==> kt.contains(x) by {
            }
        }
        i = i + 1;
    }
    proof {
        assert(keys.take(n as int) =~= keys);
    }
    out
}

/// Compute the order in which to build `packages`: every package once, each after
/// the packages of the workspace it depends on. Packages are taken in the order of
/// their names, each after a depth-first visit of its dependencies.
pub fn compute_build_order(packages: &Vec<(String, ResolvedPackage)>) -> (r: Result<Vec<String>, String>)
    requires
        unique_keys(dep_graph(packages@)),
    ensures
        match r {
            Ok(order) => is_build_order(dep_graph(packages@), names_of(order@)),
            Err(msg) => cycle_error(dep_graph(packages@), msg@),
        },
        match build_order_outcome(dep_graph(packages@)) {
            Ok(o) => r matches Ok(v) && names_of(v@) == o,
            Err(n) => r matches Err(m) && m@ == "Circular dependency detected: "@ + n,
        },
{
    let ghost g = dep_graph(packages@);
    let names = sorted_names(packages);
    let ghost ns = names_of(names@);
    proof {
        assert forall|i: int, j: int| 0 <= i < j < ns.len() implies text_lt(#[trigger] ns[i], #[trigger] ns[j]) by {
            assert(text_lt(names@[i]@, names@[j]@));
        }
        assert(lists_ascending(g, ns));
        let a = ascending_names(g);
        assert(lists_ascending(g, a));
        lemma_ascending_unique(ns, a);
        assert(ns.skip(0) =~= ns);
    }
    let mut visited: Vec<(String, bool)> = Vec::new();
    let mut order: Vec<String> = Vec::new();
    proof {
        let v = marks(visited@);
        assert(keys_of(v) =~= Seq::<Seq<char>>::empty());
        assert forall|x: Seq<char>| #[trigger] lookup(v, x) is None by {
            lemma_key_position(keys_of(v), x, -1);
        }
        assert(names_of(order@) =~= Seq::<Seq<char>>::empty());
        assert(v =~= Seq::<(Seq<char>, bool)>::empty());
        assert(visit_inv(g, v, names_of(order@), Seq::empty()));
    }
    let n = names.len();
    let mut i: usize = 0;
    while i < n
        invariant
            g == dep_graph(packages@),
            unique_keys(g),
            n == names@.len(),
            forall|x: Seq<char>| #[trigger] names_of(names@).contains(x) <==> is_package(g, x),
            visit_inv(g, marks(visited@), names_of(order@), Seq::empty()),
            i <= n,
            forall|j: int| 0 <= j < i ==> lookup(marks(visited@), #[trigger] names@[j]@) == Some(true),
            ns == names_of(names@),
            ns == ascending_names(g),
            build_order_outcome(g) == order_outcome(g, ns.skip(i as int), marks(visited@), names_of(order@)),
        decreases n - i,
    {
        let ghost rest = ns.skip(i as int);
        proof {
            assert(rest[0] == names@[i as int]@);
            assert(rest.drop_first() =~= ns.skip(i + 1));
        }
        let name = names[i].as_str();
        proof {
            assert(names_of(names@)[i as int] == name@);
            assert(names_of(names@).contains(name@));
        }
        let m = find_mark(&visited, name);
        if m.is_none() {
            let ghost vis_mid = marks(visited@);
            let ghost order_mid = names_of(order@);
            let r = visit(name, packages, &mut visited, &mut order, Ghost(Seq::empty()));
            match r {
                Err(e) => {
                    return Err(e);
                },
                Ok(()) => {},
            }
            proof {
                assert forall|j: int| 0 <= j < i + 1 implies lookup(marks(visited@), #[trigger] names@[j]@) == Some(true) by {
                    if j < i {
                        assert(order_mid.contains(names@[j]@));
                        lemma_prefix_contains(order_mid, names_of(order@), names@[j]@);
                    }
                }
            }
        } else {
            proof {
                let e: Seq<Seq<char>> = Seq::empty();
                if m == Some(false) {
                    assert(e.contains(name@));
                }
            }
        }
        i = i + 1;
    }
    proof {
        let o = names_of(order@);
        let v = marks(visited@);
        assert(ns.skip(n as int) =~= Seq::<Seq<char>>::empty());
        assert forall|x: Seq<char>| #[trigger] o.contains(x) <==> is_package(g, x) by {
            if o.contains(x) {
                lemma_lookup_key(v, x);
            }
            if is_package(g, x) {
                assert(names_of(names@).contains(x));
                let j = choose|j: int| 0 <= j < names_of(names@).len() && names_of(names@)[j] == x;
                assert(names@[j]@ == x);
            }
        }
    }
    Ok(order)
}

// ---------------------------------------------------------------- resolution

/// A member package whose manifest was found and read: its directory, the path of
/// its manifest, and the manifest.
#[derive(Debug)]
pub struct LoadedPackage {
    pub path: String,
    pub manifest_path: String,
    pub manifest: PackageManifest,
}

/// The version of a workspace dependency.
pub open spec fn version_of(d: Dependency) -> Seq<char> {
    d.version@
}

/// The versions of the dependencies that a workspace declares.
pub open spec fn workspace_versions(m: WorkspaceManifest) -> Seq<(Seq<char>, Seq<char>)> {
    keyed_model(m.dependencies@, |d: Dependency| version_of(d))
}

/// The dependencies that a package declares, with their specs.
pub open spec fn package_deps(m: PackageManifest) -> Seq<(Seq<char>, Seq<char>)> {
    keyed_model(m.dependencies@, |x: String| text_of(x))
}

/// The dependency entries of a package that declares `pkg`, in a workspace that
/// declares the versions `ws`: each dependency as `"<name> <spec>"`; one whose spec is
/// `workspace` takes the version that the workspace declares for it, and is left out
/// when the workspace declares none.
pub open spec fn resolved_deps(
    pkg: Seq<(Seq<char>, Seq<char>)>,
    ws: Seq<(Seq<char>, Seq<char>)>,
) -> Seq<Seq<char>>
    decreases pkg.len(),
{
    if pkg.len() == 0 {
        Seq::empty()
    } else {
        let rest = resolved_deps(pkg.drop_last(), ws);
        let n = pkg.last().0;
        let spec_text = pkg.last().1;
        if spec_text == "workspace"@ {
            match lookup(ws, n) {
                Some(v) => rest.push(n + " "@ + v),
                None => rest,
            }
        } else {
            rest.push(n + " "@ + spec_text)
        }
    }
}

/// The dependency graph of the packages `loaded`, in a workspace with manifest `ws`:
/// each package by its name, a later package replacing an earlier one of the same name.
pub open spec fn workspace_graph(loaded: Seq<LoadedPackage>, ws: WorkspaceManifest) -> Graph
    decreases loaded.len(),
{
    if loaded.len() == 0 {
        Seq::empty()
    } else {
        put(
            workspace_graph(loaded.drop_last(), ws),
            loaded.last().manifest.name@,
            resolved_deps(package_deps(loaded.last().manifest), workspace_versions(ws)),
        )
    }
}

/// `j` is the last of `loaded` with name `k`.
pub open spec fn last_named(loaded: Seq<LoadedPackage>, j: int, k: Seq<char>) -> bool {
    &&& 0 <= j < loaded.len()
    &&& loaded[j].manifest.name@ == k
    &&& forall|m: int| j < m < loaded.len() ==> (#[trigger] loaded[m]).manifest.name@ != k
}

/// Each package of `ps` is the last of `loaded` with its name, as it was read.
pub open spec fn packages_from(ps: Seq<(String, ResolvedPackage)>, loaded: Seq<LoadedPackage>) -> bool {
    forall|i: int|
        #![trigger ps[i]]
        0 <= i < ps.len() ==> {
            &&& ps[i].0@ == ps[i].1.name@
            &&& exists|j: int|
                #![trigger loaded[j]]
                last_named(loaded, j, ps[i].0@) && ps[i].1.path == loaded[j].path
                    && ps[i].1.manifest_path == loaded[j].manifest_path && ps[i].1.manifest
                    == loaded[j].manifest
        }
}

/// The version that the workspace declares for dependency `name`.
fn find_version(deps: &Vec<(String, Dependency)>, name: &str) -> (r: Option<String>)
    ensures
        match r {
            Some(v) => lookup(keyed_model(deps@, |d: Dependency| version_of(d)), name@) == Some(v@),
            None => lookup(keyed_model(deps@, |d: Dependency| version_of(d)), name@) is None,
        },
{
    let ghost model = keyed_model(deps@, |d: Dependency| version_of(d));
    proof {
        assert(keys_of(model) =~= string_keys(deps@));
    }
    let len = deps.len();
    let mut i: usize = 0;
    while i < len
        invariant
            len == deps@.len(),
            model == keyed_model(deps@, |d: Dependency| version_of(d)),
            keys_of(model) == string_keys(deps@),
            i <= len,
            forall|j: int| 0 <= j < i ==> #[trigger] string_keys(deps@)[j] != name@,
        decreases len - i,
    {
        if str_eq(deps[i].0.as_str(), name) {
            proof {
                lemma_key_position(keys_of(model), name@, i as int);
            }
            return Some(deps[i].1.version.clone());
        }
        i = i + 1;
    }
    proof {
        lemma_key_position(keys_of(model), name@, -1);
    }
    None
}

/// The dependency entry `"<name> <text>"`.
fn dep_entry(name: &str, text: &str) -> (r: String)
    ensures
        r@ == name@ + " "@ + text@,
{
    proof {
        reveal_strlit(" ");
    }
    let mut r = String::from_str(name);
    r.append(" ");
    r.append(text);
    r
}

/// The dependency entries of package `pkg` in workspace `ws`.
fn resolve_dependencies(pkg: &PackageManifest, ws: &WorkspaceManifest) -> (r: Vec<String>)
    ensures
        names_of(r@) == resolved_deps(package_deps(*pkg), workspace_versions(*ws)),
{
    let ghost pd = package_deps(*pkg);
    let ghost wv = workspace_versions(*ws);
    let mut out: Vec<String> = Vec::new();
    let n = pkg.dependencies.len();
    let mut i: usize = 0;
    proof {
        reveal_strlit("workspace");
        assert(pd.take(0) =~= Seq::<(Seq<char>, Seq<char>)>::empty());
        assert(names_of(out@) =~= Seq::<Seq<char>>::empty());
    }
    while i < n
        invariant
            n == pkg.dependencies@.len(),
            pd == package_deps(*pkg),
            wv == workspace_versions(*ws),
            i <= n,
            names_of(out@) == resolved_deps(pd.take(i as int), wv),
        decreases n - i,
    {
        let dep_name_text = pkg.dependencies[i].0.as_str();
        let spec_text = pkg.dependencies[i].1.as_str();
        proof {
            assert(pd.take(i + 1).drop_last() =~= pd.take(i as int));
            assert(pd.take(i + 1).last() == pd[i as int]);
        }
        let ghost before = out@;
        if str_eq(spec_text, "workspace") {
            match find_version(&ws.dependencies, dep_name_text) {
                Some(v) => {
                    out.push(dep_entry(dep_name_text, v.as_str()));
                    assert(names_of(out@) =~= names_of(before).push(out@[before.len() as int]@));
                },
                None => {},
            }
        } else {
            out.push(dep_entry(dep_name_text, spec_text));
            assert(names_of(out@) =~= names_of(before).push(out@[before.len() as int]@));
        }
        i = i + 1;
    }
    proof {
        assert(pd.take(n as int) =~= pd);
    }
    out
}

impl ResolvedWorkspace {
    /// Resolve a workspace from its manifest and its member packages whose manifests
    /// were found and read, in the order of its members: each package is kept under
    /// its name with its dependency entries, and the build order is computed.
    pub fn resolve(manifest: WorkspaceManifest, loaded: Vec<LoadedPackage>) -> (r: Result<ResolvedWorkspace, String>)
        ensures
            match r {
                Ok(w) => {
                    &&& w.manifest == manifest
                    &&& dep_graph(w.packages@) == workspace_graph(loaded@, manifest)
                    &&& unique_keys(dep_graph(w.packages@))
                    &&& packages_from(w.packages@, loaded@)
                    &&& is_build_order(dep_graph(w.packages@), names_of(w.build_order@))
                },
                Err(msg) => cycle_error(workspace_graph(loaded@, manifest), msg@),
            },
            match build_order_outcome(workspace_graph(loaded@, manifest)) {
                Ok(o) => r matches Ok(w) && names_of(w.build_order@) == o,
                Err(n) => r matches Err(m) && m@ == "Circular dependency detected: "@ + n,
            },
    {
        let ghost orig = loaded@;
        let mut rest = loaded;
        let mut packages: Vec<(String, ResolvedPackage)> = Vec::new();
        let n = rest.len();
        let mut i: usize = 0;
        proof {
            assert(orig.skip(0) =~= orig);
            assert(orig.take(0) =~= Seq::<LoadedPackage>::empty());
            assert(dep_graph(packages@) =~= Seq::<(Seq<char>, Seq<Seq<char>>)>::empty());
        }
        while i < n
            invariant
                n == orig.len(),
                i <= n,
                rest@ == orig.skip(i as int),
                dep_graph(packages@) == workspace_graph(orig.take(i as int), manifest),
                unique_keys(dep_graph(packages@)),
                packages_from(packages@, orig.take(i as int)),
            decreases n - i,
        {
            let lp = rest.remove(0);
            proof {
                assert(lp == orig[i as int]);
                assert(rest@ =~= orig.skip(i + 1));
            }
            let deps = resolve_dependencies(&lp.manifest, &manifest);
            let name = lp.manifest.name.clone();
            let rp = ResolvedPackage {
                name: lp.manifest.name.clone(),
                manifest: lp.manifest,
                path: lp.path,
                manifest_path: lp.manifest_path,
                dependencies: deps,
            };
            let ghost ps0 = packages@;
            let ghost taken = orig.take(i + 1);
            proof {
                lemma_put_model(ps0, name, rp, |p: ResolvedPackage| dep_texts(p));
                lemma_put(dep_graph(ps0), name@, dep_texts(rp));
                assert(taken.drop_last() =~= orig.take(i as int));
                assert(taken.last() == orig[i as int]);
                assert(dep_texts(rp) == resolved_deps(package_deps(orig[i as int].manifest), workspace_versions(manifest)));
            }
            put_entry(&mut packages, name, rp);
            proof {
                lemma_packages_from_put(ps0, packages@, orig.take(i as int), taken, rp);
                assert(dep_graph(packages@) == put(dep_graph(ps0), name@, dep_texts(rp)));
            }
            i = i + 1;
        }
        proof {
            assert(orig.take(n as int) =~= orig);
        }
        match compute_build_order(&packages) {
            Err(e) => Err(e),
            Ok(build_order) => Ok(ResolvedWorkspace { manifest, packages, build_order }),
        }
    }

    /// The package named `name`.
    pub fn get_package(&self, name: &str) -> (r: Option<&ResolvedPackage>)
        ensures
            ({
                let i = key_position(string_keys(self.packages@), name@);
                r == if i >= 0 {
                    Some(&self.packages@[i].1)
                } else {
                    None
                }
            }),
    {
        let len = self.packages.len();
        let mut i: usize = 0;
        while i < len
            invariant
                len == self.packages@.len(),
                i <= len,
                forall|j: int| 0 <= j < i ==> #[trigger] string_keys(self.packages@)[j] != name@,
            decreases len - i,
        {
            if str_eq(self.packages[i].0.as_str(), name) {
                proof {
                    lemma_key_position(string_keys(self.packages@), name@, i as int);
                }
                return Some(&self.packages[i].1);
            }
            i = i + 1;
        }
        proof {
            lemma_key_position(string_keys(self.packages@), name@, -1);
        }
        None
    }
}

/// Setting the package read last keeps each package the last of its name.
proof fn lemma_packages_from_put(
    ps0: Seq<(String, ResolvedPackage)>,
    ps1: Seq<(String, ResolvedPackage)>,
    before: Seq<LoadedPackage>,
    after: Seq<LoadedPackage>,
    rp: ResolvedPackage,
)
    requires
        packages_from(ps0, before),
        unique_keys(dep_graph(ps0)),
        after.len() == before.len() + 1,
        after.drop_last() == before,
        rp.name@ == after.last().manifest.name@,
        rp.path == after.last().path,
        rp.manifest_path == after.last().manifest_path,
        rp.manifest == after.last().manifest,
        ({
            let i = key_position(string_keys(ps0), rp.name@);
            ps1 == if i >= 0 {
                ps0.update(i, (rp.name, rp))
            } else {
                ps0.push((rp.name, rp))
            }
        }),
    ensures
        packages_from(ps1, after),
{
    let k = rp.name@;
    let last = before.len() as int;
    assert forall|i: int| #![trigger ps1[i]] 0 <= i < ps1.len() implies {
        &&& ps1[i].0@ == ps1[i].1.name@
        &&& exists|j: int|
            #![trigger after[j]]
            last_named(after, j, ps1[i].0@) && ps1[i].1.path == after[j].path
                && ps1[i].1.manifest_path == after[j].manifest_path && ps1[i].1.manifest
                == after[j].manifest
    } by {
        if ps1[i].0@ == k {
            assert(ps1[i] == (rp.name, rp)) by {
                let p = key_position(string_keys(ps0), k);
                if p >= 0 && i != p {
                    assert(ps1[i] == ps0[i]);
                    assert(string_keys(ps0)[i] == k);
                    assert(string_keys(ps0)[p] == k);
                    assert(dep_graph(ps0)[i].0 == k);
                    assert(dep_graph(ps0)[p].0 == k);
                }
                if p < 0 && i < ps0.len() {
                    assert(ps1[i] == ps0[i]);
                    assert(string_keys(ps0)[i] == k);
                    lemma_first_occurrence(string_keys(ps0), k, i);
                }
            }
            assert(after[last] == after.last());
            assert(last_named(after, last, k));
        } else {
            let p = key_position(string_keys(ps0), k);
            assert(i < ps0.len()) by {
                if p < 0 && i == ps0.len() {
                    assert(ps1[i].0@ == k);
                }
            }
            assert(ps1[i] == ps0[i]);
            let j = choose|j: int|
                #![trigger before[j]]
                last_named(before, j, ps0[i].0@) && ps0[i].1.path == before[j].path
                    && ps0[i].1.manifest_path == before[j].manifest_path && ps0[i].1.manifest
                    == before[j].manifest;
            assert(after[j] == before[j]);
            assert forall|m: int| j < m < after.len() implies (#[trigger] after[m]).manifest.name@ != ps1[i].0@ by {
                if m < last {
                    assert(after[m] == before[m]);
                }
            }
            assert(last_named(after, j, ps1[i].0@));
        }
    }
}
} // verus!
