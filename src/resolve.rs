//! The transitive closure of requested packages over the catalog's dependencies.
use vstd::prelude::*;
use crate::text::string_views;
use crate::catalog::{
    PackageSpec, dependencies_in, find_remote_package_by_name, first_package_node, lookup,
    package_in,
};
use crate::xml::{Catalog, CatalogError, xml_attribute, xml_children, xml_nodes};

verus! {

/// The dependencies of a package; none where its entry cannot be read.
pub open spec fn deps_of(text: Seq<char>, root_url: Seq<char>, name: Seq<char>) -> Seq<Seq<char>> {
    match lookup(text, root_url, name) {
        Ok(p) => p.dependencies,
        Err(_) => Seq::empty(),
    }
}

/// Each identifier of `p` after the first is a dependency of the one before it.
pub open spec fn is_dep_path(text: Seq<char>, root_url: Seq<char>, p: Seq<Seq<char>>) -> bool {
    forall|i: int| 0 <= i < p.len() - 1 ==> (#[trigger] deps_of(text, root_url, p[i])).contains(p[i + 1])
}

/// `x` is reached from one of `roots` by following dependencies (a root reaches itself).
pub open spec fn reachable(text: Seq<char>, root_url: Seq<char>, roots: Seq<Seq<char>>, x: Seq<char>) -> bool {
    exists|p: Seq<Seq<char>>|
        p.len() > 0 && roots.contains(p[0]) && p.last() == x && #[trigger] is_dep_path(text, root_url, p)
}

/// Every identifier reachable from `roots`.
pub open spec fn closure(text: Seq<char>, root_url: Seq<char>, roots: Seq<Seq<char>>) -> Set<Seq<char>> {
    Set::new(|x: Seq<char>| reachable(text, root_url, roots, x))
}

/// The `path` attribute of a node, or empty.
pub open spec fn path_value(text: Seq<char>, node: usize) -> Seq<char> {
    match xml_attribute(text, node, "path"@) {
        Some(v) => v,
        None => Seq::empty(),
    }
}

/// The `path` attributes of all nodes, in document order.
pub open spec fn path_values(text: Seq<char>) -> Seq<Seq<char>> {
    xml_nodes(text).map_values(|n: usize| path_value(text, n))
}

proof fn lemma_step(text: Seq<char>, root_url: Seq<char>, roots: Seq<Seq<char>>, x: Seq<char>, d: Seq<char>)
    requires
        reachable(text, root_url, roots, x),
        deps_of(text, root_url, x).contains(d),
    ensures
        reachable(text, root_url, roots, d),
{
    let p = choose|p: Seq<Seq<char>>|
        p.len() > 0 && roots.contains(p[0]) && p.last() == x && #[trigger] is_dep_path(text, root_url, p);
    let q = p.push(d);
    assert forall|i: int| 0 <= i < q.len() - 1 implies (#[trigger] deps_of(text, root_url, q[i])).contains(q[i + 1]) by {
        if i < p.len() - 1 {
            assert(q[i] == p[i] && q[i + 1] == p[i + 1]);
        } else {
            assert(q[i] == x && q[i + 1] == d);
        }
    }
    assert(q[0] == p[0]);
    assert(is_dep_path(text, root_url, q));
}

proof fn lemma_root(text: Seq<char>, root_url: Seq<char>, roots: Seq<Seq<char>>, x: Seq<char>)
    requires
        roots.contains(x),
    ensures
        reachable(text, root_url, roots, x),
{
    let p = seq![x];
    assert(is_dep_path(text, root_url, p));
}

/// Every identifier on a dependency path from a root lies in a set that holds
/// the roots and the dependencies of each of its members.
proof fn lemma_path_in(text: Seq<char>, root_url: Seq<char>, roots: Seq<Seq<char>>, v: Seq<Seq<char>>, p: Seq<Seq<char>>, k: int)
    requires
        p.len() > 0,
        roots.contains(p[0]),
        is_dep_path(text, root_url, p),
        0 <= k < p.len(),
        forall|r: Seq<char>| roots.contains(r) ==> v.contains(r),
        forall|x: Seq<char>, d: Seq<char>|
            v.contains(x) && #[trigger] deps_of(text, root_url, x).contains(d) ==> v.contains(d),
    ensures
        v.contains(p[k]),
    decreases k,
{
    if k > 0 {
        lemma_path_in(text, root_url, roots, v, p, k - 1);
        assert(deps_of(text, root_url, p[k - 1]).contains(p[k]));
    }
}

proof fn lemma_first_node_in(text: Seq<char>, nodes: Seq<usize>, name: Seq<char>)
    requires
        first_package_node(text, nodes, name) is Some,
    ensures
        nodes.contains(first_package_node(text, nodes, name)->0),
    decreases nodes.len(),
{
    if !crate::catalog::is_package_node(text, nodes[0], name) {
        lemma_first_node_in(text, nodes.drop_first(), name);
        let n = first_package_node(text, nodes, name)->0;
        let k = choose|k: int| 0 <= k < nodes.drop_first().len() && nodes.drop_first()[k] == n;
        assert(nodes[k + 1] == n);
    } else {
        assert(nodes[0] == first_package_node(text, nodes, name)->0);
    }
}

proof fn lemma_dependencies_from(text: Seq<char>, kids: Seq<usize>)
    requires
        dependencies_in(text, kids) is Ok,
        forall|i: int| 0 <= i < kids.len() ==> xml_nodes(text).contains(#[trigger] kids[i]),
    ensures
        forall|d: Seq<char>|
            #[trigger] dependencies_in(text, kids)->Ok_0.contains(d) ==> path_values(text).contains(d),
    decreases kids.len(),
{
    if kids.len() > 0 {
        let rest = kids.drop_last();
        lemma_dependencies_from(text, rest);
        let k = kids.last();
        assert(xml_nodes(text).contains(k)) by {
            assert(kids[kids.len() - 1] == k);
        }
        let j = choose|j: int| 0 <= j < xml_nodes(text).len() && xml_nodes(text)[j] == k;
        assert(path_values(text)[j] == path_value(text, k));
        assert forall|d: Seq<char>| #[trigger] dependencies_in(text, kids)->Ok_0.contains(d) implies path_values(text).contains(d) by {
            let s = dependencies_in(text, rest)->Ok_0;
            if dependencies_in(text, kids)->Ok_0 != s {
                let i = choose|i: int| 0 <= i < s.push(path_value(text, k)).len() && s.push(path_value(text, k))[i] == d;
                if i < s.len() {
                    assert(s[i] == d);
                    assert(s.contains(d));
                } else {
                    assert(path_values(text)[j] == d);
                }
            }
        }
    }
}

proof fn lemma_package_deps_from(text: Seq<char>, root_url: Seq<char>, kids: Seq<usize>)
    requires
        package_in(text, root_url, kids) is Ok,
        forall|i: int| 0 <= i < kids.len() ==> xml_nodes(text).contains(#[trigger] kids[i]),
        forall|n: usize, c: usize|
            xml_nodes(text).contains(n) && #[trigger] xml_children(text, n).contains(c) ==> xml_nodes(text).contains(c),
    ensures
        forall|d: Seq<char>|
            #[trigger] package_in(text, root_url, kids)->Ok_0.dependencies.contains(d) ==> path_values(text).contains(d),
    decreases kids.len(),
{
    if kids.len() > 0 {
        let rest = kids.drop_last();
        lemma_package_deps_from(text, root_url, rest);
        let k = kids.last();
        assert(xml_nodes(text).contains(k)) by {
            assert(kids[kids.len() - 1] == k);
        }
        let ch = xml_children(text, k);
        assert forall|i: int| 0 <= i < ch.len() implies xml_nodes(text).contains(#[trigger] ch[i]) by {
            assert(ch.contains(ch[i]));
        }
        if dependencies_in(text, ch) is Ok {
            lemma_dependencies_from(text, ch);
        }
    }
}

/// The dependencies of any package that the catalog lists are `path`
/// attributes of its nodes.
proof fn lemma_deps_from(text: Seq<char>, root_url: Seq<char>, name: Seq<char>)
    requires
        forall|n: usize, c: usize|
            xml_nodes(text).contains(n) && #[trigger] xml_children(text, n).contains(c) ==> xml_nodes(text).contains(c),
    ensures
        forall|d: Seq<char>|
            #[trigger] deps_of(text, root_url, name).contains(d) ==> path_values(text).contains(d),
{
    match first_package_node(text, xml_nodes(text), name) {
        None => {},
        Some(n) => {
            lemma_first_node_in(text, xml_nodes(text), name);
            let ch = xml_children(text, n);
            assert forall|i: int| 0 <= i < ch.len() implies xml_nodes(text).contains(#[trigger] ch[i]) by {
                assert(ch.contains(ch[i]));
            }
            if package_in(text, root_url, ch) is Ok {
                lemma_package_deps_from(text, root_url, ch);
            }
        },
    }
}

/// Resolving an identifier that the catalog does not list gives that
/// identifier alone, and no error.
pub proof fn lemma_unknown_root(text: Seq<char>, root_url: Seq<char>, name: Seq<char>)
    requires
        first_package_node(text, xml_nodes(text), name) is None,
    ensures
        closure(text, root_url, seq![name]) == set![name],
        lookup(text, root_url, name) is Ok,
{
    assert(deps_of(text, root_url, name) =~= Seq::<Seq<char>>::empty());
    assert forall|x: Seq<char>| closure(text, root_url, seq![name]).contains(x) <==> x == name by {
        if closure(text, root_url, seq![name]).contains(x) {
            let p = choose|p: Seq<Seq<char>>|
                p.len() > 0 && seq![name].contains(p[0]) && p.last() == x && #[trigger] is_dep_path(text, root_url, p);
            assert(p[0] == name);
            if p.len() > 1 {
                assert(deps_of(text, root_url, p[0]).contains(p[1]));
            }
        }
        if x == name {
            assert(seq![name][0] == name);
            lemma_root(text, root_url, seq![name], name);
        }
    }
    assert(closure(text, root_url, seq![name]) =~= set![name]);
}

/// Resolving two lists of roots together reaches what each reaches alone.
pub proof fn lemma_closure_union(text: Seq<char>, root_url: Seq<char>, r1: Seq<Seq<char>>, r2: Seq<Seq<char>>)
    ensures
        closure(text, root_url, r1 + r2) == closure(text, root_url, r1).union(closure(text, root_url, r2)),
{
    assert forall|x: Seq<char>|
        #[trigger] closure(text, root_url, r1 + r2).contains(x) <==> closure(text, root_url, r1).union(
            closure(text, root_url, r2),
        ).contains(x) by {
        if closure(text, root_url, r1 + r2).contains(x) {
            let p = choose|p: Seq<Seq<char>>|
                p.len() > 0 && (r1 + r2).contains(p[0]) && p.last() == x && #[trigger] is_dep_path(text, root_url, p);
            let k = choose|k: int| 0 <= k < (r1 + r2).len() && (r1 + r2)[k] == p[0];
            if k < r1.len() {
                assert(r1[k] == p[0]);
                assert(reachable(text, root_url, r1, x));
            } else {
                assert(r2[k - r1.len()] == p[0]);
                assert(reachable(text, root_url, r2, x));
            }
        }
        if closure(text, root_url, r1).contains(x) {
            let p = choose|p: Seq<Seq<char>>|
                p.len() > 0 && r1.contains(p[0]) && p.last() == x && #[trigger] is_dep_path(text, root_url, p);
            let k = choose|k: int| 0 <= k < r1.len() && r1[k] == p[0];
            assert((r1 + r2)[k] == p[0]);
            assert(reachable(text, root_url, r1 + r2, x));
        }
        if closure(text, root_url, r2).contains(x) {
            let p = choose|p: Seq<Seq<char>>|
                p.len() > 0 && r2.contains(p[0]) && p.last() == x && #[trigger] is_dep_path(text, root_url, p);
            let k = choose|k: int| 0 <= k < r2.len() && r2[k] == p[0];
            assert((r1 + r2)[r1.len() + k] == p[0]);
            assert(reachable(text, root_url, r1 + r2, x));
        }
    }
    assert(closure(text, root_url, r1 + r2) =~= closure(text, root_url, r1).union(closure(text, root_url, r2)));
}

/// A list that already holds every dependency of its members resolves to itself.
pub proof fn lemma_closed_resolves_to_itself(text: Seq<char>, root_url: Seq<char>, s: Seq<Seq<char>>)
    requires
        forall|x: Seq<char>, d: Seq<char>|
            s.contains(x) && #[trigger] deps_of(text, root_url, x).contains(d) ==> s.contains(d),
    ensures
        closure(text, root_url, s) == s.to_set(),
{
    assert forall|x: Seq<char>| #[trigger] closure(text, root_url, s).contains(x) <==> s.to_set().contains(x) by {
        if closure(text, root_url, s).contains(x) {
            let p = choose|p: Seq<Seq<char>>|
                p.len() > 0 && s.contains(p[0]) && p.last() == x && #[trigger] is_dep_path(text, root_url, p);
            lemma_path_in(text, root_url, s, s, p, p.len() - 1);
        }
        if s.contains(x) {
            lemma_root(text, root_url, s, x);
        }
    }
    assert(closure(text, root_url, s) =~= s.to_set());
}

/// Whether `names` holds `x`.
pub fn contains_name(names: &Vec<String>, x: &String) -> (r: bool)
    ensures
        r == string_views(names@).contains(x@),
{
    let mut i: usize = 0;
    while i < names.len()
        invariant
            i <= names@.len(),
            forall|k: int| 0 <= k < i ==> names@[k]@ != x@,
        decreases names@.len() - i,
    {
        if names[i] == *x {
            assert(string_views(names@)[i as int] == x@);
            return true;
        }
        i = i + 1;
    }
    assert forall|k: int| 0 <= k < string_views(names@).len() implies string_views(names@)[k] != x@ by {
        assert(names@[k]@ != x@);
    }
    false
}

/// The packages, each one once, reached from the subset `v` of `u`, are no more than `u` holds.
proof fn lemma_bounded(v: Seq<Seq<char>>, u: Set<Seq<char>>)
    requires
        v.no_duplicates(),
        u.finite(),
        forall|x: Seq<char>| v.contains(x) ==> u.contains(x),
    ensures
        v.len() <= u.len(),
{
    v.unique_seq_to_set();
    assert(v.to_set().subset_of(u));
    vstd::set_lib::lemma_len_subset(v.to_set(), u);
}

/// Every package the resolution needs: the requested `roots` and, transitively,
/// the dependencies that the catalog gives for each, every identifier once. An
/// identifier that the catalog does not list has no dependencies. The traversal
/// never descends twice into one identifier, so it ends on cyclic catalogs too.
/// It fails exactly when some reached package's catalog entry cannot be read.
pub fn resolve_dependencies(cat: &Catalog, root_url: &str, roots: &Vec<String>) -> (r: Result<
    Vec<String>,
    CatalogError,
>)
    ensures
        match r {
            Ok(v) => {
                &&& string_views(v@).no_duplicates()
                &&& string_views(v@).to_set() == closure(cat@, root_url@, string_views(roots@))
                &&& forall|x: Seq<char>|
                    #[trigger] closure(cat@, root_url@, string_views(roots@)).contains(x)
                        ==> lookup(cat@, root_url@, x) is Ok
            },
            Err(e) => exists|x: Seq<char>|
                reachable(cat@, root_url@, string_views(roots@), x) && #[trigger] lookup(
                    cat@,
                    root_url@,
                    x,
                ) == Err::<PackageSpec, CatalogError>(e),
        },
{
    let ghost rv = string_views(roots@);
    let mut visited: Vec<String> = Vec::new();
    let mut stack: Vec<String> = Vec::new();
    let mut i: usize = 0;
    while i < roots.len()
        invariant
            i <= roots@.len(),
            rv == string_views(roots@),
            string_views(visited@) == string_views(stack@),
            string_views(visited@).no_duplicates(),
            forall|v: Seq<char>| string_views(visited@).contains(v) ==> rv.contains(v),
            forall|k: int| 0 <= k < i ==> string_views(visited@).contains(#[trigger] rv[k]),
        decreases roots@.len() - i,
    {
        assert(rv[i as int] == roots@[i as int]@);
        if !contains_name(&visited, &roots[i]) {
            let ghost before = string_views(visited@);
            visited.push(roots[i].clone());
            stack.push(roots[i].clone());
            assert(string_views(visited@) =~= before.push(rv[i as int]));
            assert(string_views(stack@) =~= before.push(rv[i as int]));
            assert forall|v: Seq<char>| string_views(visited@).contains(v) implies rv.contains(v) by {
                if v != rv[i as int] {
                    let k = choose|k: int| 0 <= k < string_views(visited@).len() && string_views(visited@)[k] == v;
                    assert(before[k] == v);
                }
            }
            assert forall|k: int| 0 <= k <= i implies string_views(visited@).contains(#[trigger] rv[k]) by {
                if k < i {
                    let m = choose|m: int| 0 <= m < before.len() && before[m] == rv[k];
                    assert(string_views(visited@)[m] == rv[k]);
                } else {
                    assert(string_views(visited@)[before.len() as int] == rv[k]);
                }
            }
        }
        i = i + 1;
    }
    let nodes = cat.nodes();
    let ghost text = cat@;
    let ghost url = root_url@;
    let ghost bound: int = (roots@.len() + nodes@.len()) as int;
    let ghost universe: Set<Seq<char>> = (rv + path_values(text)).to_set();
    proof {
        (rv + path_values(text)).lemma_cardinality_of_set();
        vstd::seq_lib::seq_to_set_is_finite(rv + path_values(text));
        assert forall|x: Seq<char>| rv.contains(x) implies universe.contains(x) by {
            let k = choose|k: int| 0 <= k < rv.len() && rv[k] == x;
            assert((rv + path_values(text))[k] == x);
        }
        assert forall|x: Seq<char>| path_values(text).contains(x) implies universe.contains(x) by {
            let k = choose|k: int| 0 <= k < path_values(text).len() && path_values(text)[k] == x;
            assert((rv + path_values(text))[rv.len() + k] == x);
        }
    }
    proof {
        assert forall|v: Seq<char>| #[trigger] string_views(visited@).contains(v) implies reachable(text, url, rv, v) && universe.contains(v) by {
            assert(rv.contains(v));
            lemma_root(text, url, rv, v);
            assert(universe.contains(v));
        }
        lemma_bounded(string_views(visited@), universe);
    }
    while stack.len() > 0
        invariant
            rv == string_views(roots@),
            text == cat@,
            url == root_url@,
            nodes@ == xml_nodes(text),
            forall|n: usize, c: usize|
                nodes@.contains(n) && #[trigger] xml_children(text, n).contains(c) ==> nodes@.contains(c),
            universe.finite(),
            universe.len() <= bound,
            forall|x: Seq<char>| path_values(text).contains(x) ==> universe.contains(x),
            string_views(visited@).no_duplicates(),
            string_views(stack@).no_duplicates(),
            string_views(visited@).len() <= bound,
            forall|s: Seq<char>| string_views(stack@).contains(s) ==> string_views(visited@).contains(s),
            forall|v: Seq<char>| #[trigger] string_views(visited@).contains(v) ==> reachable(text, url, rv, v) && universe.contains(v),
            forall|x: Seq<char>| rv.contains(x) ==> string_views(visited@).contains(x),
            forall|v: Seq<char>| #[trigger] string_views(visited@).contains(v) ==> string_views(stack@).contains(v) || (
                lookup(text, url, v) is Ok && forall|d: Seq<char>| #[trigger] deps_of(text, url, v).contains(d) ==> string_views(visited@).contains(d)),
        decreases 2 * (bound - string_views(visited@).len()) + string_views(stack@).len(),
    {
        let ghost measure = 2 * (bound - string_views(visited@).len()) + string_views(stack@).len();
        let ghost s0 = string_views(stack@);
        let x = stack.pop().unwrap();
        assert(string_views(stack@) =~= s0.drop_last());
        assert(s0.last() == x@);
        assert(!string_views(stack@).contains(x@)) by {
            if string_views(stack@).contains(x@) {
                let k = choose|k: int| 0 <= k < string_views(stack@).len() && string_views(stack@)[k] == x@;
                assert(s0[k] == s0[s0.len() - 1]);
            }
        }
        assert(string_views(visited@).contains(x@)) by {
            assert(s0.contains(s0[s0.len() - 1]));
        }
        let pkg = match find_remote_package_by_name(cat, root_url, x.as_str()) {
            Ok(p) => p,
            Err(e) => {
                assert(reachable(text, url, rv, x@));
                return Err(e);
            },
        };
        proof {
            lemma_deps_from(text, url, x@);
        }
        let deps = pkg.dependencies;
        assert forall|v: Seq<char>| s0.contains(v) implies v == x@ || string_views(stack@).contains(v) by {
            let k = choose|k: int| 0 <= k < s0.len() && s0[k] == v;
            if k < s0.len() - 1 {
                assert(string_views(stack@)[k] == v);
            }
        }
        assert(string_views(deps@) == deps_of(text, url, x@));
        let mut j: usize = 0;
        while j < deps.len()
            invariant
                j <= deps@.len(),
                string_views(deps@) == deps_of(text, url, x@),
                lookup(text, url, x@) is Ok,
                rv == string_views(roots@),
                universe.finite(),
                universe.len() <= bound,
                forall|y: Seq<char>| path_values(text).contains(y) ==> universe.contains(y),
                forall|d: Seq<char>| #[trigger] deps_of(text, url, x@).contains(d) ==> path_values(text).contains(d),
                string_views(visited@).no_duplicates(),
                string_views(stack@).no_duplicates(),
                string_views(visited@).len() <= bound,
                2 * (bound - string_views(visited@).len()) + string_views(stack@).len() < measure,
                !string_views(stack@).contains(x@),
                string_views(visited@).contains(x@),
                forall|s: Seq<char>| string_views(stack@).contains(s) ==> string_views(visited@).contains(s),
                forall|v: Seq<char>| #[trigger] string_views(visited@).contains(v) ==> reachable(text, url, rv, v) && universe.contains(v),
                forall|y: Seq<char>| rv.contains(y) ==> string_views(visited@).contains(y),
                forall|v: Seq<char>| #[trigger] string_views(visited@).contains(v) ==> v == x@ || string_views(stack@).contains(v) || (
                    lookup(text, url, v) is Ok && forall|d: Seq<char>| #[trigger] deps_of(text, url, v).contains(d) ==> string_views(visited@).contains(d)),
                forall|k: int| 0 <= k < j ==> string_views(visited@).contains(#[trigger] string_views(deps@)[k]),
            decreases deps@.len() - j,
        {
            let ghost d = deps@[j as int]@;
            assert(string_views(deps@)[j as int] == d);
            assert(deps_of(text, url, x@).contains(d));
            if !contains_name(&visited, &deps[j]) {
                let ghost v0 = string_views(visited@);
                let ghost st0 = string_views(stack@);
                visited.push(deps[j].clone());
                stack.push(deps[j].clone());
                assert(string_views(visited@) =~= v0.push(d));
                assert(string_views(stack@) =~= st0.push(d));
                proof {
                    lemma_step(text, url, rv, x@, d);
                    assert forall|y: Seq<char>| string_views(visited@).contains(y) implies v0.contains(y) || y == d by {
                        let k = choose|k: int| 0 <= k < string_views(visited@).len() && string_views(visited@)[k] == y;
                        if k < v0.len() {
                            assert(v0[k] == y);
                        }
                    }
                    assert forall|y: Seq<char>| v0.contains(y) implies string_views(visited@).contains(y) by {
                        let k = choose|k: int| 0 <= k < v0.len() && v0[k] == y;
                        assert(string_views(visited@)[k] == y);
                    }
                    assert forall|y: Seq<char>| st0.contains(y) implies string_views(stack@).contains(y) by {
                        let k = choose|k: int| 0 <= k < st0.len() && st0[k] == y;
                        assert(string_views(stack@)[k] == y);
                    }
                    assert(string_views(visited@).contains(d)) by {
                        assert(string_views(visited@)[v0.len() as int] == d);
                    }
                    assert(string_views(stack@).contains(d)) by {
                        assert(string_views(stack@)[st0.len() as int] == d);
                    }
                    assert forall|y: Seq<char>| string_views(stack@).contains(y) implies st0.contains(y) || y == d by {
                        let k = choose|k: int| 0 <= k < string_views(stack@).len() && string_views(stack@)[k] == y;
                        if k < st0.len() {
                            assert(st0[k] == y);
                        }
                    }
                    assert forall|y: Seq<char>| string_views(visited@).contains(y) implies universe.contains(y) by {
                        if y != d {
                            assert(v0.contains(y));
                        }
                    }
                    assert forall|y: Seq<char>| string_views(stack@).contains(y) implies string_views(visited@).contains(y) by {
                        if y != d {
                            assert(st0.contains(y));
                            assert(v0.contains(y));
                        }
                    }
                    lemma_bounded(string_views(visited@), universe);
                    assert forall|y: Seq<char>| #[trigger] string_views(visited@).contains(y) implies reachable(text, url, rv, y) && universe.contains(y) by {
                        if y != d {
                            assert(v0.contains(y));
                        }
                    }
                    assert forall|y: Seq<char>| #[trigger] string_views(visited@).contains(y) implies y == x@ || string_views(stack@).contains(y) || (
                        lookup(text, url, y) is Ok && forall|e: Seq<char>| #[trigger] deps_of(text, url, y).contains(e) ==> string_views(visited@).contains(e)) by {
                        if y != d {
                            assert(v0.contains(y));
                            if st0.contains(y) {
                            } else if y != x@ {
                                assert forall|e: Seq<char>| #[trigger] deps_of(text, url, y).contains(e) implies string_views(visited@).contains(e) by {
                                    assert(v0.contains(e));
                                }
                            }
                        }
                    }
                }
            }
            j = j + 1;
        }
        assert forall|d: Seq<char>| #[trigger] deps_of(text, url, x@).contains(d) implies string_views(visited@).contains(d) by {
            let k = choose|k: int| 0 <= k < string_views(deps@).len() && string_views(deps@)[k] == d;
        }
    }
    proof {
        let v = string_views(visited@);
        assert forall|x: Seq<char>| #[trigger] v.to_set().contains(x) <==> closure(text, url, rv).contains(x) by {
            if closure(text, url, rv).contains(x) {
                let p = choose|p: Seq<Seq<char>>|
                    p.len() > 0 && rv.contains(p[0]) && p.last() == x && #[trigger] is_dep_path(text, url, p);
                lemma_path_in(text, url, rv, v, p, p.len() - 1);
            }
        }
        assert(v.to_set() =~= closure(text, url, rv));
    }
    Ok(visited)
}

} // verus!
