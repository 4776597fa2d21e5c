//! Packages as the catalog describes them: their archives and their dependencies.
use vstd::prelude::*;
use crate::text::string_views;
use crate::xml::{Catalog, CatalogError, xml_attribute, xml_children, xml_has_tag, xml_nodes, xml_text};

verus! {

/// One downloadable archive of a package.
pub struct Archive {
    /// Host platform tag; empty means any platform.
    pub host_os: String,
    /// Absolute download address; empty when the catalog gives none.
    pub url: String,
}

/// What an archive holds, as text.
pub struct ArchiveSpec {
    pub host_os: Seq<char>,
    pub url: Seq<char>,
}

impl View for Archive {
    type V = ArchiveSpec;

    open spec fn view(&self) -> ArchiveSpec {
        ArchiveSpec { host_os: self.host_os@, url: self.url@ }
    }
}

/// A package: its archives and the identifiers of the packages it depends on.
pub struct Package {
    pub archives: Vec<Archive>,
    pub dependencies: Vec<String>,
}

/// What a package holds, as text.
pub struct PackageSpec {
    pub archives: Seq<ArchiveSpec>,
    pub dependencies: Seq<Seq<char>>,
}

/// The contents of a list of archives.
pub open spec fn archive_views(s: Seq<Archive>) -> Seq<ArchiveSpec> {
    s.map_values(|a: Archive| a@)
}

impl View for Package {
    type V = PackageSpec;

    open spec fn view(&self) -> PackageSpec {
        PackageSpec {
            archives: archive_views(self.archives@),
            dependencies: string_views(self.dependencies@),
        }
    }
}

/// The package of an identifier that the catalog does not list.
pub open spec fn empty_package() -> PackageSpec {
    PackageSpec { archives: Seq::empty(), dependencies: Seq::empty() }
}

/// The first of `kids` that is an element named `tag`.
pub open spec fn first_tagged(text: Seq<char>, kids: Seq<usize>, tag: Seq<char>) -> Option<usize>
    decreases kids.len(),
{
    if kids.len() == 0 {
        None
    } else if xml_has_tag(text, kids[0], tag) {
        Some(kids[0])
    } else {
        first_tagged(text, kids.drop_first(), tag)
    }
}

/// The platform tag among an archive's children: the text of the last
/// `host-os` element, or empty when there is none.
pub open spec fn host_os_in(text: Seq<char>, kids: Seq<usize>) -> Result<Seq<char>, CatalogError>
    decreases kids.len(),
{
    if kids.len() == 0 {
        Ok(Seq::empty())
    } else {
        match host_os_in(text, kids.drop_last()) {
            Err(e) => Err(e),
            Ok(h) => if xml_has_tag(text, kids.last(), "host-os"@) {
                match xml_text(text, kids.last()) {
                    Some(t) => Ok(t),
                    None => Err(CatalogError::MissingHostOs),
                }
            } else {
                Ok(h)
            },
        }
    }
}

/// The download address of an archive: `root_url` followed by the text of the
/// first `url` in its first `complete` element; empty when either is absent.
pub open spec fn url_of(text: Seq<char>, root_url: Seq<char>, archive: usize) -> Result<
    Seq<char>,
    CatalogError,
> {
    match first_tagged(text, xml_children(text, archive), "complete"@) {
        None => Ok(Seq::empty()),
        Some(c) => match first_tagged(text, xml_children(text, c), "url"@) {
            None => Ok(Seq::empty()),
            Some(u) => match xml_text(text, u) {
                Some(t) => Ok(root_url + t),
                None => Err(CatalogError::MissingUrl),
            },
        },
    }
}

/// The archive that an `archive` element describes.
pub open spec fn archive_at(text: Seq<char>, root_url: Seq<char>, node: usize) -> Result<
    ArchiveSpec,
    CatalogError,
> {
    match host_os_in(text, xml_children(text, node)) {
        Err(e) => Err(e),
        Ok(h) => match url_of(text, root_url, node) {
            Err(e) => Err(e),
            Ok(u) => Ok(ArchiveSpec { host_os: h, url: u }),
        },
    }
}

/// The archives that the `archive` elements among `kids` describe, in order.
pub open spec fn archives_in(text: Seq<char>, root_url: Seq<char>, kids: Seq<usize>) -> Result<
    Seq<ArchiveSpec>,
    CatalogError,
>
    decreases kids.len(),
{
    if kids.len() == 0 {
        Ok(Seq::empty())
    } else {
        match archives_in(text, root_url, kids.drop_last()) {
            Err(e) => Err(e),
            Ok(s) => if xml_has_tag(text, kids.last(), "archive"@) {
                match archive_at(text, root_url, kids.last()) {
                    Err(e) => Err(e),
                    Ok(a) => Ok(s.push(a)),
                }
            } else {
                Ok(s)
            },
        }
    }
}

/// The `path` attributes of the `dependency` elements among `kids`, in order.
pub open spec fn dependencies_in(text: Seq<char>, kids: Seq<usize>) -> Result<
    Seq<Seq<char>>,
    CatalogError,
>
    decreases kids.len(),
{
    if kids.len() == 0 {
        Ok(Seq::empty())
    } else {
        match dependencies_in(text, kids.drop_last()) {
            Err(e) => Err(e),
            Ok(s) => if xml_has_tag(text, kids.last(), "dependency"@) {
                match xml_attribute(text, kids.last(), "path"@) {
                    Some(p) => Ok(s.push(p)),
                    None => Err(CatalogError::MissingDependencyPath),
                }
            } else {
                Ok(s)
            },
        }
    }
}

/// The package that the children `kids` of a `remotePackage` element describe:
/// the archives of its `archives` element and the dependencies of its
/// `dependencies` element (the last of each, if repeated).
pub open spec fn package_in(text: Seq<char>, root_url: Seq<char>, kids: Seq<usize>) -> Result<
    PackageSpec,
    CatalogError,
>
    decreases kids.len(),
{
    if kids.len() == 0 {
        Ok(empty_package())
    } else {
        match package_in(text, root_url, kids.drop_last()) {
            Err(e) => Err(e),
            Ok(p) => if xml_has_tag(text, kids.last(), "archives"@) {
                match archives_in(text, root_url, xml_children(text, kids.last())) {
                    Err(e) => Err(e),
                    Ok(a) => Ok(PackageSpec { archives: a, dependencies: p.dependencies }),
                }
            } else if xml_has_tag(text, kids.last(), "dependencies"@) {
                match dependencies_in(text, xml_children(text, kids.last())) {
                    Err(e) => Err(e),
                    Ok(d) => Ok(PackageSpec { archives: p.archives, dependencies: d }),
                }
            } else {
                Ok(p)
            },
        }
    }
}

/// Whether a node is the `remotePackage` element of the identifier `name`.
pub open spec fn is_package_node(text: Seq<char>, node: usize, name: Seq<char>) -> bool {
    xml_has_tag(text, node, "remotePackage"@) && xml_attribute(text, node, "path"@) == Some(name)
}

/// The first of `nodes` that is the `remotePackage` element of `name`.
pub open spec fn first_package_node(text: Seq<char>, nodes: Seq<usize>, name: Seq<char>) -> Option<
    usize,
>
    decreases nodes.len(),
{
    if nodes.len() == 0 {
        None
    } else if is_package_node(text, nodes[0], name) {
        Some(nodes[0])
    } else {
        first_package_node(text, nodes.drop_first(), name)
    }
}

/// The package that the catalog lists under `name`; an identifier that it does
/// not list is a package with no archives and no dependencies.
pub open spec fn lookup(text: Seq<char>, root_url: Seq<char>, name: Seq<char>) -> Result<
    PackageSpec,
    CatalogError,
> {
    match first_package_node(text, xml_nodes(text), name) {
        None => Ok(empty_package()),
        Some(n) => package_in(text, root_url, xml_children(text, n)),
    }
}

/// Every id of `kids` is a node of the document.
pub open spec fn all_nodes(text: Seq<char>, kids: Seq<usize>) -> bool {
    forall|i: int| 0 <= i < kids.len() ==> xml_nodes(text).contains(#[trigger] kids[i])
}

proof fn lemma_host_os_err(text: Seq<char>, kids: Seq<usize>, k: int)
    requires
        0 <= k <= kids.len(),
        host_os_in(text, kids.subrange(0, k)) is Err,
    ensures
        host_os_in(text, kids) == host_os_in(text, kids.subrange(0, k)),
    decreases kids.len() - k,
{
    if k < kids.len() {
        assert(kids.subrange(0, k + 1).drop_last() =~= kids.subrange(0, k));
        lemma_host_os_err(text, kids, k + 1);
    } else {
        assert(kids.subrange(0, k) =~= kids);
    }
}

proof fn lemma_archives_err(text: Seq<char>, root_url: Seq<char>, kids: Seq<usize>, k: int)
    requires
        0 <= k <= kids.len(),
        archives_in(text, root_url, kids.subrange(0, k)) is Err,
    ensures
        archives_in(text, root_url, kids) == archives_in(text, root_url, kids.subrange(0, k)),
    decreases kids.len() - k,
{
    if k < kids.len() {
        assert(kids.subrange(0, k + 1).drop_last() =~= kids.subrange(0, k));
        lemma_archives_err(text, root_url, kids, k + 1);
    } else {
        assert(kids.subrange(0, k) =~= kids);
    }
}

proof fn lemma_dependencies_err(text: Seq<char>, kids: Seq<usize>, k: int)
    requires
        0 <= k <= kids.len(),
        dependencies_in(text, kids.subrange(0, k)) is Err,
    ensures
        dependencies_in(text, kids) == dependencies_in(text, kids.subrange(0, k)),
    decreases kids.len() - k,
{
    if k < kids.len() {
        assert(kids.subrange(0, k + 1).drop_last() =~= kids.subrange(0, k));
        lemma_dependencies_err(text, kids, k + 1);
    } else {
        assert(kids.subrange(0, k) =~= kids);
    }
}

proof fn lemma_package_err(text: Seq<char>, root_url: Seq<char>, kids: Seq<usize>, k: int)
    requires
        0 <= k <= kids.len(),
        package_in(text, root_url, kids.subrange(0, k)) is Err,
    ensures
        package_in(text, root_url, kids) == package_in(text, root_url, kids.subrange(0, k)),
    decreases kids.len() - k,
{
    if k < kids.len() {
        assert(kids.subrange(0, k + 1).drop_last() =~= kids.subrange(0, k));
        lemma_package_err(text, root_url, kids, k + 1);
    } else {
        assert(kids.subrange(0, k) =~= kids);
    }
}

/// The first of `kids` that is an element named `tag`.
fn find_first_tagged(cat: &Catalog, kids: &Vec<usize>, tag: &str) -> (r: Option<usize>)
    requires
        all_nodes(cat@, kids@),
    ensures
        r == first_tagged(cat@, kids@, tag@),
        r is Some ==> kids@.contains(r->0),
{
    let n = kids.len();
    let mut i: usize = 0;
    assert(kids@.subrange(0, n as int) =~= kids@);
    while i < n
        invariant
            n == kids@.len(),
            i <= n,
            all_nodes(cat@, kids@),
            first_tagged(cat@, kids@, tag@) == first_tagged(cat@, kids@.subrange(i as int, n as int), tag@),
        decreases n - i,
    {
        let ghost rest = kids@.subrange(i as int, n as int);
        assert(rest[0] == kids@[i as int]);
        assert(rest.drop_first() =~= kids@.subrange(i + 1, n as int));
        if cat.has_tag(kids[i], tag) {
            return Some(kids[i]);
        }
        i = i + 1;
    }
    None
}

/// The platform tag among an archive's children.
fn host_os_of(cat: &Catalog, kids: &Vec<usize>) -> (r: Result<String, CatalogError>)
    requires
        all_nodes(cat@, kids@),
    ensures
        match r {
            Ok(h) => host_os_in(cat@, kids@) == Ok::<Seq<char>, CatalogError>(h@),
            Err(e) => host_os_in(cat@, kids@) == Err::<Seq<char>, CatalogError>(e),
        },
{
    let mut h = String::new();
    let n = kids.len();
    let mut i: usize = 0;
    assert(kids@.subrange(0, 0) =~= Seq::<usize>::empty());
    while i < n
        invariant
            n == kids@.len(),
            i <= n,
            all_nodes(cat@, kids@),
            host_os_in(cat@, kids@.subrange(0, i as int)) == Ok::<Seq<char>, CatalogError>(h@),
        decreases n - i,
    {
        let ghost pre = kids@.subrange(0, i + 1);
        assert(pre.drop_last() =~= kids@.subrange(0, i as int));
        assert(pre.last() == kids@[i as int]);
        if cat.has_tag(kids[i], "host-os") {
            match cat.text_of(kids[i]) {
                Some(t) => {
                    h = t;
                },
                None => {
                    proof {
                        lemma_host_os_err(cat@, kids@, i + 1);
                    }
                    return Err(CatalogError::MissingHostOs);
                },
            }
        }
        i = i + 1;
    }
    assert(kids@.subrange(0, n as int) =~= kids@);
    Ok(h)
}

/// The download address of the archive described by `node`.
fn url_of_archive(cat: &Catalog, root_url: &str, node: usize) -> (r: Result<String, CatalogError>)
    requires
        xml_nodes(cat@).contains(node),
    ensures
        match r {
            Ok(u) => url_of(cat@, root_url@, node) == Ok::<Seq<char>, CatalogError>(u@),
            Err(e) => url_of(cat@, root_url@, node) == Err::<Seq<char>, CatalogError>(e),
        },
{
    let kids = cat.children(node);
    match find_first_tagged(cat, &kids, "complete") {
        None => Ok(String::new()),
        Some(c) => {
            let inner = cat.children(c);
            match find_first_tagged(cat, &inner, "url") {
                None => Ok(String::new()),
                Some(u) => match cat.text_of(u) {
                    Some(t) => Ok(String::from_str(root_url).concat(t.as_str())),
                    None => Err(CatalogError::MissingUrl),
                },
            }
        },
    }
}

/// The archive that the `archive` element `node` describes.
fn read_archive(cat: &Catalog, root_url: &str, node: usize) -> (r: Result<Archive, CatalogError>)
    requires
        xml_nodes(cat@).contains(node),
    ensures
        match r {
            Ok(a) => archive_at(cat@, root_url@, node) == Ok::<ArchiveSpec, CatalogError>(a@),
            Err(e) => archive_at(cat@, root_url@, node) == Err::<ArchiveSpec, CatalogError>(e),
        },
{
    let kids = cat.children(node);
    let host_os = match host_os_of(cat, &kids) {
        Ok(h) => h,
        Err(e) => return Err(e),
    };
    let url = match url_of_archive(cat, root_url, node) {
        Ok(u) => u,
        Err(e) => return Err(e),
    };
    Ok(Archive { host_os, url })
}

/// The archives listed under the `archives` element `node`, in order.
fn list_archives(cat: &Catalog, root_url: &str, node: usize) -> (r: Result<Vec<Archive>, CatalogError>)
    requires
        xml_nodes(cat@).contains(node),
    ensures
        match r {
            Ok(v) => archives_in(cat@, root_url@, xml_children(cat@, node))
                == Ok::<Seq<ArchiveSpec>, CatalogError>(archive_views(v@)),
            Err(e) => archives_in(cat@, root_url@, xml_children(cat@, node))
                == Err::<Seq<ArchiveSpec>, CatalogError>(e),
        },
{
    let kids = cat.children(node);
    let mut out: Vec<Archive> = Vec::new();
    let n = kids.len();
    let mut i: usize = 0;
    assert(kids@.subrange(0, 0) =~= Seq::<usize>::empty());
    assert(archive_views(out@) =~= Seq::<ArchiveSpec>::empty());
    while i < n
        invariant
            n == kids@.len(),
            i <= n,
            kids@ == xml_children(cat@, node),
            all_nodes(cat@, kids@),
            archives_in(cat@, root_url@, kids@.subrange(0, i as int))
                == Ok::<Seq<ArchiveSpec>, CatalogError>(archive_views(out@)),
        decreases n - i,
    {
        let ghost pre = kids@.subrange(0, i + 1);
        assert(pre.drop_last() =~= kids@.subrange(0, i as int));
        assert(pre.last() == kids@[i as int]);
        if cat.has_tag(kids[i], "archive") {
            match read_archive(cat, root_url, kids[i]) {
                Ok(a) => {
                    let ghost before = out@;
                    out.push(a);
                    assert(archive_views(out@) =~= archive_views(before).push(out@.last()@));
                },
                Err(e) => {
                    proof {
                        lemma_archives_err(cat@, root_url@, kids@, i + 1);
                    }
                    return Err(e);
                },
            }
        }
        i = i + 1;
    }
    assert(kids@.subrange(0, n as int) =~= kids@);
    Ok(out)
}

/// The `path` attributes of the `dependency` elements under `node`, in order.
fn list_dependencies(cat: &Catalog, node: usize) -> (r: Result<Vec<String>, CatalogError>)
    requires
        xml_nodes(cat@).contains(node),
    ensures
        match r {
            Ok(v) => dependencies_in(cat@, xml_children(cat@, node))
                == Ok::<Seq<Seq<char>>, CatalogError>(string_views(v@)),
            Err(e) => dependencies_in(cat@, xml_children(cat@, node))
                == Err::<Seq<Seq<char>>, CatalogError>(e),
        },
{
    let kids = cat.children(node);
    let mut out: Vec<String> = Vec::new();
    let n = kids.len();
    let mut i: usize = 0;
    assert(kids@.subrange(0, 0) =~= Seq::<usize>::empty());
    assert(string_views(out@) =~= Seq::<Seq<char>>::empty());
    while i < n
        invariant
            n == kids@.len(),
            i <= n,
            kids@ == xml_children(cat@, node),
            all_nodes(cat@, kids@),
            dependencies_in(cat@, kids@.subrange(0, i as int))
                == Ok::<Seq<Seq<char>>, CatalogError>(string_views(out@)),
        decreases n - i,
    {
        let ghost pre = kids@.subrange(0, i + 1);
        assert(pre.drop_last() =~= kids@.subrange(0, i as int));
        assert(pre.last() == kids@[i as int]);
        if cat.has_tag(kids[i], "dependency") {
            match cat.attribute(kids[i], "path") {
                Some(p) => {
                    let ghost before = out@;
                    out.push(p);
                    assert(string_views(out@) =~= string_views(before).push(out@.last()@));
                },
                None => {
                    proof {
                        lemma_dependencies_err(cat@, kids@, i + 1);
                    }
                    return Err(CatalogError::MissingDependencyPath);
                },
            }
        }
        i = i + 1;
    }
    assert(kids@.subrange(0, n as int) =~= kids@);
    Ok(out)
}

/// The package that the `remotePackage` element `node` describes.
fn read_package(cat: &Catalog, root_url: &str, node: usize) -> (r: Result<Package, CatalogError>)
    requires
        xml_nodes(cat@).contains(node),
    ensures
        match r {
            Ok(p) => package_in(cat@, root_url@, xml_children(cat@, node))
                == Ok::<PackageSpec, CatalogError>(p@),
            Err(e) => package_in(cat@, root_url@, xml_children(cat@, node))
                == Err::<PackageSpec, CatalogError>(e),
        },
{
    let kids = cat.children(node);
    let mut pkg = Package { archives: Vec::new(), dependencies: Vec::new() };
    let n = kids.len();
    let mut i: usize = 0;
    assert(kids@.subrange(0, 0) =~= Seq::<usize>::empty());
    assert(pkg@ == empty_package()) by {
        assert(archive_views(pkg.archives@) =~= Seq::<ArchiveSpec>::empty());
        assert(string_views(pkg.dependencies@) =~= Seq::<Seq<char>>::empty());
    }
    while i < n
        invariant
            n == kids@.len(),
            i <= n,
            kids@ == xml_children(cat@, node),
            all_nodes(cat@, kids@),
            package_in(cat@, root_url@, kids@.subrange(0, i as int))
                == Ok::<PackageSpec, CatalogError>(pkg@),
        decreases n - i,
    {
        let ghost pre = kids@.subrange(0, i + 1);
        assert(pre.drop_last() =~= kids@.subrange(0, i as int));
        assert(pre.last() == kids@[i as int]);
        if cat.has_tag(kids[i], "archives") {
            match list_archives(cat, root_url, kids[i]) {
                Ok(a) => {
                    pkg.archives = a;
                },
                Err(e) => {
                    proof {
                        lemma_package_err(cat@, root_url@, kids@, i + 1);
                    }
                    return Err(e);
                },
            }
        } else if cat.has_tag(kids[i], "dependencies") {
            match list_dependencies(cat, kids[i]) {
                Ok(d) => {
                    pkg.dependencies = d;
                },
                Err(e) => {
                    proof {
                        lemma_package_err(cat@, root_url@, kids@, i + 1);
                    }
                    return Err(e);
                },
            }
        }
        i = i + 1;
    }
    assert(kids@.subrange(0, n as int) =~= kids@);
    Ok(pkg)
}

/// Looks up the package that the catalog lists under `package_name`. An
/// identifier that the catalog does not list gives a package with no archives
/// and no dependencies; archive addresses are prefixed with `root_url`.
pub fn find_remote_package_by_name(cat: &Catalog, root_url: &str, package_name: &str) -> (r: Result<
    Package,
    CatalogError,
>)
    ensures
        match r {
            Ok(p) => lookup(cat@, root_url@, package_name@) == Ok::<PackageSpec, CatalogError>(p@),
            Err(e) => lookup(cat@, root_url@, package_name@) == Err::<PackageSpec, CatalogError>(e),
        },
{
    let nodes = cat.nodes();
    let name = String::from_str(package_name);
    let n = nodes.len();
    let mut i: usize = 0;
    assert(nodes@.subrange(0, n as int) =~= nodes@);
    while i < n
        invariant
            n == nodes@.len(),
            i <= n,
            nodes@ == xml_nodes(cat@),
            name@ == package_name@,
            first_package_node(cat@, nodes@, package_name@) == first_package_node(
                cat@,
                nodes@.subrange(i as int, n as int),
                package_name@,
            ),
        decreases n - i,
    {
        let ghost rest = nodes@.subrange(i as int, n as int);
        assert(rest[0] == nodes@[i as int]);
        assert(rest.drop_first() =~= nodes@.subrange(i + 1, n as int));
        let node = nodes[i];
        assert(xml_nodes(cat@).contains(node)) by {
            assert(nodes@[i as int] == node);
        }
        if cat.has_tag(node, "remotePackage") {
            match cat.attribute(node, "path") {
                Some(p) => {
                    if p == name {
                        return read_package(cat, root_url, node);
                    }
                },
                None => {},
            }
        }
        i = i + 1;
    }
    assert(nodes@.subrange(n as int, n as int) =~= Seq::<usize>::empty());
    let empty = Package { archives: Vec::new(), dependencies: Vec::new() };
    assert(empty@ == empty_package()) by {
        assert(archive_views(empty.archives@) =~= Seq::<ArchiveSpec>::empty());
        assert(string_views(empty.dependencies@) =~= Seq::<Seq<char>>::empty());
    }
    Ok(empty)
}

} // verus!
