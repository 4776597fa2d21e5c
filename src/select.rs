//! Choosing, for each resolved package, the archives made for the host platform.
use vstd::prelude::*;
use crate::catalog::{Archive, ArchiveSpec, archive_views, find_remote_package_by_name, lookup};
use crate::text::{contains_str, is_substring, string_views};
use crate::xml::{Catalog, CatalogError};

verus! {

/// The platform an installation runs on.
#[derive(Clone, Copy, Debug, PartialEq, Eq, Structural)]
pub enum HostOs {
    Windows,
    MacOs,
    Linux,
}

/// The tag by which the catalog names a platform.
pub open spec fn host_tag(h: HostOs) -> Seq<char> {
    match h {
        HostOs::Windows => "windows"@,
        HostOs::Linux => "linux"@,
        HostOs::MacOs => "macosx"@,
    }
}

impl HostOs {
    /// The tag by which the catalog names this platform.
    pub fn to_str(self) -> (r: &'static str)
        ensures
            r@ == host_tag(self),
    {
        match self {
            HostOs::Windows => "windows",
            HostOs::Linux => "linux",
            HostOs::MacOs => "macosx",
        }
    }
}

/// An archive fits a host when its tag is empty (any platform) or contains the
/// host's tag.
pub open spec fn fits(tag: Seq<char>, host: Seq<char>) -> bool {
    tag.len() == 0 || is_substring(tag, host)
}

/// The archives of `s` that fit `host`, in order.
pub open spec fn fitting(s: Seq<ArchiveSpec>, host: Seq<char>) -> Seq<ArchiveSpec>
    decreases s.len(),
{
    if s.len() == 0 {
        Seq::empty()
    } else if fits(s.last().host_os, host) {
        fitting(s.drop_last(), host).push(s.last())
    } else {
        fitting(s.drop_last(), host)
    }
}

/// The archives of `s` that fit `host`, each paired with the package `name`.
pub open spec fn tagged(name: Seq<char>, s: Seq<ArchiveSpec>, host: Seq<char>) -> Seq<(Seq<char>, ArchiveSpec)>
    decreases s.len(),
{
    if s.len() == 0 {
        Seq::empty()
    } else if fits(s.last().host_os, host) {
        tagged(name, s.drop_last(), host).push((name, s.last()))
    } else {
        tagged(name, s.drop_last(), host)
    }
}

/// For each of `names` in order, its archives that fit `host`, paired with it;
/// the first package whose catalog entry cannot be read fails the whole.
pub open spec fn selection(text: Seq<char>, root_url: Seq<char>, names: Seq<Seq<char>>, host: Seq<char>) -> Result<
    Seq<(Seq<char>, ArchiveSpec)>,
    CatalogError,
>
    decreases names.len(),
{
    if names.len() == 0 {
        Ok(Seq::empty())
    } else {
        match selection(text, root_url, names.drop_last(), host) {
            Err(e) => Err(e),
            Ok(s) => match lookup(text, root_url, names.last()) {
                Err(e) => Err(e),
                Ok(p) => Ok(s + tagged(names.last(), p.archives, host)),
            },
        }
    }
}


/// The contents of a list of (package, archive) pairs.
pub open spec fn pair_views(s: Seq<(String, Archive)>) -> Seq<(Seq<char>, ArchiveSpec)> {
    s.map_values(|p: (String, Archive)| (p.0@, p.1@))
}

/// A copy of an archive.
pub fn copy_archive(a: &Archive) -> (r: Archive)
    ensures
        r@ == a@,
{
    Archive { host_os: a.host_os.clone(), url: a.url.clone() }
}

/// Whether the archive is made for `host` or for any platform.
pub fn archive_fits_host(a: &Archive, host: HostOs) -> (r: bool)
    ensures
        r == fits(a.host_os@, host_tag(host)),
{
    a.host_os.as_str().unicode_len() == 0 || contains_str(a.host_os.as_str(), host.to_str())
}

/// The archives of a package that fit `host`, in their order.
pub fn select_for_host(archives: &Vec<Archive>, host: HostOs) -> (r: Vec<Archive>)
    ensures
        archive_views(r@) == fitting(archive_views(archives@), host_tag(host)),
{
    let ghost all = archive_views(archives@);
    let mut out: Vec<Archive> = Vec::new();
    let mut i: usize = 0;
    assert(all.subrange(0, 0) =~= Seq::<ArchiveSpec>::empty());
    assert(archive_views(out@) =~= Seq::<ArchiveSpec>::empty());
    while i < archives.len()
        invariant
            i <= archives@.len(),
            all == archive_views(archives@),
            archive_views(out@) == fitting(all.subrange(0, i as int), host_tag(host)),
        decreases archives@.len() - i,
    {
        let ghost pre = all.subrange(0, i + 1);
        assert(pre.drop_last() =~= all.subrange(0, i as int));
        assert(pre.last() == archives@[i as int]@);
        if archive_fits_host(&archives[i], host) {
            let ghost before = out@;
            out.push(copy_archive(&archives[i]));
            assert(archive_views(out@) =~= archive_views(before).push(archives@[i as int]@));
        }
        i = i + 1;
    }
    assert(all.subrange(0, archives@.len() as int) =~= all);
    out
}

proof fn lemma_selection_err(text: Seq<char>, root_url: Seq<char>, names: Seq<Seq<char>>, host: Seq<char>, k: int)
    requires
        0 <= k <= names.len(),
        selection(text, root_url, names.subrange(0, k), host) is Err,
    ensures
        selection(text, root_url, names, host) == selection(text, root_url, names.subrange(0, k), host),
    decreases names.len() - k,
{
    if k < names.len() {
        assert(names.subrange(0, k + 1).drop_last() =~= names.subrange(0, k));
        lemma_selection_err(text, root_url, names, host, k + 1);
    } else {
        assert(names.subrange(0, k) =~= names);
    }
}

/// For each package of `names`, in order, the archives that the catalog lists
/// for it and that fit `host`, each paired with the package's identifier.
pub fn select_archives(cat: &Catalog, root_url: &str, names: &Vec<String>, host: HostOs) -> (r: Result<
    Vec<(String, Archive)>,
    CatalogError,
>)
    ensures
        match r {
            Ok(v) => selection(cat@, root_url@, string_views(names@), host_tag(host))
                == Ok::<Seq<(Seq<char>, ArchiveSpec)>, CatalogError>(pair_views(v@)),
            Err(e) => selection(cat@, root_url@, string_views(names@), host_tag(host))
                == Err::<Seq<(Seq<char>, ArchiveSpec)>, CatalogError>(e),
        },
{
    let ghost nv = string_views(names@);
    let ghost h = host_tag(host);
    let mut out: Vec<(String, Archive)> = Vec::new();
    let mut i: usize = 0;
    assert(nv.subrange(0, 0) =~= Seq::<Seq<char>>::empty());
    assert(pair_views(out@) =~= Seq::<(Seq<char>, ArchiveSpec)>::empty());
    while i < names.len()
        invariant
            i <= names@.len(),
            nv == string_views(names@),
            h == host_tag(host),
            selection(cat@, root_url@, nv.subrange(0, i as int), h)
                == Ok::<Seq<(Seq<char>, ArchiveSpec)>, CatalogError>(pair_views(out@)),
        decreases names@.len() - i,
    {
        let ghost pre = nv.subrange(0, i + 1);
        assert(pre.drop_last() =~= nv.subrange(0, i as int));
        assert(pre.last() == names@[i as int]@);
        let pkg = match find_remote_package_by_name(cat, root_url, names[i].as_str()) {
            Ok(p) => p,
            Err(e) => {
                proof {
                    lemma_selection_err(cat@, root_url@, nv, h, i + 1);
                }
                return Err(e);
            },
        };
        let ghost start = pair_views(out@);
        let ghost av = archive_views(pkg.archives@);
        assert(av == pkg@.archives);
        let mut k: usize = 0;
        assert(av.subrange(0, 0) =~= Seq::<ArchiveSpec>::empty());
        assert(start + tagged(nv[i as int], av.subrange(0, 0), h) =~= start);
        while k < pkg.archives.len()
            invariant
                k <= pkg.archives@.len(),
                av == archive_views(pkg.archives@),
                h == host_tag(host),
                i < names@.len(),
                nv == string_views(names@),
                pair_views(out@) == start + tagged(nv[i as int], av.subrange(0, k as int), h),
            decreases pkg.archives@.len() - k,
        {
            let ghost apre = av.subrange(0, k + 1);
            assert(apre.drop_last() =~= av.subrange(0, k as int));
            assert(apre.last() == pkg.archives@[k as int]@);
            if archive_fits_host(&pkg.archives[k], host) {
                let ghost before = out@;
                out.push((names[i].clone(), copy_archive(&pkg.archives[k])));
                assert(pair_views(out@) =~= pair_views(before).push((nv[i as int], pkg.archives@[k as int]@)));
            }
            k = k + 1;
        }
        assert(av.subrange(0, pkg.archives@.len() as int) =~= av);
        i = i + 1;
    }
    assert(nv.subrange(0, names@.len() as int) =~= nv);
    Ok(out)
}

} // verus!
