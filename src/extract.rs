//! What unpacking an archive into the SDK directory does, entry by entry: the
//! directories to create, the files to write and the links to make.
use vstd::prelude::*;
use crate::archive::{ArchiveReader, ZipEntry, zip_entry, zip_entry_count, zip_opens};
use crate::text::string_views;
use crate::filter::{allowed, is_allowed, rules_of, MatchType};
use crate::paths::{androidolize_zipfile_paths, package_root, remapped, segments, split_segments};

verus! {

/// The file-type bits that mark a symbolic link in a Unix mode.
pub const S_IFLNK: u32 = 0o120000;

/// Whether a Unix mode carries the symbolic-link bits.
pub open spec fn symlink_mode(mode: Option<u32>) -> bool {
    match mode {
        Some(m) => m & S_IFLNK == S_IFLNK,
        None => false,
    }
}

/// Whether an entry name denotes a directory: it ends in `/`.
pub open spec fn names_dir(name: Seq<char>) -> bool {
    name.len() > 0 && name.last() == '/'
}

/// One step of unpacking; paths are segments relative to the SDK root.
pub enum ExtractAction {
    /// Create the directory and its ancestors.
    CreateDir { path: Vec<String> },
    /// Write a regular file (creating its parent first), then give it the mode, if any.
    WriteFile { path: Vec<String>, contents: Vec<u8>, mode: Option<u32> },
    /// Make a symbolic link at `path` whose target is the text `target`.
    Symlink { path: Vec<String>, target: Vec<u8> },
}

/// An unpacking step, as plain values.
pub enum ActionSpec {
    CreateDir(Seq<Seq<char>>),
    WriteFile(Seq<Seq<char>>, Seq<u8>, Option<u32>),
    Symlink(Seq<Seq<char>>, Seq<u8>),
}

impl View for ExtractAction {
    type V = ActionSpec;

    open spec fn view(&self) -> ActionSpec {
        match self {
            ExtractAction::CreateDir { path } => ActionSpec::CreateDir(string_views(path@)),
            ExtractAction::WriteFile { path, contents, mode } => ActionSpec::WriteFile(
                string_views(path@),
                contents@,
                *mode,
            ),
            ExtractAction::Symlink { path, target } => ActionSpec::Symlink(string_views(path@), target@),
        }
    }
}

/// The contents of a list of unpacking steps.
pub open spec fn action_views(s: Seq<ExtractAction>) -> Seq<ActionSpec> {
    s.map_values(|a: ExtractAction| a@)
}

/// Why an archive could not be unpacked.
#[derive(Clone, Copy, Debug, PartialEq, Eq, Structural)]
pub enum ExtractError {
    /// The bytes are not a zip archive.
    InvalidArchive,
    /// An entry cannot be decompressed.
    UnreadableEntry,
    /// A path would leave the package's directory: the entry's name is not
    /// enclosed, names nothing, or has a `..` segment; or the package identifier
    /// gives no directory or has a `..` segment.
    UnsafePath,
}

/// Some segment of the path is `..`.
pub open spec fn has_parent_ref(segs: Seq<Seq<char>>) -> bool {
    exists|i: int| 0 <= i < segs.len() && segs[i] == seq!['.', '.']
}

/// The path where a step acts.
pub open spec fn action_path(a: ActionSpec) -> Seq<Seq<char>> {
    match a {
        ActionSpec::CreateDir(p) => p,
        ActionSpec::WriteFile(p, _, _) => p,
        ActionSpec::Symlink(p, _) => p,
    }
}

/// The path lies in the directory `root` (which it extends) and has no `..` segment.
pub open spec fn stays_under(path: Seq<Seq<char>>, root: Seq<Seq<char>>) -> bool {
    &&& root.len() > 0
    &&& root.len() <= path.len()
    &&& path.subrange(0, root.len() as int) == root
    &&& !has_parent_ref(path)
}

/// The step for one entry of a package whose directory segments are `root`.
/// Entries whose path would leave the package's directory are refused.
/// Directories are always created; other entries are skipped unless the
/// allow-list passes their remapped path; a link is made where the mode says so.
pub open spec fn entry_plan(
    root: Seq<Seq<char>>,
    name: Seq<char>,
    enclosed: bool,
    mode: Option<u32>,
    contents: Seq<u8>,
    rules: Option<Seq<MatchType>>,
) -> Result<Option<ActionSpec>, ExtractError> {
    let segs = segments(name, false);
    let out = remapped(segs, root);
    if !enclosed || segs.len() == 0 || has_parent_ref(segs) || root.len() == 0 || has_parent_ref(
        root,
    ) {
        Err(ExtractError::UnsafePath)
    } else if names_dir(name) {
        Ok(Some(ActionSpec::CreateDir(out)))
    } else if !allowed(out, rules) {
        Ok(None)
    } else if symlink_mode(mode) {
        Ok(Some(ActionSpec::Symlink(out, contents)))
    } else {
        Ok(Some(ActionSpec::WriteFile(out, contents, mode)))
    }
}

proof fn lemma_remap_stays_under(segs: Seq<Seq<char>>, root: Seq<Seq<char>>)
    requires
        segs.len() > 0,
        !has_parent_ref(segs),
        root.len() > 0,
        !has_parent_ref(root),
    ensures
        stays_under(remapped(segs, root), root),
{
    let out = remapped(segs, root);
    assert(out == root + segs.drop_first());
    assert(out.subrange(0, root.len() as int) =~= root);
    assert forall|i: int| 0 <= i < out.len() implies out[i] != seq!['.', '.'] by {
        if i < root.len() {
            assert(out[i] == root[i]);
        } else {
            assert(out[i] == segs[i - root.len() + 1]);
        }
    }
}

/// Every step planned for an entry stays in the package's directory.
pub proof fn lemma_plan_stays_under(
    root: Seq<Seq<char>>,
    name: Seq<char>,
    enclosed: bool,
    mode: Option<u32>,
    contents: Seq<u8>,
    rules: Option<Seq<MatchType>>,
)
    requires
        entry_plan(root, name, enclosed, mode, contents, rules) matches Ok(Some(_)),
    ensures
        stays_under(action_path(entry_plan(root, name, enclosed, mode, contents, rules)->Ok_0->0), root),
{
    lemma_remap_stays_under(segments(name, false), root);
}

/// Without an allow-list, every safe entry gets a step: directories,
/// symbolic links and regular files alike.
pub proof fn lemma_no_filter_keeps_all(
    root: Seq<Seq<char>>,
    name: Seq<char>,
    mode: Option<u32>,
    contents: Seq<u8>,
)
    ensures
        (entry_plan(root, name, true, mode, contents, None) is Ok) <== (segments(name, false).len() > 0
            && !has_parent_ref(segments(name, false)) && root.len() > 0 && !has_parent_ref(root)),
        entry_plan(root, name, true, mode, contents, None) is Ok ==> entry_plan(
            root,
            name,
            true,
            mode,
            contents,
            None,
        )->Ok_0 is Some,
{
}

/// The steps for the first `n` entries of the archive `bytes`, given for each
/// entry whether its name stays enclosed.
pub open spec fn plan_of(
    bytes: Seq<u8>,
    root: Seq<Seq<char>>,
    rules: Option<Seq<MatchType>>,
    enclosed: Seq<bool>,
    n: nat,
) -> Result<Seq<ActionSpec>, ExtractError>
    decreases n,
{
    if n == 0 {
        Ok(Seq::empty())
    } else {
        match plan_of(bytes, root, rules, enclosed, (n - 1) as nat) {
            Err(e) => Err(e),
            Ok(s) => match zip_entry(bytes, (n - 1) as nat) {
                None => Err(ExtractError::UnreadableEntry),
                Some(t) => match entry_plan(root, t.0, enclosed[n - 1], t.1, t.2, rules) {
                    Err(e) => Err(e),
                    Ok(None) => Ok(s),
                    Ok(Some(a)) => Ok(s.push(a)),
                },
            },
        }
    }
}

proof fn lemma_plan_prefix(
    bytes: Seq<u8>,
    root: Seq<Seq<char>>,
    rules: Option<Seq<MatchType>>,
    e1: Seq<bool>,
    e2: Seq<bool>,
    n: nat,
)
    requires
        n <= e1.len(),
        n <= e2.len(),
        e1.subrange(0, n as int) == e2.subrange(0, n as int),
    ensures
        plan_of(bytes, root, rules, e1, n) == plan_of(bytes, root, rules, e2, n),
    decreases n,
{
    if n > 0 {
        assert(e1.subrange(0, n - 1) =~= e1.subrange(0, n as int).subrange(0, n - 1));
        assert(e2.subrange(0, n - 1) =~= e2.subrange(0, n as int).subrange(0, n - 1));
        assert(e1[n - 1] == e1.subrange(0, n as int)[n - 1]);
        assert(e2[n - 1] == e2.subrange(0, n as int)[n - 1]);
        lemma_plan_prefix(bytes, root, rules, e1, e2, (n - 1) as nat);
    }
}

proof fn lemma_plan_err(
    bytes: Seq<u8>,
    root: Seq<Seq<char>>,
    rules: Option<Seq<MatchType>>,
    enclosed: Seq<bool>,
    k: nat,
    n: nat,
)
    requires
        k <= n,
        plan_of(bytes, root, rules, enclosed, k) is Err,
    ensures
        plan_of(bytes, root, rules, enclosed, n) == plan_of(bytes, root, rules, enclosed, k),
    decreases n - k,
{
    if k < n {
        lemma_plan_err(bytes, root, rules, enclosed, k, (n - 1) as nat);
    }
}

/// Whether some segment of the path is `..`.
pub fn has_parent_segment(path: &Vec<String>) -> (r: bool)
    ensures
        r == has_parent_ref(string_views(path@)),
{
    let mut i: usize = 0;
    while i < path.len()
        invariant
            i <= path@.len(),
            forall|k: int| 0 <= k < i ==> path@[k]@ != seq!['.', '.'],
        decreases path@.len() - i,
    {
        let cs = crate::text::chars_of(path[i].as_str());
        if cs.len() == 2 && cs[0] == '.' && cs[1] == '.' {
            assert(cs@ =~= seq!['.', '.']);
            assert(string_views(path@)[i as int] == seq!['.', '.']);
            return true;
        }
        assert(cs@ != seq!['.', '.']) by {
            if cs@ == seq!['.', '.'] {
                assert(cs@.len() == 2 && cs@[0] == '.' && cs@[1] == '.');
            }
        }
        i = i + 1;
    }
    assert forall|k: int| 0 <= k < string_views(path@).len() implies string_views(path@)[k] != seq!['.', '.'] by {
        assert(path@[k]@ != seq!['.', '.']);
    }
    false
}

/// Whether the entry's mode marks a symbolic link.
pub fn is_symlink(mode: Option<u32>) -> (r: bool)
    ensures
        r == symlink_mode(mode),
{
    match mode {
        Some(m) => m & S_IFLNK == S_IFLNK,
        None => false,
    }
}

/// Whether an entry name denotes a directory.
pub fn is_dir_name(name: &str) -> (r: bool)
    ensures
        r == names_dir(name@),
{
    let cs = crate::text::chars_of(name);
    cs.len() > 0 && cs[cs.len() - 1] == '/'
}

/// The step for one archive entry of the package whose directory segments are
/// `root`; `None` where the allow-list rejects the entry.
pub fn entry_action(root: &Vec<String>, entry: ZipEntry, allow_list: Option<&[MatchType]>) -> (r: Result<
    Option<ExtractAction>,
    ExtractError,
>)
    ensures
        match r {
            Ok(Some(a)) => entry_plan(
                string_views(root@),
                entry.name@,
                entry.enclosed,
                entry.unix_mode,
                entry.contents@,
                rules_of(allow_list),
            ) == Ok::<Option<ActionSpec>, ExtractError>(Some(a@)),
            Ok(None) => entry_plan(
                string_views(root@),
                entry.name@,
                entry.enclosed,
                entry.unix_mode,
                entry.contents@,
                rules_of(allow_list),
            ) == Ok::<Option<ActionSpec>, ExtractError>(None),
            Err(e) => entry_plan(
                string_views(root@),
                entry.name@,
                entry.enclosed,
                entry.unix_mode,
                entry.contents@,
                rules_of(allow_list),
            ) == Err::<Option<ActionSpec>, ExtractError>(e),
        },
        r matches Ok(Some(a)) ==> stays_under(action_path(a@), string_views(root@)),
{
    if !entry.enclosed {
        return Err(ExtractError::UnsafePath);
    }
    let segs = split_segments(entry.name.as_str(), false);
    if segs.len() == 0 || has_parent_segment(&segs) || root.len() == 0 || has_parent_segment(root) {
        return Err(ExtractError::UnsafePath);
    }
    let path = androidolize_zipfile_paths(&segs, root);
    proof {
        lemma_remap_stays_under(string_views(segs@), string_views(root@));
    }
    if is_dir_name(entry.name.as_str()) {
        return Ok(Some(ExtractAction::CreateDir { path }));
    }
    if !is_allowed(&path, allow_list) {
        return Ok(None);
    }
    if is_symlink(entry.unix_mode) {
        Ok(Some(ExtractAction::Symlink { path, target: entry.contents }))
    } else {
        Ok(Some(ExtractAction::WriteFile { path, contents: entry.contents, mode: entry.unix_mode }))
    }
}

/// The steps that unpack the archive `bytes` of package `package_name`, in the
/// archive's entry order. It fails on bytes that are not an archive, on the
/// first entry that cannot be read, and on the first entry whose name is not
/// enclosed; what `zip` says of enclosure is taken as it comes.
pub fn plan_extraction(bytes: Vec<u8>, package_name: &str, allow_list: Option<&[MatchType]>) -> (r: Result<
    Vec<ExtractAction>,
    ExtractError,
>)
    ensures
        (r == Err::<Vec<ExtractAction>, ExtractError>(ExtractError::InvalidArchive)) <==> !zip_opens(bytes@),
        match r {
            Ok(v) => exists|enclosed: Seq<bool>|
                #[trigger] plan_of(
                    bytes@,
                    segments(package_name@, true),
                    rules_of(allow_list),
                    enclosed,
                    zip_entry_count(bytes@),
                ) == Ok::<Seq<ActionSpec>, ExtractError>(action_views(v@)),
            Err(e) => e == ExtractError::InvalidArchive || exists|enclosed: Seq<bool>|
                #[trigger] plan_of(
                    bytes@,
                    segments(package_name@, true),
                    rules_of(allow_list),
                    enclosed,
                    zip_entry_count(bytes@),
                ) == Err::<Seq<ActionSpec>, ExtractError>(e),
        },
        r matches Ok(v) ==> forall|k: int|
            0 <= k < v@.len() ==> stays_under(
                action_path(#[trigger] v@[k]@),
                segments(package_name@, true),
            ),
{
    let ghost b = bytes@;
    let ghost rules = rules_of(allow_list);
    let root = package_root(package_name);
    let ghost rv = string_views(root@);
    let mut reader = match ArchiveReader::open(bytes) {
        Some(a) => a,
        None => return Err(ExtractError::InvalidArchive),
    };
    let n = reader.len();
    let mut out: Vec<ExtractAction> = Vec::new();
    let ghost mut enclosed: Seq<bool> = Seq::empty();
    let mut i: usize = 0;
    assert(action_views(out@) =~= Seq::<ActionSpec>::empty());
    while i < n
        invariant
            i <= n,
            b == bytes@,
            n == zip_entry_count(b),
            reader@ == b,
            zip_opens(b),
            rules == rules_of(allow_list),
            rv == string_views(root@),
            rv == segments(package_name@, true),
            enclosed.len() == i,
            forall|k: int| 0 <= k < out@.len() ==> stays_under(action_path(#[trigger] out@[k]@), rv),
            plan_of(b, rv, rules, enclosed, i as nat) == Ok::<Seq<ActionSpec>, ExtractError>(action_views(out@)),
        decreases n - i,
    {
        let entry = match reader.entry(i) {
            Some(e) => e,
            None => {
                let ghost full = enclosed.push(true);
                proof {
                    assert(full.subrange(0, i as int) =~= enclosed.subrange(0, i as int));
                    lemma_plan_prefix(b, rv, rules, enclosed, full, i as nat);
                    lemma_plan_err(b, rv, rules, full, (i + 1) as nat, n as nat);
                }
                return Err(ExtractError::UnreadableEntry);
            },
        };
        let ghost prev = enclosed;
        proof {
            enclosed = enclosed.push(entry.enclosed);
            assert(enclosed.subrange(0, i as int) =~= prev.subrange(0, i as int));
            lemma_plan_prefix(b, rv, rules, prev, enclosed, i as nat);
        }
        match entry_action(&root, entry, allow_list) {
            Ok(Some(a)) => {
                let ghost before = out@;
                out.push(a);
                assert(action_views(out@) =~= action_views(before).push(out@.last()@));
                assert forall|k: int| 0 <= k < out@.len() implies stays_under(action_path(#[trigger] out@[k]@), rv) by {
                    if k < before.len() {
                        assert(out@[k] == before[k]);
                    }
                }
            },
            Ok(None) => {},
            Err(e) => {
                proof {
                    lemma_plan_err(b, rv, rules, enclosed, (i + 1) as nat, n as nat);
                }
                return Err(e);
            },
        }
        i = i + 1;
    }
    Ok(out)
}

} // verus!
