//! The allow-list that decides which archive entries are written out.
use vstd::prelude::*;
use crate::text::{chars_of, contains_str, find_last, is_substring, last_index_of, string_views};

verus! {

/// One rule of an allow-list. A path passes the list when any rule matches it.
pub enum MatchType {
    /// The file stem (name without its last extension) contains the text.
    Partial(&'static str),
    /// The file stem equals the text.
    EntireStem(&'static str),
    /// The file name, extension included, equals the text.
    EntireName(&'static str),
    /// The whole path, segments joined by `/`, contains the text.
    EntireFolder(&'static str),
}

/// The file name of a path given by its segments: its last segment, unless the
/// path is empty or ends in `.` or `..`.
pub open spec fn path_name(segs: Seq<Seq<char>>) -> Option<Seq<char>> {
    if segs.len() == 0 || segs.last() == seq!['.'] || segs.last() == seq!['.', '.'] {
        None
    } else {
        Some(segs.last())
    }
}

/// The stem of a file name: what precedes its last `.`, unless that dot is the
/// first character or there is none, in which case the whole name.
pub open spec fn stem_of(name: Seq<char>) -> Seq<char> {
    let k = last_index_of(name, '.');
    if k <= 0 {
        name
    } else {
        name.subrange(0, k)
    }
}

/// The segments of a path joined by `/`.
pub open spec fn joined(segs: Seq<Seq<char>>) -> Seq<char>
    decreases segs.len(),
{
    if segs.len() == 0 {
        Seq::empty()
    } else if segs.len() == 1 {
        segs[0]
    } else {
        joined(segs.drop_last()) + seq!['/'] + segs.last()
    }
}

/// Whether one rule matches the path with segments `segs`.
pub open spec fn rule_matches(rule: MatchType, segs: Seq<Seq<char>>) -> bool {
    match rule {
        MatchType::Partial(t) => path_name(segs) is Some && is_substring(
            stem_of(path_name(segs)->0),
            t@,
        ),
        MatchType::EntireStem(t) => path_name(segs) is Some && stem_of(path_name(segs)->0) == t@,
        MatchType::EntireName(t) => path_name(segs) is Some && path_name(segs)->0 == t@,
        MatchType::EntireFolder(t) => is_substring(joined(segs), t@),
    }
}

/// An absent allow-list passes every path; a present one passes exactly the
/// paths that at least one of its rules matches (so an empty list passes none).
pub open spec fn allowed(segs: Seq<Seq<char>>, rules: Option<Seq<MatchType>>) -> bool {
    match rules {
        None => true,
        Some(rs) => any_rule_matches(rs, segs),
    }
}

/// The rules of an optional allow-list.
pub open spec fn rules_of(a: Option<&[MatchType]>) -> Option<Seq<MatchType>> {
    match a {
        Some(l) => Some(l@),
        None => None,
    }
}

/// Some rule of `rs` matches the path.
pub open spec fn any_rule_matches(rs: Seq<MatchType>, segs: Seq<Seq<char>>) -> bool {
    exists|i: int| 0 <= i < rs.len() && #[trigger] rule_matches(rs[i], segs)
}

/// The file name of the path, if it has one.
pub fn file_name(path: &Vec<String>) -> (r: Option<String>)
    ensures
        match r {
            Some(n) => path_name(string_views(path@)) == Some(n@),
            None => path_name(string_views(path@)) is None,
        },
{
    let ghost segs = string_views(path@);
    if path.len() == 0 {
        return None;
    }
    let last = &path[path.len() - 1];
    let cs = chars_of(last.as_str());
    assert(segs.last() == cs@);
    if (cs.len() == 1 && cs[0] == '.') || (cs.len() == 2 && cs[0] == '.' && cs[1] == '.') {
        assert(cs@ =~= seq!['.'] || cs@ =~= seq!['.', '.']);
        return None;
    }
    assert(cs@ != seq!['.'] && cs@ != seq!['.', '.']) by {
        if cs@ == seq!['.'] {
            assert(cs@[0] == '.');
        }
        if cs@ == seq!['.', '.'] {
            assert(cs@[0] == '.' && cs@[1] == '.');
        }
    }
    Some(last.clone())
}

/// The stem of a file name.
pub fn file_stem(name: &str) -> (r: String)
    ensures
        r@ == stem_of(name@),
{
    let cs = chars_of(name);
    match find_last(&cs, '.') {
        Some(k) => {
            if k == 0 {
                String::from_str(name)
            } else {
                String::from_str(name.substring_char(0, k))
            }
        },
        None => String::from_str(name),
    }
}

/// The path's segments joined by `/`.
pub fn join_path(path: &Vec<String>) -> (r: String)
    ensures
        r@ == joined(string_views(path@)),
{
    let ghost segs = string_views(path@);
    let mut r = String::new();
    let mut i: usize = 0;
    while i < path.len()
        invariant
            i <= path@.len(),
            segs == string_views(path@),
            r@ == joined(segs.subrange(0, i as int)),
        decreases path@.len() - i,
    {
        let ghost pre = segs.subrange(0, i + 1);
        assert(pre.drop_last() =~= segs.subrange(0, i as int));
        if i > 0 {
            proof {
                reveal_strlit("/");
            }
            r.append("/");
        } else {
            assert(pre =~= seq![segs[0]]);
        }
        r.append(path[i].as_str());
        assert(r@ =~= joined(pre));
        i = i + 1;
    }
    assert(segs.subrange(0, i as int) =~= segs);
    r
}

/// Whether `a` and `b` hold the same text.
fn same_text(a: &str, b: &str) -> (r: bool)
    ensures
        r == (a@ == b@),
{
    String::from_str(a) == String::from_str(b)
}

/// Whether the rule matches the path.
pub fn matches_rule(rule: &MatchType, path: &Vec<String>) -> (r: bool)
    ensures
        r == rule_matches(*rule, string_views(path@)),
{
    match rule {
        MatchType::Partial(t) => match file_name(path) {
            Some(n) => contains_str(file_stem(n.as_str()).as_str(), t),
            None => false,
        },
        MatchType::EntireStem(t) => match file_name(path) {
            Some(n) => same_text(file_stem(n.as_str()).as_str(), t),
            None => false,
        },
        MatchType::EntireName(t) => match file_name(path) {
            Some(n) => same_text(n.as_str(), t),
            None => false,
        },
        MatchType::EntireFolder(t) => contains_str(join_path(path).as_str(), t),
    }
}

/// Whether the entry at `path` is to be written out under the allow-list.
/// Rules are tried in order and the first match decides.
pub fn is_allowed(path: &Vec<String>, allow_list: Option<&[MatchType]>) -> (r: bool)
    ensures
        r == allowed(
            string_views(path@),
            rules_of(allow_list),
        ),
{
    match allow_list {
        None => true,
        Some(rules) => {
            let mut i: usize = 0;
            while i < rules.len()
                invariant
                    allow_list == Some(rules),
                    i <= rules@.len(),
                    forall|k: int|
                        0 <= k < i ==> !rule_matches(
                            #[trigger] rules@[k],
                            string_views(path@),
                        ),
                decreases rules@.len() - i,
            {
                if matches_rule(&rules[i], path) {
                    assert(rule_matches(rules@[i as int], string_views(path@)));
                    return true;
                }
                i = i + 1;
            }
            false
        },
    }
}

} // verus!
