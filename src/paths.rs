//! Paths as sequences of segments, and the remapping of archive paths into the
//! SDK's directory layout.
use vstd::prelude::*;
use crate::text::string_views;

verus! {

/// Whether `c` separates segments: `/` always, and `;` inside package identifiers.
pub open spec fn is_sep(c: char, semicolon: bool) -> bool {
    c == '/' || (semicolon && c == ';')
}

/// A piece between separators that stands for nothing: empty, or `.`.
pub open spec fn is_blank(piece: Seq<char>) -> bool {
    piece.len() == 0 || piece == seq!['.']
}

/// The segments completed so far in `s`, and the piece still being read.
pub open spec fn split_state(s: Seq<char>, semicolon: bool) -> (Seq<Seq<char>>, Seq<char>)
    decreases s.len(),
{
    if s.len() == 0 {
        (Seq::empty(), Seq::empty())
    } else {
        let (done, cur) = split_state(s.drop_last(), semicolon);
        if is_sep(s.last(), semicolon) {
            if is_blank(cur) {
                (done, Seq::empty())
            } else {
                (done.push(cur), Seq::empty())
            }
        } else {
            (done, cur.push(s.last()))
        }
    }
}

/// The segments of `s`: its pieces between separators, without the blank ones.
pub open spec fn segments(s: Seq<char>, semicolon: bool) -> Seq<Seq<char>> {
    let (done, cur) = split_state(s, semicolon);
    if is_blank(cur) {
        done
    } else {
        done.push(cur)
    }
}

/// Where an archive path lands: its first segment replaced by all of `root`.
pub open spec fn remapped(path: Seq<Seq<char>>, root: Seq<Seq<char>>) -> Seq<Seq<char>> {
    if path.len() == 0 {
        Seq::empty()
    } else {
        root + path.drop_first()
    }
}

/// Whether the piece `s[from..to]` is blank.
fn blank_piece(cs: &Vec<char>, from: usize, to: usize) -> (r: bool)
    requires
        from <= to <= cs@.len(),
    ensures
        r == is_blank(cs@.subrange(from as int, to as int)),
{
    if from == to {
        return true;
    }
    if to - from == 1 && cs[from] == '.' {
        assert(cs@.subrange(from as int, to as int) =~= seq!['.']);
        return true;
    }
    let ghost piece = cs@.subrange(from as int, to as int);
    assert(piece != seq!['.']) by {
        if piece == seq!['.'] {
            assert(piece.len() == seq!['.'].len());
            assert(piece[0] == seq!['.'][0]);
            assert(piece[0] == cs@[from as int]);
        }
    }
    false
}

/// Splits `s` into its segments at `/` (and at `;` when `semicolon` is set),
/// dropping empty and `.` pieces.
pub fn split_segments(s: &str, semicolon: bool) -> (r: Vec<String>)
    ensures
        string_views(r@) == segments(s@, semicolon),
{
    let cs = crate::text::chars_of(s);
    let n = cs.len();
    let mut out: Vec<String> = Vec::new();
    let mut start: usize = 0;
    let mut i: usize = 0;
    assert(cs@.subrange(0, 0) =~= Seq::<char>::empty());
    assert(string_views(out@) =~= Seq::<Seq<char>>::empty());
    while i < n
        invariant
            n == cs@.len(),
            cs@ == s@,
            start <= i <= n,
            split_state(cs@.subrange(0, i as int), semicolon) == (
                string_views(out@),
                cs@.subrange(start as int, i as int),
            ),
        decreases n - i,
    {
        let ghost pre = cs@.subrange(0, i + 1);
        assert(pre.drop_last() =~= cs@.subrange(0, i as int));
        assert(pre.last() == cs@[i as int]);
        let c = cs[i];
        if c == '/' || (semicolon && c == ';') {
            if !blank_piece(&cs, start, i) {
                let ghost before = out@;
                out.push(String::from_str(s.substring_char(start, i)));
                assert(string_views(out@) =~= string_views(before).push(cs@.subrange(start as int, i as int)));
            }
            start = i + 1;
            assert(cs@.subrange(start as int, i + 1) =~= Seq::<char>::empty());
        } else {
            assert(cs@.subrange(start as int, i + 1) =~= cs@.subrange(start as int, i as int).push(c));
        }
        i = i + 1;
    }
    assert(cs@.subrange(0, n as int) =~= cs@);
    if !blank_piece(&cs, start, n) {
        let ghost before = out@;
        out.push(String::from_str(s.substring_char(start, n)));
        assert(string_views(out@) =~= string_views(before).push(cs@.subrange(start as int, n as int)));
    }
    out
}

/// The directory segments of a package: its identifier split at `;` and `/`.
pub fn package_root(package_name: &str) -> (r: Vec<String>)
    ensures
        string_views(r@) == segments(package_name@, true),
{
    split_segments(package_name, true)
}

/// Rewrites an archive-internal path into the SDK layout: its first segment is
/// replaced by the segments of `new_roots`, the rest is kept. An empty path
/// stays empty.
pub fn androidolize_zipfile_paths(zip_path: &Vec<String>, new_roots: &Vec<String>) -> (r: Vec<String>)
    ensures
        string_views(r@) == remapped(string_views(zip_path@), string_views(new_roots@)),
{
    let mut out: Vec<String> = Vec::new();
    if zip_path.len() == 0 {
        assert(string_views(out@) =~= Seq::<Seq<char>>::empty());
        return out;
    }
    let ghost zv = string_views(zip_path@);
    let ghost rv = string_views(new_roots@);
    let mut i: usize = 0;
    assert(string_views(out@) =~= rv.subrange(0, 0));
    while i < new_roots.len()
        invariant
            i <= new_roots@.len(),
            rv == string_views(new_roots@),
            string_views(out@) == rv.subrange(0, i as int),
        decreases new_roots@.len() - i,
    {
        let ghost before = out@;
        out.push(new_roots[i].clone());
        assert(string_views(out@) =~= string_views(before).push(rv[i as int]));
        assert(string_views(out@) =~= rv.subrange(0, i + 1));
        i = i + 1;
    }
    assert(rv.subrange(0, new_roots@.len() as int) =~= rv);
    let mut k: usize = 1;
    assert(zv.drop_first().subrange(0, 0) =~= Seq::<Seq<char>>::empty());
    assert(rv + zv.drop_first().subrange(0, 0) =~= rv);
    while k < zip_path.len()
        invariant
            1 <= k <= zip_path@.len(),
            zv == string_views(zip_path@),
            string_views(out@) == rv + zv.drop_first().subrange(0, k - 1),
        decreases zip_path@.len() - k,
    {
        let ghost before = out@;
        out.push(zip_path[k].clone());
        assert(string_views(out@) =~= string_views(before).push(zv[k as int]));
        assert(zv.drop_first().subrange(0, k as int) =~= zv.drop_first().subrange(0, k - 1).push(zv[k as int]));
        assert(string_views(out@) =~= rv + zv.drop_first().subrange(0, k as int));
        k = k + 1;
    }
    assert(zv.drop_first().subrange(0, zip_path@.len() - 1) =~= zv.drop_first());
    out
}

} // verus!
