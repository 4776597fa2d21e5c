use android_sdkmanager::filter::{file_name, file_stem, is_allowed, join_path};
use android_sdkmanager::paths::{androidolize_zipfile_paths, package_root, split_segments};
use android_sdkmanager::text::contains_str;
use android_sdkmanager::MatchType;

fn segs(s: &str) -> Vec<String> {
    s.split('/').map(|p| p.to_string()).collect()
}

#[test]
fn entire_stem_is_exact() {
    let rules = [MatchType::EntireStem("aapt")];
    assert!(is_allowed(&segs("build-tools/31.0.0/aapt"), Some(&rules[..])));
    assert!(is_allowed(&segs("build-tools/31.0.0/aapt.exe"), Some(&rules[..])));
    assert!(!is_allowed(&segs("build-tools/31.0.0/aapt2"), Some(&rules[..])));
}

#[test]
fn partial_matches_inside_stem() {
    let rules = [MatchType::Partial("clang")];
    assert!(is_allowed(&segs("ndk/bin/clang"), Some(&rules[..])));
    assert!(is_allowed(&segs("ndk/bin/clang++"), Some(&rules[..])));
    assert!(!is_allowed(&segs("ndk/clang/bin/lld"), Some(&rules[..])));
}

#[test]
fn entire_name_includes_extension() {
    let rules = [MatchType::EntireName("android.jar")];
    assert!(is_allowed(&segs("platforms/android-31/android.jar"), Some(&rules[..])));
    assert!(!is_allowed(&segs("platforms/android-31/android.jar.bak"), Some(&rules[..])));
    assert!(!is_allowed(&segs("platforms/android-31/android"), Some(&rules[..])));
}

#[test]
fn entire_folder_matches_whole_path() {
    let rules = [MatchType::EntireFolder("sysroot")];
    assert!(is_allowed(&segs("ndk/23/toolchains/sysroot/usr/include/stdio.h"), Some(&rules[..])));
    assert!(!is_allowed(&segs("ndk/23/toolchains/bin/ld"), Some(&rules[..])));
    let rules = [MatchType::EntireFolder("s/b")];
    assert!(is_allowed(&segs("tools/bin/x"), Some(&rules[..])));
}

#[test]
fn any_rule_suffices() {
    let rules = [MatchType::EntireStem("adb"), MatchType::EntireName("source.properties")];
    assert!(is_allowed(&segs("platform-tools/adb"), Some(&rules[..])));
    assert!(is_allowed(&segs("platform-tools/source.properties"), Some(&rules[..])));
    assert!(!is_allowed(&segs("platform-tools/fastboot"), Some(&rules[..])));
}

#[test]
fn absent_list_allows_everything() {
    assert!(is_allowed(&segs("a/b/c"), None));
    assert!(is_allowed(&vec![], None));
    assert!(is_allowed(&segs("lib/libfoo.so"), None));
}

#[test]
fn empty_list_allows_nothing() {
    let rules: [MatchType; 0] = [];
    assert!(!is_allowed(&segs("a/b/c"), Some(&rules[..])));
}

#[test]
fn stems_and_names() {
    assert_eq!(file_stem("libfoo.so"), "libfoo");
    assert_eq!(file_stem("a.b.c"), "a.b");
    assert_eq!(file_stem(".hidden"), ".hidden");
    assert_eq!(file_stem("clang++"), "clang++");
    assert_eq!(file_stem("trailing."), "trailing");
    assert_eq!(file_name(&segs("a/b.txt")), Some("b.txt".to_string()));
    assert_eq!(file_name(&segs("a/..")), None);
    assert_eq!(file_name(&vec![]), None);
    assert_eq!(join_path(&segs("a/b/c")), "a/b/c");
}

#[test]
fn substring_search() {
    assert!(contains_str("windows-x64", "windows"));
    assert!(contains_str("abc", ""));
    assert!(!contains_str("win", "windows"));
    assert!(contains_str("xxabab", "abab"));
}

#[test]
fn package_root_splits_identifier() {
    assert_eq!(package_root("ndk;23.1.7779620"), vec!["ndk", "23.1.7779620"]);
    assert_eq!(package_root("platform-tools"), vec!["platform-tools"]);
    assert_eq!(package_root("a;b/c;;d"), vec!["a", "b", "c", "d"]);
}

#[test]
fn split_drops_blank_pieces() {
    assert_eq!(split_segments("./a//b/./c/", false), vec!["a", "b", "c"]);
    assert_eq!(split_segments("a;b", false), vec!["a;b"]);
    assert!(split_segments("", false).is_empty());
}

#[test]
fn remap_replaces_first_segment() {
    let root = package_root("ndk;23.1.7779620");
    let r = androidolize_zipfile_paths(&segs("android-ndk-r23b/toolchains/foo"), &root);
    assert_eq!(r, segs("ndk/23.1.7779620/toolchains/foo"));
}

#[test]
fn remap_keeps_later_segments() {
    let root = segs("ndk/23.1.7779620");
    let r = androidolize_zipfile_paths(&segs("ndk/23.1/toolchains/foo"), &root);
    assert_eq!(r, segs("ndk/23.1.7779620/23.1/toolchains/foo"));
}

#[test]
fn remap_of_empty_path_is_empty() {
    let root = segs("ndk/23.1.7779620");
    assert!(androidolize_zipfile_paths(&vec![], &root).is_empty());
    assert_eq!(androidolize_zipfile_paths(&segs("top"), &root), root);
}
