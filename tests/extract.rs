use android_sdkmanager::archive::ZipEntry;
use android_sdkmanager::extract::{entry_action, is_dir_name, is_symlink, plan_extraction, ExtractAction, ExtractError};
use android_sdkmanager::MatchType;
use std::io::Write;

fn segs(s: &str) -> Vec<String> {
    s.split('/').map(|p| p.to_string()).collect()
}

fn entry(name: &str, mode: Option<u32>, contents: &[u8]) -> ZipEntry {
    ZipEntry { name: name.to_string(), enclosed: true, unix_mode: mode, contents: contents.to_vec() }
}

fn sample_zip() -> Vec<u8> {
    let mut w = zip::ZipWriter::new(std::io::Cursor::new(Vec::new()));
    let opts = zip::write::FileOptions::default();
    w.add_directory("android-12/", opts).unwrap();
    w.add_directory("android-12/data/", opts).unwrap();
    w.start_file("android-12/android.jar", opts.unix_permissions(0o644)).unwrap();
    w.write_all(b"jar bytes").unwrap();
    w.start_file("android-12/data/fonts.xml", opts.unix_permissions(0o600)).unwrap();
    w.write_all(b"<fonts/>").unwrap();
    w.finish().unwrap().into_inner()
}

#[test]
fn symlink_entry_keeps_target() {
    let root = segs("ndk/23.1.7779620");
    let e = entry("top/lib64/libfoo.so", Some(0o120777), b"../lib/libfoo.so");
    match entry_action(&root, e, None).unwrap() {
        Some(ExtractAction::Symlink { path, target }) => {
            assert_eq!(path, segs("ndk/23.1.7779620/lib64/libfoo.so"));
            assert_eq!(target, b"../lib/libfoo.so".to_vec());
        }
        _ => panic!("expected a link"),
    }
}

#[test]
fn regular_file_keeps_mode_and_contents() {
    let root = segs("platform-tools");
    let e = entry("platform-tools/adb", Some(0o100755), b"ELF");
    match entry_action(&root, e, None).unwrap() {
        Some(ExtractAction::WriteFile { path, contents, mode }) => {
            assert_eq!(path, segs("platform-tools/adb"));
            assert_eq!(contents, b"ELF".to_vec());
            assert_eq!(mode, Some(0o100755));
        }
        _ => panic!("expected a file"),
    }
}

#[test]
fn directories_ignore_the_filter() {
    let root = segs("build-tools/31.0.0");
    let rules = [MatchType::EntireStem("aapt")];
    match entry_action(&root, entry("android-12/lib/", None, b""), Some(&rules[..])).unwrap() {
        Some(ExtractAction::CreateDir { path }) => assert_eq!(path, segs("build-tools/31.0.0/lib")),
        _ => panic!("expected a directory"),
    }
    assert!(entry_action(&root, entry("android-12/aapt2", None, b"x"), Some(&rules[..])).unwrap().is_none());
    assert!(entry_action(&root, entry("android-12/aapt", None, b"x"), Some(&rules[..])).unwrap().is_some());
}

#[test]
fn filter_sees_the_remapped_path() {
    let root = segs("build-tools/31.0.0");
    let rules = [MatchType::EntireFolder("build-tools")];
    assert!(entry_action(&root, entry("android-12/zipalign", None, b"x"), Some(&rules[..])).unwrap().is_some());
}

#[test]
fn unenclosed_entry_fails() {
    let root = segs("p");
    let mut e = entry("../evil", None, b"x");
    e.enclosed = false;
    assert_eq!(entry_action(&root, e, None).err(), Some(ExtractError::UnsafePath));
}

#[test]
fn symlink_bits() {
    assert!(is_symlink(Some(0o120777)));
    assert!(is_symlink(Some(0o120000)));
    assert!(!is_symlink(Some(0o100644)));
    assert!(!is_symlink(Some(0o040755)));
    assert!(!is_symlink(None));
    assert!(is_dir_name("a/b/"));
    assert!(!is_dir_name("a/b"));
    assert!(!is_dir_name(""));
}

#[test]
fn plan_of_real_archive() {
    let plan = plan_extraction(sample_zip(), "platforms;android-31", None).unwrap();
    assert_eq!(plan.len(), 4);
    match &plan[0] {
        ExtractAction::CreateDir { path } => assert_eq!(path, &segs("platforms/android-31")),
        _ => panic!("expected a directory"),
    }
    match &plan[1] {
        ExtractAction::CreateDir { path } => assert_eq!(path, &segs("platforms/android-31/data")),
        _ => panic!("expected a directory"),
    }
    match &plan[2] {
        ExtractAction::WriteFile { path, contents, mode } => {
            assert_eq!(path, &segs("platforms/android-31/android.jar"));
            assert_eq!(contents, &b"jar bytes".to_vec());
            assert_eq!(mode.map(|m| m & 0o777), Some(0o644));
        }
        _ => panic!("expected a file"),
    }
    match &plan[3] {
        ExtractAction::WriteFile { path, contents, .. } => {
            assert_eq!(path, &segs("platforms/android-31/data/fonts.xml"));
            assert_eq!(contents, &b"<fonts/>".to_vec());
        }
        _ => panic!("expected a file"),
    }
}

#[test]
fn plan_with_allow_list() {
    let rules = [MatchType::EntireName("android.jar")];
    let plan = plan_extraction(sample_zip(), "platforms;android-31", Some(&rules[..])).unwrap();
    assert_eq!(plan.len(), 3);
    assert!(matches!(&plan[2], ExtractAction::WriteFile { path, .. } if path == &segs("platforms/android-31/android.jar")));
}

#[test]
fn plan_rejects_non_archive() {
    let r = plan_extraction(b"definitely not a zip".to_vec(), "p", None);
    assert_eq!(r.err(), Some(ExtractError::InvalidArchive));
}

#[test]
fn plan_rejects_escaping_entry() {
    let mut w = zip::ZipWriter::new(std::io::Cursor::new(Vec::new()));
    w.start_file("../evil", zip::write::FileOptions::default()).unwrap();
    w.write_all(b"x").unwrap();
    let bytes = w.finish().unwrap().into_inner();
    let r = plan_extraction(bytes, "p", None);
    assert_eq!(r.err(), Some(ExtractError::UnsafePath));
}

#[test]
fn parent_segment_is_refused() {
    let root = segs("ndk/23.1.7779620");
    let r = entry_action(&root, entry("top/../escape.txt", None, b"x"), None);
    assert_eq!(r.err(), Some(ExtractError::UnsafePath));
    let r = entry_action(&root, entry("top/sub/../", None, b""), None);
    assert_eq!(r.err(), Some(ExtractError::UnsafePath));
}

#[test]
fn empty_name_is_refused() {
    let root = segs("p");
    let r = entry_action(&root, entry("./", None, b""), None);
    assert_eq!(r.err(), Some(ExtractError::UnsafePath));
}

#[test]
fn unsafe_package_root_is_refused() {
    let r = entry_action(&vec![], entry("top/file", None, b"x"), None);
    assert_eq!(r.err(), Some(ExtractError::UnsafePath));
    let r = entry_action(&segs("a/../b"), entry("top/file", None, b"x"), None);
    assert_eq!(r.err(), Some(ExtractError::UnsafePath));
}

#[test]
fn plan_rejects_parent_segment_inside_archive() {
    let mut w = zip::ZipWriter::new(std::io::Cursor::new(Vec::new()));
    w.start_file("top/../outside.txt", zip::write::FileOptions::default()).unwrap();
    w.write_all(b"x").unwrap();
    let bytes = w.finish().unwrap().into_inner();
    let r = plan_extraction(bytes, "platforms;android-31", None);
    assert_eq!(r.err(), Some(ExtractError::UnsafePath));
}

#[test]
fn plan_rejects_unsafe_package_identifier() {
    let r = plan_extraction(sample_zip(), "..;x", None);
    assert_eq!(r.err(), Some(ExtractError::UnsafePath));
}
