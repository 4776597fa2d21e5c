use android_sdkmanager::catalog::find_remote_package_by_name;
use android_sdkmanager::resolve::resolve_dependencies;
use android_sdkmanager::select::{archive_fits_host, select_archives, select_for_host};
use android_sdkmanager::xml::{Catalog, CatalogError};
use android_sdkmanager::HostOs;
use android_sdkmanager::catalog::Archive;

const ROOT: &str = "https://example.test/repo/";

fn sorted(mut v: Vec<String>) -> Vec<String> {
    v.sort();
    v
}

fn names(v: &[&str]) -> Vec<String> {
    v.iter().map(|s| s.to_string()).collect()
}

const CYCLE: &str = r#"<repo>
  <remotePackage path="A"><dependencies><dependency path="B"/></dependencies></remotePackage>
  <remotePackage path="B"><dependencies><dependency path="A"/></dependencies></remotePackage>
</repo>"#;

const TREE: &str = r#"<repo>
  <remotePackage path="A">
    <dependencies><dependency path="B"/><dependency path="C"/></dependencies>
  </remotePackage>
  <remotePackage path="B"/>
  <remotePackage path="C"><dependencies><dependency path="D"/></dependencies></remotePackage>
  <remotePackage path="D"><dependencies><dependency path="B"/></dependencies></remotePackage>
  <remotePackage path="X"><dependencies><dependency path="A"/></dependencies></remotePackage>
</repo>"#;

const ARCHIVES: &str = r#"<repo>
  <remotePackage path="platform-tools">
    <archives>
      <archive>
        <complete><size>1</size><url>pt-windows.zip</url></complete>
        <host-os>windows</host-os>
      </archive>
      <archive>
        <complete><url>pt-linux.zip</url></complete>
        <host-os>linux</host-os>
      </archive>
      <archive>
        <complete><url>pt-any.zip</url></complete>
      </archive>
      <archive><host-os>macosx</host-os></archive>
    </archives>
    <dependencies><dependency path="tools"/></dependencies>
  </remotePackage>
  <remotePackage path="tools">
    <archives><archive><complete><url>tools.zip</url></complete></archive></archives>
  </remotePackage>
</repo>"#;

#[test]
fn resolve_cycle_terminates() {
    let cat = Catalog::parse(CYCLE).unwrap();
    let r = resolve_dependencies(&cat, ROOT, &names(&["A"])).unwrap();
    assert_eq!(sorted(r), names(&["A", "B"]));
}

#[test]
fn resolve_closure_of_acyclic_graph() {
    let cat = Catalog::parse(TREE).unwrap();
    let r = resolve_dependencies(&cat, ROOT, &names(&["A"])).unwrap();
    assert_eq!(sorted(r), names(&["A", "B", "C", "D"]));
    let r = resolve_dependencies(&cat, ROOT, &names(&["C", "B"])).unwrap();
    assert_eq!(sorted(r), names(&["B", "C", "D"]));
}

#[test]
fn resolve_repeated_roots_once() {
    let cat = Catalog::parse(TREE).unwrap();
    let r = resolve_dependencies(&cat, ROOT, &names(&["D", "D", "B"])).unwrap();
    assert_eq!(sorted(r), names(&["B", "D"]));
}

#[test]
fn resolve_unknown_root() {
    let cat = Catalog::parse(TREE).unwrap();
    let r = resolve_dependencies(&cat, ROOT, &names(&["Z"])).unwrap();
    assert_eq!(r, names(&["Z"]));
}

#[test]
fn resolve_reports_unreadable_dependency() {
    let text = r#"<repo>
      <remotePackage path="A"><dependencies><dependency path="B"/></dependencies></remotePackage>
      <remotePackage path="B"><dependencies><dependency/></dependencies></remotePackage>
    </repo>"#;
    let cat = Catalog::parse(text).unwrap();
    let r = resolve_dependencies(&cat, ROOT, &names(&["A"]));
    assert_eq!(r.err(), Some(CatalogError::MissingDependencyPath));
}

#[test]
fn parse_rejects_malformed_xml() {
    assert_eq!(Catalog::parse("<repo><unclosed></repo>").err(), Some(CatalogError::MalformedXml));
}

#[test]
fn lookup_reads_archives_and_dependencies() {
    let cat = Catalog::parse(ARCHIVES).unwrap();
    let p = find_remote_package_by_name(&cat, ROOT, "platform-tools").unwrap();
    assert_eq!(p.archives.len(), 4);
    assert_eq!(p.archives[0].host_os, "windows");
    assert_eq!(p.archives[0].url, "https://example.test/repo/pt-windows.zip");
    assert_eq!(p.archives[1].host_os, "linux");
    assert_eq!(p.archives[2].host_os, "");
    assert_eq!(p.archives[2].url, "https://example.test/repo/pt-any.zip");
    assert_eq!(p.archives[3].host_os, "macosx");
    assert_eq!(p.archives[3].url, "");
    assert_eq!(p.dependencies, names(&["tools"]));
}

#[test]
fn lookup_unknown_package_is_empty() {
    let cat = Catalog::parse(ARCHIVES).unwrap();
    let p = find_remote_package_by_name(&cat, ROOT, "ndk;23.1.7779620").unwrap();
    assert!(p.archives.is_empty());
    assert!(p.dependencies.is_empty());
}

#[test]
fn lookup_missing_host_os_text() {
    let text = r#"<repo><remotePackage path="p"><archives>
      <archive><host-os/><complete><url>a.zip</url></complete></archive>
    </archives></remotePackage></repo>"#;
    let cat = Catalog::parse(text).unwrap();
    let r = find_remote_package_by_name(&cat, ROOT, "p");
    assert_eq!(r.err(), Some(CatalogError::MissingHostOs));
}

#[test]
fn lookup_missing_url_text() {
    let text = r#"<repo><remotePackage path="p"><archives>
      <archive><complete><url></url></complete></archive>
    </archives></remotePackage></repo>"#;
    let cat = Catalog::parse(text).unwrap();
    let r = find_remote_package_by_name(&cat, ROOT, "p");
    assert_eq!(r.err(), Some(CatalogError::MissingUrl));
}

#[test]
fn lookup_missing_dependency_path() {
    let text = r#"<repo><remotePackage path="p"><dependencies>
      <dependency name="q"/>
    </dependencies></remotePackage></repo>"#;
    let cat = Catalog::parse(text).unwrap();
    let r = find_remote_package_by_name(&cat, ROOT, "p");
    assert_eq!(r.err(), Some(CatalogError::MissingDependencyPath));
}

fn archive(tag: &str, url: &str) -> Archive {
    Archive { host_os: tag.to_string(), url: url.to_string() }
}

#[test]
fn select_for_host_by_substring() {
    let all = vec![archive("windows-x64", "w"), archive("", "any"), archive("linux", "l")];
    let r = select_for_host(&all, HostOs::Windows);
    assert_eq!(r.len(), 2);
    assert_eq!(r[0].url, "w");
    assert_eq!(r[1].url, "any");
    let r = select_for_host(&all, HostOs::Linux);
    let urls: Vec<&str> = r.iter().map(|a| a.url.as_str()).collect();
    assert_eq!(urls, vec!["any", "l"]);
    assert!(!archive_fits_host(&archive("windows", "w"), HostOs::MacOs));
    assert!(archive_fits_host(&archive("macosx", "m"), HostOs::MacOs));
}

#[test]
fn host_tags() {
    assert_eq!(HostOs::Windows.to_str(), "windows");
    assert_eq!(HostOs::Linux.to_str(), "linux");
    assert_eq!(HostOs::MacOs.to_str(), "macosx");
}

#[test]
fn select_archives_pairs_packages() {
    let cat = Catalog::parse(ARCHIVES).unwrap();
    let resolved = resolve_dependencies(&cat, ROOT, &names(&["platform-tools"])).unwrap();
    let mut r = select_archives(&cat, ROOT, &sorted(resolved), HostOs::Linux).unwrap();
    r.sort_by(|a, b| a.1.url.cmp(&b.1.url));
    let got: Vec<(String, String)> = r.into_iter().map(|(n, a)| (n, a.url)).collect();
    assert_eq!(
        got,
        vec![
            ("platform-tools".to_string(), format!("{}pt-any.zip", ROOT)),
            ("platform-tools".to_string(), format!("{}pt-linux.zip", ROOT)),
            ("tools".to_string(), format!("{}tools.zip", ROOT)),
        ]
    );
}
