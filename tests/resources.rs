use lhn::archive::{ArchiveAction, ArchiveInstallation, Link};
use lhn::repo::{get_name, Repo, RepoAction};
use lhn::unless::Unless;
use lhn::util::{expand_user, join_path};

fn archive(cmd: &str, post: &str) -> ArchiveInstallation {
    ArchiveInstallation {
        version: "1.2.3".to_string(),
        unless: Unless { cmd: cmd.to_string(), post: post.to_string() },
        links: vec![
            Link { src: "tool-${version}/bin/tool".to_string(), dest: "~/bin/tool".to_string() },
            Link { src: "/abs/x".to_string(), dest: "/usr/local/bin/x".to_string() },
        ],
        url: "https://example.com/tool-${version}.tar.gz".to_string(),
    }
}

#[test]
fn repo_name_strips_extension() {
    assert_eq!(get_name("https://example.com/org/tool.git"), Some("tool".to_string()));
    assert_eq!(get_name("https://example.com/org/tool"), Some("tool".to_string()));
    assert_eq!(get_name("https://example.com/org/"), None);
}

#[test]
fn repo_name_strips_only_last_extension() {
    assert_eq!(get_name("https://example.com/org/my.tool.git"), Some("my.tool".to_string()));
    assert_eq!(get_name("https://example.com/org/tool."), Some("tool".to_string()));
    assert_eq!(get_name("https://example.com/org/.git"), None);
    assert_eq!(get_name("tool"), Some("tool".to_string()));
}

#[test]
fn repo_target_path() {
    let r = Repo { url: "https://example.com/org/tool.git".to_string() };
    assert_eq!(r.target_path("/src").unwrap(), "/src/tool");
    let bad = Repo { url: "https://example.com/org/".to_string() };
    assert_eq!(bad.target_path("/src").unwrap_err().url, "https://example.com/org/");
}

#[test]
fn existing_repo_is_skipped() {
    let r = Repo { url: "https://example.com/org/tool.git".to_string() };
    match r.plan("/src", true).unwrap() {
        RepoAction::Skip(path) => assert_eq!(path, "/src/tool"),
        RepoAction::Clone(_, _) => panic!("cloned over an existing directory"),
    }
}

#[test]
fn absent_repo_is_cloned() {
    let r = Repo { url: "https://example.com/org/tool.git".to_string() };
    match r.plan("/src", false).unwrap() {
        RepoAction::Clone(url, path) => {
            assert_eq!(url, "https://example.com/org/tool.git");
            assert_eq!(path, "/src/tool");
        }
        RepoAction::Skip(_) => panic!("skipped a missing repository"),
    }
}

#[test]
fn version_placeholder_is_replaced() {
    let a = archive("", "");
    assert_eq!(a.get_url(), "https://example.com/tool-1.2.3.tar.gz");
    assert_eq!(a.replace_version("${version}-${version}"), "1.2.3-1.2.3");
    assert_eq!(a.replace_version("${versio}"), "${versio}");
    assert_eq!(a.get_unless().cmd, "");
}

#[test]
fn probe_that_did_not_start_is_not_satisfied() {
    let u = Unless { cmd: "tool --version".to_string(), post: "field 1".to_string() };
    assert!(!u.is_satisfied("1.2.3", None));
    let a = archive("tool --version", "field 1");
    assert!(matches!(a.plan(None), ArchiveAction::Fetch(_)));
}

#[test]
fn matching_probe_skips() {
    let a = archive("tool --version", "line 0 | field 1");
    assert!(matches!(a.plan(Some("tool 1.2.3\nmore")), ArchiveAction::Skip));
}

#[test]
fn other_version_fetches() {
    let a = archive("tool --version", "field 1");
    match a.plan(Some("tool 1.2.2")) {
        ArchiveAction::Fetch(url) => assert_eq!(url, "https://example.com/tool-1.2.3.tar.gz"),
        ArchiveAction::Skip => panic!("skipped an outdated archive"),
    }
}

#[test]
fn bad_pipeline_is_not_satisfied() {
    let u = Unless { cmd: "tool".to_string(), post: "bogus 1".to_string() };
    assert!(!u.is_satisfied("1.2.3", Some("tool 1.2.3")));
    let empty = Unless { cmd: "tool".to_string(), post: String::new() };
    assert!(!empty.is_satisfied("", Some("")));
}

#[test]
fn undeclared_condition_always_fetches() {
    let a = archive("", "field 0");
    assert!(!a.unless.is_declared());
    assert!(matches!(a.plan(Some("1.2.3")), ArchiveAction::Fetch(_)));
}

#[test]
fn probe_args_split_on_spaces() {
    let u = Unless { cmd: "go version".to_string(), post: String::new() };
    assert_eq!(u.probe_args(), vec!["go".to_string(), "version".to_string()]);
}

#[test]
fn link_paths_resolve() {
    let a = archive("", "");
    let links = a.link_paths("/opt/unpack", "/home/me");
    assert_eq!(links.len(), 2);
    assert_eq!(links[0].original, "/opt/unpack/tool-1.2.3/bin/tool");
    assert_eq!(links[0].link, "/home/me/bin/tool");
    assert_eq!(links[1].original, "/abs/x");
    assert_eq!(links[1].link, "/usr/local/bin/x");
}

#[test]
fn expand_user_replaces_tilde() {
    assert_eq!(expand_user("~/x", "/home/u"), "/home/u/x");
    assert_eq!(expand_user("/etc/x", "/home/u"), "/etc/x");
}

#[test]
fn join_path_cases() {
    assert_eq!(join_path("/a/", "b"), "/a/b");
    assert_eq!(join_path("/a", "b"), "/a/b");
    assert_eq!(join_path("", "b"), "b");
    assert_eq!(join_path("/a", "/b"), "/b");
}
