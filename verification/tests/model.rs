use gcrs::gcroot::ActiveState;
use gcrs::gcroot::GCRoot;
use gcrs::gcroot::GCRoots;
use gcrs::gcroot::LinkRead;
use gcrs::gcroot::ProfileProbe;
use gcrs::gcroot::generation_deletable;
use gcrs::gcroot::standalone_deletable;
use gcrs::GcError;

fn root(p: &str, t: &str) -> GCRoot {
    GCRoot { path: p.to_string(), target: t.to_string() }
}

fn probe(p: &str, is_symlink: bool, link: LinkRead) -> ProfileProbe {
    ProfileProbe { path: p.to_string(), is_symlink, link }
}

#[test]
fn scenario_profile_grouping() {
    let roots = vec![
        root("/a/profile-1-link", "/nix/store/xxx"),
        root("/a/profile-2-link", "/nix/store/yyy"),
        root("/a/profile", "/a/profile-2-link"),
        root("/b/other", "/nix/store/zzz"),
    ];
    let probes = vec![probe(
        "/a/profile",
        true,
        LinkRead::Target("/a/profile-2-link".to_string()),
    )];
    let m = GCRoots::group_with_probes(roots, probes).unwrap();
    assert_eq!(m.profiles.len(), 1);
    let p = &m.profiles[0];
    assert_eq!(p.path, "/a/profile");
    assert_eq!(p.active_generation, Some(2));
    assert_eq!(p.generations.len(), 2);
    assert_eq!(p.generations[0].generation, 1);
    assert!(p.generations[0].is_active == ActiveState::Inactive);
    assert_eq!(p.generations[0].target, "/nix/store/xxx");
    assert_eq!(p.generations[1].generation, 2);
    assert!(p.generations[1].is_active == ActiveState::Active);
    // the profile's own symlink is not a generation root, so it stays
    // standalone beside the unrelated root, sorted by location
    assert_eq!(m.standalone.len(), 2);
    assert_eq!(m.standalone[0].path, "/a/profile");
    assert_eq!(m.standalone[1].path, "/b/other");
}

#[test]
fn scenario_base_path_not_a_symlink_stays_standalone() {
    let roots = vec![root("/c/prof-3-link", "/nix/store/z")];
    let probes = vec![probe("/c/prof", false, LinkRead::Unreadable)];
    let m = GCRoots::group_with_probes(roots, probes).unwrap();
    assert_eq!(m.profiles.len(), 0);
    assert_eq!(m.standalone.len(), 1);
    assert_eq!(m.standalone[0].path, "/c/prof-3-link");
}

#[test]
fn scenario_missing_probe_stays_standalone() {
    let roots = vec![root("/c/prof-3-link", "/nix/store/z")];
    let m = GCRoots::group_with_probes(roots, Vec::new()).unwrap();
    assert_eq!(m.profiles.len(), 0);
    assert_eq!(m.standalone.len(), 1);
}

#[test]
fn scenario_listing_command_failure_is_fatal() {
    let e = GCRoots::from_listing_output(false, "exit status: 1", "ignored").unwrap_err();
    let msg = e.message();
    assert_eq!(
        msg,
        "\"nix-store --gc --print-roots\" exited with code exit status: 1"
    );
}

#[test]
fn unreadable_profile_link_gives_unknown_active() {
    let roots = vec![
        root("/a/profile-1-link", "/nix/store/xxx"),
        root("/a/profile-2-link", "/nix/store/yyy"),
    ];
    let probes = vec![probe("/a/profile", true, LinkRead::Unreadable)];
    let m = GCRoots::group_with_probes(roots, probes).unwrap();
    assert_eq!(m.profiles.len(), 1);
    assert_eq!(m.profiles[0].active_generation, None);
    assert!(m.profiles[0].generations[0].is_active == ActiveState::Unknown);
    assert!(m.profiles[0].generations[1].is_active == ActiveState::Unknown);
}

#[test]
fn failed_profile_link_read_is_fatal() {
    let roots = vec![root("/a/profile-1-link", "/nix/store/xxx")];
    let probes = vec![probe(
        "/a/profile",
        true,
        LinkRead::Failed("input/output error".to_string()),
    )];
    let e = GCRoots::group_with_probes(roots, probes).unwrap_err();
    assert!(matches!(e, GcError::LinkRead { .. }));
    assert_eq!(
        e.message(),
        "reading the symlink at /a/profile failed: input/output error"
    );
}

#[test]
fn relative_link_target_resolves_against_parent() {
    let roots = vec![root("/a/profile-5-link", "/nix/store/xxx")];
    let probes = vec![probe(
        "/a/profile",
        true,
        LinkRead::Target("profile-5-link".to_string()),
    )];
    let m = GCRoots::group_with_probes(roots, probes).unwrap();
    assert_eq!(m.profiles[0].active_generation, Some(5));
    assert!(m.profiles[0].generations[0].is_active == ActiveState::Active);
}

#[test]
fn duplicate_generation_last_seen_wins() {
    let roots = vec![
        root("/a/profile-1-link", "/s/one"),
        root("/a/profile-1-link", "/s/two"),
    ];
    let probes = vec![probe("/a/profile", true, LinkRead::Unreadable)];
    let m = GCRoots::group_with_probes(roots, probes).unwrap();
    assert_eq!(m.profiles.len(), 1);
    assert_eq!(m.profiles[0].generations.len(), 1);
    assert_eq!(m.profiles[0].generations[0].target, "/s/two");
    assert_eq!(m.standalone.len(), 0);
}

#[test]
fn standalone_roots_are_sorted_by_location() {
    let roots = vec![root("/z/b", "/s/1"), root("/a/c", "/s/2"), root("/m/d", "/s/3")];
    let m = GCRoots::group_with_probes(roots, Vec::new()).unwrap();
    let paths: Vec<&str> = m.standalone.iter().map(|r| r.path.as_str()).collect();
    assert_eq!(paths, vec!["/a/c", "/m/d", "/z/b"]);
}

#[test]
fn deletable_policy_excludes_run_and_proc() {
    assert!(!standalone_deletable("/run/foo", true));
    assert!(!standalone_deletable("/proc/12/fd/3", true));
    assert!(!standalone_deletable("/ok/foo", false));
    assert!(standalone_deletable("/ok/foo", true));
    // component semantics: /run2 is not under /run
    assert!(standalone_deletable("/run2/foo", true));
    assert!(!generation_deletable(ActiveState::Active, "/ok/p-1-link", true));
    assert!(!generation_deletable(ActiveState::Unknown, "/ok/p-1-link", true));
    assert!(generation_deletable(ActiveState::Inactive, "/ok/p-1-link", true));
    assert!(!generation_deletable(ActiveState::Inactive, "/run/p-1-link", true));
    assert!(!generation_deletable(ActiveState::Inactive, "/proc/p-1-link", true));
}

#[test]
fn deletable_never_true_under_proc_or_run() {
    assert!(!root("/proc/123/fd/4", "/nix/store/x").deletable());
    assert!(!root("/run/user/keep", "/nix/store/x").deletable());
}

#[test]
fn deletion_needs_a_parent_directory() {
    assert_eq!(gcrs::gcroot::deletion_parent_exec("/a/b"), Some("/a"));
    assert_eq!(gcrs::gcroot::deletion_parent_exec("/b"), Some("/"));
    assert_eq!(gcrs::gcroot::deletion_parent_exec("/"), None);
    assert_eq!(gcrs::gcroot::deletion_parent_exec("relative"), None);
    assert!(gcrs::gcroot::can_delete_file_with("/a/b", true));
    assert!(!gcrs::gcroot::can_delete_file_with("/a/b", false));
    assert!(!gcrs::gcroot::can_delete_file_with("/", true));
    assert!(!gcrs::gcroot::can_delete_file_with("relative", true));
    // a root with no parent directory is never deletable
    assert!(!root("/", "/nix/store/x").deletable());
    assert!(!root("relative", "/nix/store/x").deletable());
}
