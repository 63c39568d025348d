use gcrs::classify::classify_str;
use gcrs::gcroot::GCRoot;
use gcrs::gcroot::GCRoots;
use gcrs::GcError;

fn root(p: &str, t: &str) -> GCRoot {
    GCRoot { path: p.to_string(), target: t.to_string() }
}

#[test]
fn parse_line_splits_at_last_separator() {
    let r = GCRoots::parse_nix_store_gc_line("/a/b -> /nix/store/x").unwrap().unwrap();
    assert_eq!(r.path, "/a/b");
    assert_eq!(r.target, "/nix/store/x");
    // a path containing the separator splits at its last occurrence
    let r = GCRoots::parse_nix_store_gc_line("/a -> b -> /nix/store/y").unwrap().unwrap();
    assert_eq!(r.path, "/a -> b");
    assert_eq!(r.target, "/nix/store/y");
}

#[test]
fn parse_line_round_trip() {
    let line = "/some dir/with space -> /nix/store/abc";
    let r = GCRoots::parse_nix_store_gc_line(line).unwrap().unwrap();
    assert_eq!(format!("{} -> {}", r.path, r.target), line);
}

#[test]
fn parse_line_without_separator_is_fatal() {
    let e = GCRoots::parse_nix_store_gc_line("no separator here").unwrap_err();
    assert!(matches!(e, GcError::MalformedLine { .. }));
}

#[test]
fn proc_and_marker_lines_are_dropped() {
    assert!(GCRoots::parse_nix_store_gc_line("/proc/123/fd/3 -> /nix/store/x")
        .unwrap()
        .is_none());
    assert!(GCRoots::parse_nix_store_gc_line("{censored} -> /nix/store/x")
        .unwrap()
        .is_none());
    assert!(GCRoots::parse_nix_store_gc_line("{memory:4} -> /nix/store/x")
        .unwrap()
        .is_none());
    let out =
        GCRoots::parse_nix_store_gc_output("/proc/1/x -> /s/a\n{lsof:2} -> /s/b\n").unwrap();
    assert_eq!(out.len(), 0);
}

#[test]
fn parse_output_keeps_line_order_and_strips_line_endings() {
    let text = "/a/one -> /s/1\r\n/b/two -> /s/2\n/c/three -> /s/3";
    let out = GCRoots::parse_nix_store_gc_output(text).unwrap();
    assert_eq!(out.len(), 3);
    assert_eq!(out[0].path, "/a/one");
    assert_eq!(out[0].target, "/s/1");
    assert_eq!(out[1].path, "/b/two");
    assert_eq!(out[2].path, "/c/three");
    assert_eq!(out[2].target, "/s/3");
}

#[test]
fn parse_output_fails_on_any_bad_line() {
    let e = GCRoots::parse_nix_store_gc_output("/a -> /s/1\nbroken\n").unwrap_err();
    assert!(matches!(e, GcError::MalformedLine { .. }));
}

#[test]
fn classifier_accepts_generation_pattern() {
    assert_eq!(classify_str("/p/foo-12-link"), Some((6, 12)));
    let r = root("/p/foo-12-link", "/s/x");
    assert_eq!(r.get_profile_gen(), Some(12));
    assert_eq!(r.get_profile_path(), Some("/p/foo"));
    // the profile name may itself contain dashes
    let r = root("/p/foo-bar-7-link", "/s/x");
    assert_eq!(r.get_profile_gen(), Some(7));
    assert_eq!(r.get_profile_path(), Some("/p/foo-bar"));
    // generation zero and leading zeros parse
    assert_eq!(root("/p/a-0-link", "/s").get_profile_gen(), Some(0));
    assert_eq!(root("/p/a-007-link", "/s").get_profile_gen(), Some(7));
}

#[test]
fn classifier_rejects_non_matching_names() {
    // fewer than two separators
    assert_eq!(root("/p/foo-link", "/s").get_profile_gen(), None);
    // wrong suffix
    assert_eq!(root("/p/foo-2-zelda", "/s").get_profile_gen(), None);
    assert_eq!(root("/p/foo-2-link2", "/s").get_profile_gen(), None);
    // non-numeric middle segment
    assert_eq!(root("/p/foo-x2-link", "/s").get_profile_gen(), None);
    assert_eq!(root("/p/foo--link", "/s").get_profile_gen(), None);
    // a value that does not fit in 64 bits
    assert_eq!(
        root("/p/foo-99999999999999999999-link", "/s").get_profile_gen(),
        None
    );
    // the largest value that fits
    assert_eq!(
        root("/p/foo-18446744073709551615-link", "/s").get_profile_gen(),
        Some(u64::MAX)
    );
    // dashes in the directory do not make a match
    assert_eq!(root("/with-dashes/plain", "/s").get_profile_gen(), None);
}

#[test]
fn classifier_ignores_trailing_separators() {
    let r = root("/a/p-1-link/", "/s/x");
    assert_eq!(r.get_profile_gen(), Some(1));
    assert_eq!(r.get_profile_path(), Some("/a/p"));
    let r = root("/a/p-1-link//", "/s/x");
    assert_eq!(r.get_profile_gen(), Some(1));
    assert_eq!(r.get_profile_path(), Some("/a/p"));
    // a path of separators alone has no file name
    assert_eq!(root("///", "/s").get_profile_gen(), None);
}

#[test]
fn from_listing_output_builds_the_model() {
    // grouping on a listing whose candidate base paths are no symlinks on
    // this machine: everything becomes standalone
    let m = GCRoots::from_listing_output(true, "exit status: 0", "/b/two -> /s/2\n/a/one -> /s/1\n")
        .unwrap();
    assert_eq!(m.profiles.len(), 0);
    assert_eq!(m.standalone.len(), 2);
    assert_eq!(m.standalone[0].path, "/a/one");
    assert_eq!(m.standalone[1].path, "/b/two");
}
