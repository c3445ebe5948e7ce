use ru_readlink::resolver::{Event, FsErrorKind, ReadLinkOutcome, Request, Resolver};
use ru_readlink::settings::CanonicalizeOption;

/// Drives one resolution against a scripted filesystem: `links` maps an
/// exact path to the outcome of a single-level link read there (paths not
/// listed are absent), `cwd` answers working-directory queries.
fn run(
    input: &str,
    mode: CanonicalizeOption,
    cwd: Option<&str>,
    links: &[(&str, Result<&str, FsErrorKind>)],
) -> Result<Vec<u8>, FsErrorKind> {
    let mut m = Resolver::new(input.as_bytes().to_vec(), mode);
    loop {
        match m.request() {
            Request::Continue => m.step(Event::Proceed),
            Request::NeedCwd => m.step(Event::CwdIs(cwd.map(|c| c.as_bytes().to_vec()))),
            Request::NeedReadLink(p) => {
                let ps = String::from_utf8(p).unwrap();
                let outcome = links
                    .iter()
                    .find(|(k, _)| *k == ps)
                    .map(|(_, v)| match v {
                        Ok(t) => ReadLinkOutcome::Target(t.as_bytes().to_vec()),
                        Err(e) => ReadLinkOutcome::Failed(*e),
                    })
                    .unwrap_or(ReadLinkOutcome::Failed(FsErrorKind::NotFound));
                m.step(Event::LinkRead(outcome));
            }
            Request::Done(r) => return r,
        }
    }
}

fn ok(s: &str) -> Result<Vec<u8>, FsErrorKind> {
    Ok(s.as_bytes().to_vec())
}

#[test]
fn mode_none_returns_stored_target_unmodified() {
    let r = run(
        "/tmp/link",
        CanonicalizeOption::NoCanonicalize,
        None,
        &[("/tmp/link", Ok("target/with/slash/"))],
    );
    assert_eq!(r, ok("target/with/slash/"));
}

#[test]
fn mode_none_fails_on_plain_entry() {
    let r = run(
        "/tmp/file",
        CanonicalizeOption::NoCanonicalize,
        None,
        &[("/tmp/file", Err(FsErrorKind::NotASymlink))],
    );
    assert_eq!(r, Err(FsErrorKind::NotASymlink));
}

#[test]
fn existing_fails_on_missing_intermediate() {
    let r = run(
        "/a/b/c",
        CanonicalizeOption::Existing,
        None,
        &[("/a", Err(FsErrorKind::NotASymlink))],
    );
    assert_eq!(r, Err(FsErrorKind::NotFound));
}

#[test]
fn existing_fails_on_missing_last() {
    let r = run(
        "/a/b",
        CanonicalizeOption::Existing,
        None,
        &[("/a", Err(FsErrorKind::NotASymlink))],
    );
    assert_eq!(r, Err(FsErrorKind::NotFound));
}

#[test]
fn all_but_last_tolerates_missing_last() {
    let r = run(
        "/a/b",
        CanonicalizeOption::AllButLast,
        None,
        &[("/a", Err(FsErrorKind::NotASymlink))],
    );
    assert_eq!(r, ok("/a/b"));
}

#[test]
fn all_but_last_fails_on_missing_intermediate() {
    let r = run(
        "/a/b/c",
        CanonicalizeOption::AllButLast,
        None,
        &[("/a", Err(FsErrorKind::NotASymlink))],
    );
    assert_eq!(r, Err(FsErrorKind::NotFound));
}

#[test]
fn missing_reproduces_absent_absolute_path() {
    let r = run("/x/y/z", CanonicalizeOption::Missing, None, &[]);
    assert_eq!(r, ok("/x/y/z"));
}

#[test]
fn missing_reproduces_absent_relative_path_anchored_at_cwd() {
    let r = run("x/y", CanonicalizeOption::Missing, Some("/home/u"), &[]);
    assert_eq!(r, ok("/home/u/x/y"));
}

#[test]
fn missing_tolerates_not_a_directory() {
    let r = run(
        "/a/b",
        CanonicalizeOption::Missing,
        None,
        &[
            ("/a", Err(FsErrorKind::NotASymlink)),
            ("/a/b", Err(FsErrorKind::NotADirectory)),
        ],
    );
    assert_eq!(r, ok("/a/b"));
}

#[test]
fn all_but_last_fails_on_not_a_directory() {
    let r = run(
        "/a/b",
        CanonicalizeOption::AllButLast,
        None,
        &[
            ("/a", Err(FsErrorKind::NotASymlink)),
            ("/a/b", Err(FsErrorKind::NotADirectory)),
        ],
    );
    assert_eq!(r, Err(FsErrorKind::NotADirectory));
}

#[test]
fn existing_fails_on_not_a_directory() {
    let r = run(
        "/a/b",
        CanonicalizeOption::Existing,
        None,
        &[
            ("/a", Err(FsErrorKind::NotASymlink)),
            ("/a/b", Err(FsErrorKind::NotADirectory)),
        ],
    );
    assert_eq!(r, Err(FsErrorKind::NotADirectory));
}

#[test]
fn other_error_fails_even_under_missing() {
    let r = run(
        "/a",
        CanonicalizeOption::Missing,
        None,
        &[("/a", Err(FsErrorKind::Other))],
    );
    assert_eq!(r, Err(FsErrorKind::Other));
}

#[test]
fn canonical_path_without_symlinks_is_unchanged() {
    let r = run(
        "/usr/local/bin",
        CanonicalizeOption::AllButLast,
        None,
        &[
            ("/usr", Err(FsErrorKind::NotASymlink)),
            ("/usr/local", Err(FsErrorKind::NotASymlink)),
            ("/usr/local/bin", Err(FsErrorKind::NotASymlink)),
        ],
    );
    assert_eq!(r, ok("/usr/local/bin"));
}

#[test]
fn trailing_separator_is_stripped() {
    let r = run(
        "/tmp/",
        CanonicalizeOption::AllButLast,
        None,
        &[("/tmp", Err(FsErrorKind::NotASymlink))],
    );
    assert_eq!(r, ok("/tmp"));
}

#[test]
fn bare_root_strips_to_empty() {
    let r = run("/", CanonicalizeOption::Missing, None, &[]);
    assert_eq!(r, ok(""));
}

#[test]
fn leading_parent_beyond_root_is_noop() {
    let r = run(
        "/../etc",
        CanonicalizeOption::AllButLast,
        None,
        &[("/etc", Err(FsErrorKind::NotASymlink))],
    );
    assert_eq!(r, ok("/etc"));
}

#[test]
fn symlink_with_absolute_target_replaces_buffer() {
    let r = run(
        "/a/f",
        CanonicalizeOption::AllButLast,
        None,
        &[
            ("/a", Err(FsErrorKind::NotASymlink)),
            ("/a/f", Ok("/x/y")),
        ],
    );
    assert_eq!(r, ok("/x/y"));
}

#[test]
fn symlink_with_relative_target_extends_buffer() {
    let r = run(
        "/a/f",
        CanonicalizeOption::AllButLast,
        None,
        &[
            ("/a", Err(FsErrorKind::NotASymlink)),
            ("/a/f", Ok("g")),
        ],
    );
    assert_eq!(r, ok("/a/g"));
}

#[test]
fn symlink_target_is_not_itself_rewalked() {
    // a -> b and b -> c: resolving "a" stops at b's path, since a target
    // is taken as-is and only the remaining input components are walked.
    let r = run(
        "a",
        CanonicalizeOption::AllButLast,
        Some("/w"),
        &[("/w/a", Ok("b")), ("/w/b", Ok("c"))],
    );
    assert_eq!(r, ok("/w/b"));
}

#[test]
fn symlink_target_rewalked_for_later_components() {
    // d -> sub: the remaining input components continue from the target.
    let r = run(
        "/d/f",
        CanonicalizeOption::AllButLast,
        None,
        &[
            ("/d", Ok("/real")),
            ("/real/f", Err(FsErrorKind::NotASymlink)),
        ],
    );
    assert_eq!(r, ok("/real/f"));
}

#[test]
fn symlink_target_with_parent_reference_kept_literally() {
    let r = run(
        "/a/f",
        CanonicalizeOption::AllButLast,
        None,
        &[
            ("/a", Err(FsErrorKind::NotASymlink)),
            ("/a/f", Ok("../z")),
        ],
    );
    assert_eq!(r, ok("/a/../z"));
}

#[test]
fn parent_after_segment_removes_it() {
    let r = run(
        "/a/../b",
        CanonicalizeOption::Missing,
        None,
        &[("/a", Err(FsErrorKind::NotASymlink))],
    );
    assert_eq!(r, ok("/b"));
}

#[test]
fn relative_parent_seeds_cwd_then_removes() {
    let r = run("..", CanonicalizeOption::Missing, Some("/home/u"), &[]);
    assert_eq!(r, ok("/home"));
}

#[test]
fn leading_dot_seeds_cwd() {
    let r = run(
        "./a",
        CanonicalizeOption::Existing,
        Some("/home"),
        &[("/home/a", Err(FsErrorKind::NotASymlink))],
    );
    assert_eq!(r, ok("/home/a"));
}

#[test]
fn first_named_component_of_relative_path_seeds_cwd() {
    let r = run(
        "a",
        CanonicalizeOption::Existing,
        Some("/base"),
        &[("/base/a", Err(FsErrorKind::NotASymlink))],
    );
    assert_eq!(r, ok("/base/a"));
}

#[test]
fn cwd_failure_is_reported_as_other() {
    let r = run("x", CanonicalizeOption::Missing, None, &[]);
    assert_eq!(r, Err(FsErrorKind::Other));
}

#[test]
fn repeated_separators_and_mid_dots_collapse() {
    let r = run(
        "/a//b/./c",
        CanonicalizeOption::Existing,
        None,
        &[
            ("/a", Err(FsErrorKind::NotASymlink)),
            ("/a/b", Err(FsErrorKind::NotASymlink)),
            ("/a/b/c", Err(FsErrorKind::NotASymlink)),
        ],
    );
    assert_eq!(r, ok("/a/b/c"));
}

#[test]
fn empty_input_resolves_to_empty() {
    let r = run("", CanonicalizeOption::Missing, None, &[]);
    assert_eq!(r, ok(""));
}
