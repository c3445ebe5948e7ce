use ru_readlink::settings::{CanonicalizeOption, Settings};

#[test]
fn default_settings_match_the_documented_start_state() {
    let s = Settings::default();
    assert!(s.canonicalize.is_none());
    assert!(s.output_delimiter);
    assert!(s.quiet);
    assert!(!s.zero);
    assert!(s.files.is_empty());
}

#[test]
fn mode_predicates_identify_exactly_their_variant() {
    let a = CanonicalizeOption::AllButLast;
    assert!(a.is_all_but_last());
    assert!(!a.is_existing());
    assert!(!a.is_missing());
    assert!(!a.is_none());

    let e = CanonicalizeOption::Existing;
    assert!(!e.is_all_but_last());
    assert!(e.is_existing());
    assert!(!e.is_missing());
    assert!(!e.is_none());

    let m = CanonicalizeOption::Missing;
    assert!(!m.is_all_but_last());
    assert!(!m.is_existing());
    assert!(m.is_missing());
    assert!(!m.is_none());

    let n = CanonicalizeOption::NoCanonicalize;
    assert!(!n.is_all_but_last());
    assert!(!n.is_existing());
    assert!(!n.is_missing());
    assert!(n.is_none());
}
