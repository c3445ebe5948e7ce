//! Laws of the resolver, stated over whole runs of the machine.
//!
//! A run feeds a sequence of events to the machine; the lemmas here pin
//! down the result of a run for each canonicalization mode and for the
//! shapes of filesystem behaviour the walk distinguishes.

use vstd::prelude::*;

use crate::path::{
    buf_of_path, buf_push_seg, buf_wf, spec_components, spec_render, spec_strip,
    lemma_result_no_trailing_sep, BufV, CompV, SLASH,
};
use crate::resolver::{
    inv, spec_advance, spec_init, spec_request, spec_step, spec_tolerate, EventV, FsErrorKind,
    OutcomeV, RequestV, ResolverV,
};
use crate::settings::CanonicalizeOption;

verus! {

/// The state after feeding a sequence of events, one `step` at a time.
pub open spec fn spec_run(s: ResolverV, evs: Seq<EventV>) -> ResolverV
    decreases evs.len(),
{
    if evs.len() == 0 {
        s
    } else {
        spec_run(spec_step(s, evs[0]), evs.drop_first())
    }
}

/// The names carried by the components from position `i` on, in order.
pub open spec fn names_from(comps: Seq<CompV>, i: int) -> Seq<Seq<u8>>
    decreases comps.len() - i,
{
    if i < 0 || i >= comps.len() {
        Seq::empty()
    } else {
        match comps[i] {
            CompV::Name(n) => seq![n] + names_from(comps, i + 1),
            _ => names_from(comps, i + 1),
        }
    }
}

/// Without canonicalization the machine asks for exactly one link read,
/// on the unmodified input bytes; a symlink's stored target is returned
/// exactly as stored.
pub proof fn lemma_none_returns_target(input: Seq<u8>, t: Seq<u8>)
    ensures
        spec_request(spec_init(input, CanonicalizeOption::NoCanonicalize))
            == RequestV::NeedReadLink(input),
        spec_step(
            spec_init(input, CanonicalizeOption::NoCanonicalize),
            EventV::LinkRead(OutcomeV::Target(t)),
        ).done == Some(Ok::<Seq<u8>, FsErrorKind>(t)),
{
}

/// Without canonicalization every failure of the link read — in
/// particular `NotASymlink` on a path that exists but is no link — is
/// returned unchanged.
pub proof fn lemma_none_propagates_error(input: Seq<u8>, e: FsErrorKind)
    ensures
        spec_step(
            spec_init(input, CanonicalizeOption::NoCanonicalize),
            EventV::LinkRead(OutcomeV::Failed(e)),
        ).done == Some(Err::<Seq<u8>, FsErrorKind>(e)),
{
}

/// Under `Existing`, a missing component is fatal wherever it stands,
/// last or not: the walk aborts with `NotFound`.
pub proof fn lemma_existing_missing_fails(s: ResolverV)
    requires
        s.done is None,
        s.mode is Existing,
        0 <= s.idx < s.comps.len(),
        s.comps[s.idx] is Name,
        !s.first,
    ensures
        spec_step(s, EventV::LinkRead(OutcomeV::Failed(FsErrorKind::NotFound))).done == Some(
            Err::<Seq<u8>, FsErrorKind>(FsErrorKind::NotFound),
        ),
{
}

/// Under `AllButLast`, a missing component that is not the last is
/// fatal: the walk aborts with `NotFound`.
pub proof fn lemma_all_but_last_intermediate_missing(s: ResolverV)
    requires
        s.done is None,
        s.mode is AllButLast,
        0 <= s.idx < s.comps.len() - 1,
        s.comps[s.idx] is Name,
        !s.first,
    ensures
        spec_step(s, EventV::LinkRead(OutcomeV::Failed(FsErrorKind::NotFound))).done == Some(
            Err::<Seq<u8>, FsErrorKind>(FsErrorKind::NotFound),
        ),
{
}

/// Under `AllButLast`, a missing final component is tolerated: its name
/// is appended literally and the resolution then succeeds with the
/// stripped rendering of the extended buffer.
pub proof fn lemma_all_but_last_final_missing(s: ResolverV, n: Seq<u8>)
    requires
        s.done is None,
        s.mode is AllButLast,
        s.idx == s.comps.len() - 1,
        s.comps[s.idx] == CompV::Name(n),
        !s.first,
    ensures
        spec_run(
            s,
            seq![
                EventV::LinkRead(OutcomeV::Failed(FsErrorKind::NotFound)),
                EventV::Proceed,
            ],
        ).done == Some(Ok::<Seq<u8>, FsErrorKind>(spec_strip(spec_render(buf_push_seg(s.buf, n))))),
{
    let evs = seq![
        EventV::LinkRead(OutcomeV::Failed(FsErrorKind::NotFound)),
        EventV::Proceed,
    ];
    let s1 = spec_step(s, evs[0]);
    assert(spec_tolerate(s.mode, FsErrorKind::NotFound, true));
    assert(s1 == spec_advance(ResolverV { buf: buf_push_seg(s.buf, n), ..s }));
    assert(evs.drop_first() =~= seq![EventV::Proceed]);
    let s2 = spec_step(s1, EventV::Proceed);
    assert(s1.idx >= s1.comps.len());
    assert(s2.done == Some(Ok::<Seq<u8>, FsErrorKind>(spec_strip(spec_render(buf_push_seg(s.buf, n))))));
    assert(seq![EventV::Proceed].drop_first() =~= Seq::<EventV>::empty());
    assert(spec_run(s, evs) == spec_run(s1, evs.drop_first()));
    assert(spec_run(s1, seq![EventV::Proceed]) == spec_run(
        s2,
        seq![EventV::Proceed].drop_first(),
    ));
    assert(spec_run(s2, Seq::<EventV>::empty()) == s2);
    assert(spec_run(s, evs) == s2);
}

/// A walk whose remaining components are all names, and whose every link
/// read fails with an error the mode tolerates at that position, appends
/// those names literally — nothing is substituted — and then succeeds
/// with the stripped rendering of the buffer extended by exactly those
/// names.
pub proof fn lemma_literal_walk(s: ResolverV, evs: Seq<EventV>)
    requires
        s.done is None,
        !(s.mode is NoCanonicalize),
        !s.first,
        0 <= s.idx <= s.comps.len(),
        evs.len() == s.comps.len() - s.idx + 1,
        forall|k: int|
            0 <= k < evs.len() - 1 ==> (#[trigger] s.comps[s.idx + k]) is Name,
        forall|k: int|
            0 <= k < evs.len() - 1 ==> ((#[trigger] evs[k]) matches EventV::LinkRead(
                OutcomeV::Failed(e),
            ) && spec_tolerate(s.mode, e, s.idx + k == s.comps.len() - 1)),
        evs[evs.len() - 1] is Proceed,
    ensures
        spec_run(s, evs).done == Some(
            Ok::<Seq<u8>, FsErrorKind>(
                spec_strip(
                    spec_render(
                        BufV {
                            absolute: s.buf.absolute,
                            segs: s.buf.segs + names_from(s.comps, s.idx),
                        },
                    ),
                ),
            ),
        ),
    decreases evs.len(),
{
    if evs.len() == 1 {
        assert(s.idx == s.comps.len());
        assert(names_from(s.comps, s.idx) =~= Seq::<Seq<u8>>::empty());
        assert(BufV { absolute: s.buf.absolute, segs: s.buf.segs + names_from(s.comps, s.idx) }
            =~= s.buf);
        let s1 = spec_step(s, evs[0]);
        assert(s1.done == Some(Ok::<Seq<u8>, FsErrorKind>(spec_strip(spec_render(s.buf)))));
        assert(evs.drop_first() =~= Seq::<EventV>::empty());
        assert(spec_run(s, evs) == s1);
    } else {
        assert(s.comps[s.idx] is Name);
        assert(evs[0] matches EventV::LinkRead(OutcomeV::Failed(e)) && spec_tolerate(
            s.mode,
            e,
            s.idx == s.comps.len() - 1,
        ));
        let n0 = s.comps[s.idx]->Name_0;
        let s1 = spec_step(s, evs[0]);
        assert(s1 == spec_advance(ResolverV { buf: buf_push_seg(s.buf, n0), ..s }));
        let evs1 = evs.drop_first();
        assert forall|k: int| 0 <= k < evs1.len() - 1 implies (#[trigger] s1.comps[s1.idx + k])
            is Name by {
            assert(s1.comps[s1.idx + k] == s.comps[s.idx + (k + 1)]);
            assert(s.comps[s.idx + (k + 1)] is Name);
        }
        assert forall|k: int| 0 <= k < evs1.len() - 1 implies ((#[trigger] evs1[k])
            matches EventV::LinkRead(OutcomeV::Failed(e)) && spec_tolerate(
            s1.mode,
            e,
            s1.idx + k == s1.comps.len() - 1,
        )) by {
            assert(evs1[k] == evs[k + 1]);
            assert(evs[k + 1] matches EventV::LinkRead(OutcomeV::Failed(e)) && spec_tolerate(
                s.mode,
                e,
                s.idx + (k + 1) == s.comps.len() - 1,
            ));
        }
        assert(evs1[evs1.len() - 1] == evs[evs.len() - 1]);
        lemma_literal_walk(s1, evs1);
        assert(names_from(s.comps, s.idx) == seq![n0] + names_from(s.comps, s.idx + 1));
        assert(s1.buf.segs + names_from(s1.comps, s1.idx) =~= s.buf.segs + names_from(
            s.comps,
            s.idx,
        ));
        assert(BufV { absolute: s1.buf.absolute, segs: s1.buf.segs + names_from(s1.comps, s1.idx) }
            =~= BufV {
            absolute: s.buf.absolute,
            segs: s.buf.segs + names_from(s.comps, s.idx),
        });
        assert(spec_run(s, evs) == spec_run(s1, evs1));
    }
}

/// Under `Missing`, an absolute path whose every component is absent —
/// every link read fails, with any error but `Other` — resolves
/// successfully, reproducing the input names with nothing substituted.
pub proof fn lemma_missing_reproduces_absolute(input: Seq<u8>, evs: Seq<EventV>)
    requires
        spec_components(input).len() > 0,
        spec_components(input)[0] is Root,
        forall|k: int|
            1 <= k < spec_components(input).len() ==> (#[trigger] spec_components(input)[k])
                is Name,
        evs.len() == spec_components(input).len() + 1,
        evs[0] is Proceed,
        forall|k: int|
            1 <= k < evs.len() - 1 ==> ((#[trigger] evs[k]) matches EventV::LinkRead(
                OutcomeV::Failed(e),
            ) && !(e is Other)),
        evs[evs.len() - 1] is Proceed,
    ensures
        spec_run(spec_init(input, CanonicalizeOption::Missing), evs).done == Some(
            Ok::<Seq<u8>, FsErrorKind>(
                spec_strip(
                    spec_render(
                        BufV { absolute: true, segs: names_from(spec_components(input), 1) },
                    ),
                ),
            ),
        ),
{
    let comps = spec_components(input);
    let s0 = spec_init(input, CanonicalizeOption::Missing);
    let s1 = spec_step(s0, evs[0]);
    assert(s1 == spec_advance(
        ResolverV { buf: BufV { absolute: true, segs: Seq::empty() }, ..s0 },
    ));
    let evs1 = evs.drop_first();
    assert forall|k: int| 0 <= k < evs1.len() - 1 implies (#[trigger] s1.comps[s1.idx + k])
        is Name by {
        assert(s1.comps[s1.idx + k] == comps[k + 1]);
    }
    assert forall|k: int| 0 <= k < evs1.len() - 1 implies ((#[trigger] evs1[k])
        matches EventV::LinkRead(OutcomeV::Failed(e)) && spec_tolerate(
        s1.mode,
        e,
        s1.idx + k == s1.comps.len() - 1,
    )) by {
        assert(evs1[k] == evs[k + 1]);
        assert(evs[k + 1] matches EventV::LinkRead(OutcomeV::Failed(e)) && !(e is Other));
    }
    assert(evs1[evs1.len() - 1] == evs[evs.len() - 1]);
    lemma_literal_walk(s1, evs1);
    assert(s1.buf.segs + names_from(comps, 1) =~= names_from(comps, 1));
    assert(BufV { absolute: s1.buf.absolute, segs: s1.buf.segs + names_from(s1.comps, s1.idx) }
        =~= BufV { absolute: true, segs: names_from(comps, 1) });
    assert(spec_run(s0, evs) == spec_run(s1, evs1));
}

/// Under `Missing`, a relative path whose every component is absent
/// resolves successfully, re-anchored at the given working directory,
/// with the input names appended literally and nothing substituted.
pub proof fn lemma_missing_reproduces_relative(input: Seq<u8>, cwd: Seq<u8>, evs: Seq<EventV>)
    requires
        spec_components(input).len() > 0,
        forall|k: int|
            0 <= k < spec_components(input).len() ==> (#[trigger] spec_components(input)[k])
                is Name,
        evs.len() == spec_components(input).len() + 2,
        evs[0] == EventV::CwdIs(Some(cwd)),
        forall|k: int|
            1 <= k < evs.len() - 1 ==> ((#[trigger] evs[k]) matches EventV::LinkRead(
                OutcomeV::Failed(e),
            ) && !(e is Other)),
        evs[evs.len() - 1] is Proceed,
    ensures
        spec_run(spec_init(input, CanonicalizeOption::Missing), evs).done == Some(
            Ok::<Seq<u8>, FsErrorKind>(
                spec_strip(
                    spec_render(
                        BufV {
                            absolute: buf_of_path(cwd).absolute,
                            segs: buf_of_path(cwd).segs + names_from(spec_components(input), 0),
                        },
                    ),
                ),
            ),
        ),
{
    let comps = spec_components(input);
    let s0 = spec_init(input, CanonicalizeOption::Missing);
    assert(comps[0] is Name);
    let s1 = spec_step(s0, evs[0]);
    assert(s1 == (ResolverV { buf: buf_of_path(cwd), first: false, ..s0 }));
    let evs1 = evs.drop_first();
    assert forall|k: int| 0 <= k < evs1.len() - 1 implies (#[trigger] s1.comps[s1.idx + k])
        is Name by {
        assert(s1.comps[s1.idx + k] == comps[k]);
    }
    assert forall|k: int| 0 <= k < evs1.len() - 1 implies ((#[trigger] evs1[k])
        matches EventV::LinkRead(OutcomeV::Failed(e)) && spec_tolerate(
        s1.mode,
        e,
        s1.idx + k == s1.comps.len() - 1,
    )) by {
        assert(evs1[k] == evs[k + 1]);
        assert(evs[k + 1] matches EventV::LinkRead(OutcomeV::Failed(e)) && !(e is Other));
    }
    assert(evs1[evs1.len() - 1] == evs[evs.len() - 1]);
    lemma_literal_walk(s1, evs1);
    assert(spec_run(s0, evs) == spec_run(s1, evs1));
}

/// A canonical absolute path — the rendering of a root followed by at
/// least one plain well-formed name — resolves to exactly itself under
/// any walking mode, when every link read fails with an error the mode
/// tolerates at that position: nothing is substituted and nothing is
/// dropped.
pub proof fn lemma_canonical_literal_result(
    names: Seq<Seq<u8>>,
    mode: CanonicalizeOption,
    evs: Seq<EventV>,
)
    requires
        !(mode is NoCanonicalize),
        names.len() > 0,
        forall|k: int| 0 <= k < names.len() ==> crate::path::wf_name(#[trigger] names[k]),
        evs.len() == names.len() + 2,
        evs[0] is Proceed,
        forall|k: int|
            1 <= k < evs.len() - 1 ==> ((#[trigger] evs[k]) matches EventV::LinkRead(
                OutcomeV::Failed(e),
            ) && spec_tolerate(mode, e, k + 1 == evs.len() - 1)),
        evs[evs.len() - 1] is Proceed,
    ensures
        spec_run(
            spec_init(spec_render(BufV { absolute: true, segs: names }), mode),
            evs,
        ).done == Some(
            Ok::<Seq<u8>, FsErrorKind>(spec_render(BufV { absolute: true, segs: names })),
        ),
{
    let b = BufV { absolute: true, segs: names };
    let input = spec_render(b);
    crate::path::lemma_render_parse_roundtrip(names);
    let comps = spec_components(input);
    let mapped = Seq::new(names.len(), |i: int| CompV::Name(names[i]));
    assert(comps == seq![CompV::Root] + mapped);
    assert(comps.len() == names.len() + 1);
    assert(comps[0] == (seq![CompV::Root] + mapped)[0]);
    assert forall|k: int| 1 <= k < comps.len() implies #[trigger] comps[k] == CompV::Name(
        names[k - 1],
    ) by {
        assert(comps[k] == mapped[k - 1]);
    }
    let s0 = spec_init(input, mode);
    let s1 = spec_step(s0, evs[0]);
    assert(s1 == spec_advance(
        ResolverV { buf: BufV { absolute: true, segs: Seq::empty() }, ..s0 },
    ));
    let evs1 = evs.drop_first();
    assert forall|k: int| 0 <= k < evs1.len() - 1 implies (#[trigger] s1.comps[s1.idx + k])
        is Name by {
        assert(s1.comps[s1.idx + k] == comps[k + 1]);
        assert(comps[k + 1] == CompV::Name(names[k]));
    }
    assert forall|k: int| 0 <= k < evs1.len() - 1 implies ((#[trigger] evs1[k])
        matches EventV::LinkRead(OutcomeV::Failed(e)) && spec_tolerate(
        s1.mode,
        e,
        s1.idx + k == s1.comps.len() - 1,
    )) by {
        assert(evs1[k] == evs[k + 1]);
        assert((evs[k + 1]) matches EventV::LinkRead(OutcomeV::Failed(e)) && spec_tolerate(
            mode,
            e,
            (k + 1) + 1 == evs.len() - 1,
        ));
    }
    assert(evs1[evs1.len() - 1] == evs[evs.len() - 1]);
    lemma_literal_walk(s1, evs1);
    lemma_names_from_mapped(names, comps, 1);
    assert(names.subrange(0, names.len() as int) =~= names);
    assert(s1.buf.segs + names_from(s1.comps, s1.idx) =~= names);
    assert(BufV { absolute: s1.buf.absolute, segs: s1.buf.segs + names_from(s1.comps, s1.idx) }
        =~= b);
    assert(buf_wf(b)) by {
        assert forall|k: int| 0 <= k < b.segs.len() implies crate::path::raw_name(b.segs[k]) by {
            assert(crate::path::wf_name(names[k]));
        }
    }
    crate::path::lemma_render_no_trailing(b);
    assert(spec_strip(spec_render(b)) == spec_render(b));
    assert(spec_run(s0, evs) == spec_run(s1, evs1));
}

/// Idempotence: a canonical absolute path with no symlinks — every link
/// read answers `NotASymlink` — resolves to exactly itself under any
/// walking mode.
pub proof fn lemma_idempotent(names: Seq<Seq<u8>>, mode: CanonicalizeOption, evs: Seq<EventV>)
    requires
        !(mode is NoCanonicalize),
        names.len() > 0,
        forall|k: int| 0 <= k < names.len() ==> crate::path::wf_name(#[trigger] names[k]),
        evs.len() == names.len() + 2,
        evs[0] is Proceed,
        forall|k: int|
            1 <= k < evs.len() - 1 ==> #[trigger] evs[k] == EventV::LinkRead(
                OutcomeV::Failed(FsErrorKind::NotASymlink),
            ),
        evs[evs.len() - 1] is Proceed,
    ensures
        spec_run(
            spec_init(spec_render(BufV { absolute: true, segs: names }), mode),
            evs,
        ).done == Some(
            Ok::<Seq<u8>, FsErrorKind>(spec_render(BufV { absolute: true, segs: names })),
        ),
{
    assert forall|k: int| 1 <= k < evs.len() - 1 implies ((#[trigger] evs[k])
        matches EventV::LinkRead(OutcomeV::Failed(e)) && spec_tolerate(
        mode,
        e,
        k + 1 == evs.len() - 1,
    )) by {
        assert(evs[k] == EventV::LinkRead(OutcomeV::Failed(FsErrorKind::NotASymlink)));
    }
    lemma_canonical_literal_result(names, mode, evs);
}

/// Under `Missing`, a canonical absolute path whose every component is
/// absent — every link read fails, with any error but `Other` — resolves
/// to exactly itself: the input is reproduced, nothing substituted.
pub proof fn lemma_missing_reproduces_canonical(names: Seq<Seq<u8>>, evs: Seq<EventV>)
    requires
        names.len() > 0,
        forall|k: int| 0 <= k < names.len() ==> crate::path::wf_name(#[trigger] names[k]),
        evs.len() == names.len() + 2,
        evs[0] is Proceed,
        forall|k: int|
            1 <= k < evs.len() - 1 ==> ((#[trigger] evs[k]) matches EventV::LinkRead(
                OutcomeV::Failed(e),
            ) && !(e is Other)),
        evs[evs.len() - 1] is Proceed,
    ensures
        spec_run(
            spec_init(
                spec_render(BufV { absolute: true, segs: names }),
                CanonicalizeOption::Missing,
            ),
            evs,
        ).done == Some(
            Ok::<Seq<u8>, FsErrorKind>(spec_render(BufV { absolute: true, segs: names })),
        ),
{
    assert forall|k: int| 1 <= k < evs.len() - 1 implies ((#[trigger] evs[k])
        matches EventV::LinkRead(OutcomeV::Failed(e)) && spec_tolerate(
        CanonicalizeOption::Missing,
        e,
        k + 1 == evs.len() - 1,
    )) by {
        assert((evs[k]) matches EventV::LinkRead(OutcomeV::Failed(e)) && !(e is Other));
    }
    lemma_canonical_literal_result(names, CanonicalizeOption::Missing, evs);
}

/// Over components that are one `Name` per name, `names_from` collects
/// back exactly those names.
proof fn lemma_names_from_mapped(names: Seq<Seq<u8>>, comps: Seq<CompV>, i: int)
    requires
        1 <= i <= comps.len(),
        comps.len() == names.len() + 1,
        forall|k: int| 1 <= k < comps.len() ==> #[trigger] comps[k] == CompV::Name(names[k - 1]),
    ensures
        names_from(comps, i) == names.subrange(i - 1, names.len() as int),
    decreases comps.len() - i,
{
    if i == comps.len() {
        assert(names.subrange(i - 1, names.len() as int) =~= Seq::<Seq<u8>>::empty());
    } else {
        assert(comps[i] == CompV::Name(names[i - 1]));
        lemma_names_from_mapped(names, comps, i + 1);
        assert(names_from(comps, i) == seq![names[i - 1]] + names.subrange(
            i,
            names.len() as int,
        ));
        assert(seq![names[i - 1]] + names.subrange(i, names.len() as int) =~= names.subrange(
            i - 1,
            names.len() as int,
        ));
    }
}

/// The final step of a walk strips one trailing separator, so a finished
/// result never ends in one: canonicalizing a path written with a
/// trailing separator yields the same bytes as without it.
pub proof fn lemma_done_no_trailing_sep(s: ResolverV, ev: EventV)
    requires
        inv(s),
        s.done is None,
        !(s.mode is NoCanonicalize),
        s.idx >= s.comps.len(),
    ensures
        spec_step(s, ev).done == Some(Ok::<Seq<u8>, FsErrorKind>(spec_strip(spec_render(s.buf)))),
        ({
            let r = spec_strip(spec_render(s.buf));
            r.len() > 0 ==> r[r.len() - 1] != SLASH
        }),
{
    lemma_result_no_trailing_sep(s.buf);
}

/// At the root there is nothing to remove: a parent reference beyond the
/// filesystem root is a no-op, and the walk simply moves on.
pub proof fn lemma_parent_at_root_is_noop(s: ResolverV)
    requires
        s.done is None,
        !(s.mode is NoCanonicalize),
        0 <= s.idx < s.comps.len(),
        s.comps[s.idx] is Parent,
        s.buf.absolute,
        s.buf.segs.len() == 0,
    ensures
        spec_step(s, EventV::Proceed) == spec_advance(s),
        spec_step(s, EventV::Proceed).buf == s.buf,
{
    assert(spec_step(s, EventV::Proceed) =~= spec_advance(s));
}

} // verus!
