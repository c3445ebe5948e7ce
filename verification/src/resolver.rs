//! The canonicalization state machine.
//!
//! A `Resolver` walks the components of one path under a
//! `CanonicalizeOption`.  It owns every decision — which filesystem
//! question to ask next, how the result buffer evolves, which errors are
//! tolerated — but performs no filesystem access itself: the caller asks
//! `request` what is needed (a working-directory query, a single-level
//! link read at an exact path, or nothing), performs it, and hands the
//! outcome to `step`.  When `request` returns `Done` the resolution is
//! finished.

use vstd::prelude::*;

use crate::path::{
    buf_empty, buf_of_path, buf_pop, buf_push_comps, buf_push_seg, buf_wf, clone_bytes,
    lemma_buf_push_seg_wf, lemma_components_wf, lemma_push_comps_wf, parse_path, spec_components,
    spec_render, spec_strip, views_of, wf_comp, BufV, CompV, PathComponent, ResolvedPath,
};
use crate::settings::CanonicalizeOption;

verus! {

/// The classes of filesystem error the walk distinguishes.
#[derive(Debug, Clone, Copy, PartialEq, Eq, Structural)]
pub enum FsErrorKind {
    /// A component does not exist.
    NotFound,
    /// A non-directory stood where a directory was needed.
    NotADirectory,
    /// The path exists but is not a symbolic link.
    NotASymlink,
    /// Any other error, including a failed working-directory query.
    Other,
}

/// The outcome of a single-level link read.
pub enum ReadLinkOutcome {
    /// The path is a symbolic link with this target.
    Target(Vec<u8>),
    /// The read failed, with this class of error.
    Failed(FsErrorKind),
}

/// The abstract form of a link-read outcome.
pub ghost enum OutcomeV {
    Target(Seq<u8>),
    Failed(FsErrorKind),
}

impl View for ReadLinkOutcome {
    type V = OutcomeV;

    open spec fn view(&self) -> OutcomeV {
        match self {
            ReadLinkOutcome::Target(t) => OutcomeV::Target(t@),
            ReadLinkOutcome::Failed(e) => OutcomeV::Failed(*e),
        }
    }
}

/// What the machine asks its caller to do next.
pub enum Request {
    /// Nothing outside is needed; call `step` with `Proceed`.
    Continue,
    /// The working directory is needed; call `step` with `CwdIs`.
    NeedCwd,
    /// A single-level link read at exactly these bytes is needed;
    /// call `step` with `LinkRead`.
    NeedReadLink(Vec<u8>),
    /// The resolution is finished with this result.
    Done(Result<Vec<u8>, FsErrorKind>),
}

/// The abstract form of a request.
pub ghost enum RequestV {
    Continue,
    NeedCwd,
    NeedReadLink(Seq<u8>),
    Done(Result<Seq<u8>, FsErrorKind>),
}

impl View for Request {
    type V = RequestV;

    open spec fn view(&self) -> RequestV {
        match self {
            Request::Continue => RequestV::Continue,
            Request::NeedCwd => RequestV::NeedCwd,
            Request::NeedReadLink(p) => RequestV::NeedReadLink(p@),
            Request::Done(r) => RequestV::Done(
                match r {
                    Ok(v) => Ok(v@),
                    Err(e) => Err(*e),
                },
            ),
        }
    }
}

/// What the caller hands back to `step`.
pub enum Event {
    /// Answer to `Continue`: nothing.
    Proceed,
    /// Answer to `NeedCwd`: the working directory, or `None` when the
    /// query failed.
    CwdIs(Option<Vec<u8>>),
    /// Answer to `NeedReadLink`: the outcome of the link read.
    LinkRead(ReadLinkOutcome),
}

/// The abstract form of an event.
pub ghost enum EventV {
    Proceed,
    CwdIs(Option<Seq<u8>>),
    LinkRead(OutcomeV),
}

impl View for Event {
    type V = EventV;

    open spec fn view(&self) -> EventV {
        match self {
            Event::Proceed => EventV::Proceed,
            Event::CwdIs(o) => EventV::CwdIs(
                match o {
                    Option::Some(c) => Option::Some(c@),
                    Option::None => Option::None,
                },
            ),
            Event::LinkRead(o) => EventV::LinkRead(o@),
        }
    }
}

/// The abstract state of a resolution.
#[verifier::ext_equal]
pub ghost struct ResolverV {
    /// The tolerance policy of this walk.
    pub mode: CanonicalizeOption,
    /// The input path, byte for byte.
    pub raw: Seq<u8>,
    /// The decomposed input.
    pub comps: Seq<CompV>,
    /// The next component to process.
    pub idx: int,
    /// The result buffer built so far.
    pub buf: BufV,
    /// Whether the first component is still unprocessed.
    pub first: bool,
    /// The finished result, once there is one.
    pub done: Option<Result<Seq<u8>, FsErrorKind>>,
}

/// The machine that resolves one path.
pub struct Resolver {
    pub mode: CanonicalizeOption,
    pub raw: Vec<u8>,
    pub comps: Vec<PathComponent>,
    pub idx: usize,
    pub buf: ResolvedPath,
    pub first: bool,
    pub done: Option<Result<Vec<u8>, FsErrorKind>>,
}

impl View for Resolver {
    type V = ResolverV;

    open spec fn view(&self) -> ResolverV {
        ResolverV {
            mode: self.mode,
            raw: self.raw@,
            comps: views_of(self.comps@),
            idx: self.idx as int,
            buf: self.buf@,
            first: self.first,
            done: match self.done {
                Option::Some(Ok(v)) => Option::Some(Ok(v@)),
                Option::Some(Err(e)) => Option::Some(Err(e)),
                Option::None => Option::None,
            },
        }
    }
}

/// The decision table of the walk: whether error `e` at a component is
/// absorbed (the segment is appended literally) or fatal, given the mode
/// and whether the component is the last one.  `NotASymlink` is always
/// absorbed, `Other` never; `NotFound` is absorbed under `Missing`, and
/// under `AllButLast` at the last component only; `NotADirectory` is
/// absorbed under `Missing` only.
pub open spec fn spec_tolerate(mode: CanonicalizeOption, e: FsErrorKind, last: bool) -> bool {
    match e {
        FsErrorKind::NotASymlink => true,
        FsErrorKind::NotFound => mode is Missing || (mode is AllButLast && last),
        FsErrorKind::NotADirectory => mode is Missing,
        FsErrorKind::Other => false,
    }
}

/// The decision table, executably.
pub fn tolerate(mode: &CanonicalizeOption, e: FsErrorKind, last: bool) -> (r: bool)
    ensures
        r == spec_tolerate(*mode, e, last),
{
    match e {
        FsErrorKind::NotASymlink => true,
        FsErrorKind::NotFound => mode.is_missing() || (mode.is_all_but_last() && last),
        FsErrorKind::NotADirectory => mode.is_missing(),
        FsErrorKind::Other => false,
    }
}

/// The state a resolution starts in.
pub open spec fn spec_init(input: Seq<u8>, mode: CanonicalizeOption) -> ResolverV {
    ResolverV {
        mode,
        raw: input,
        comps: spec_components(input),
        idx: 0,
        buf: buf_empty(),
        first: true,
        done: Option::None,
    }
}

/// What the machine needs next, as a function of its state.
pub open spec fn spec_request(s: ResolverV) -> RequestV {
    match s.done {
        Option::Some(r) => RequestV::Done(r),
        Option::None => {
            if s.mode is NoCanonicalize {
                RequestV::NeedReadLink(s.raw)
            } else if s.idx >= s.comps.len() {
                RequestV::Continue
            } else {
                match s.comps[s.idx] {
                    CompV::Root => RequestV::Continue,
                    CompV::Cur => if s.first {
                        RequestV::NeedCwd
                    } else {
                        RequestV::Continue
                    },
                    CompV::Parent => if !s.buf.absolute && s.buf.segs.len() == 0 {
                        RequestV::NeedCwd
                    } else {
                        RequestV::Continue
                    },
                    CompV::Name(n) => if s.first {
                        RequestV::NeedCwd
                    } else {
                        RequestV::NeedReadLink(spec_render(buf_push_seg(s.buf, n)))
                    },
                }
            }
        },
    }
}

/// Whether an event answers what the state asks for.
pub open spec fn event_fits(s: ResolverV, ev: EventV) -> bool {
    match spec_request(s) {
        RequestV::Continue => ev is Proceed,
        RequestV::NeedCwd => ev is CwdIs,
        RequestV::NeedReadLink(_) => ev is LinkRead,
        RequestV::Done(_) => false,
    }
}

/// The state with the current component consumed.
pub open spec fn spec_advance(s: ResolverV) -> ResolverV {
    ResolverV { idx: s.idx + 1, first: false, ..s }
}

/// The state aborted with error `e`.
pub open spec fn spec_fail(s: ResolverV, e: FsErrorKind) -> ResolverV {
    ResolverV { done: Option::Some(Err(e)), ..s }
}

/// One transition of the machine: the state after feeding `ev` to a
/// state that asked for it.
pub open spec fn spec_step(s: ResolverV, ev: EventV) -> ResolverV {
    if s.mode is NoCanonicalize {
        match ev {
            EventV::LinkRead(OutcomeV::Target(t)) => ResolverV {
                done: Option::Some(Ok(t)),
                ..s
            },
            EventV::LinkRead(OutcomeV::Failed(e)) => spec_fail(s, e),
            _ => s,
        }
    } else if s.idx >= s.comps.len() {
        ResolverV { done: Option::Some(Ok(spec_strip(spec_render(s.buf)))), ..s }
    } else {
        match s.comps[s.idx] {
            CompV::Root => spec_advance(
                ResolverV { buf: BufV { absolute: true, segs: Seq::empty() }, ..s },
            ),
            CompV::Cur => {
                if s.first {
                    match ev {
                        EventV::CwdIs(Option::Some(c)) => spec_advance(
                            ResolverV { buf: buf_of_path(c), ..s },
                        ),
                        _ => spec_fail(s, FsErrorKind::Other),
                    }
                } else {
                    spec_advance(s)
                }
            },
            CompV::Parent => {
                if !s.buf.absolute && s.buf.segs.len() == 0 {
                    match ev {
                        EventV::CwdIs(Option::Some(c)) => spec_advance(
                            ResolverV { buf: buf_pop(buf_of_path(c)), ..s },
                        ),
                        _ => spec_fail(s, FsErrorKind::Other),
                    }
                } else {
                    spec_advance(ResolverV { buf: buf_pop(s.buf), ..s })
                }
            },
            CompV::Name(n) => {
                if s.first {
                    match ev {
                        EventV::CwdIs(Option::Some(c)) => ResolverV {
                            buf: buf_of_path(c),
                            first: false,
                            ..s
                        },
                        _ => spec_fail(s, FsErrorKind::Other),
                    }
                } else {
                    match ev {
                        EventV::LinkRead(OutcomeV::Target(t)) => spec_advance(
                            ResolverV { buf: buf_push_comps(s.buf, spec_components(t)), ..s },
                        ),
                        EventV::LinkRead(OutcomeV::Failed(e)) => {
                            if spec_tolerate(s.mode, e, s.idx == s.comps.len() - 1) {
                                spec_advance(ResolverV { buf: buf_push_seg(s.buf, n), ..s })
                            } else {
                                spec_fail(s, e)
                            }
                        },
                        _ => s,
                    }
                }
            },
        }
    }
}

/// The machine's invariant: the index is in range, the buffer and every
/// component are well-formed.
pub open spec fn inv(s: ResolverV) -> bool {
    &&& 0 <= s.idx <= s.comps.len()
    &&& buf_wf(s.buf)
    &&& forall|k: int| 0 <= k < s.comps.len() ==> wf_comp(#[trigger] s.comps[k])
}

/// Transitions preserve the invariant.
pub proof fn lemma_step_inv(s: ResolverV, ev: EventV)
    requires
        inv(s),
        event_fits(s, ev),
    ensures
        inv(spec_step(s, ev)),
{
    let s2 = spec_step(s, ev);
    if s.mode is NoCanonicalize {
    } else if s.idx >= s.comps.len() {
    } else {
        match s.comps[s.idx] {
            CompV::Root => {},
            CompV::Cur => {
                if s.first {
                    match ev {
                        EventV::CwdIs(Option::Some(c)) => {
                            lemma_components_wf(c);
                            lemma_push_comps_wf(buf_empty(), spec_components(c));
                        },
                        _ => {},
                    }
                }
            },
            CompV::Parent => {
                if !s.buf.absolute && s.buf.segs.len() == 0 {
                    match ev {
                        EventV::CwdIs(Option::Some(c)) => {
                            lemma_components_wf(c);
                            lemma_push_comps_wf(buf_empty(), spec_components(c));
                            lemma_buf_pop_wf(buf_of_path(c));
                        },
                        _ => {},
                    }
                } else {
                    lemma_buf_pop_wf(s.buf);
                }
            },
            CompV::Name(n) => {
                if s.first {
                    match ev {
                        EventV::CwdIs(Option::Some(c)) => {
                            lemma_components_wf(c);
                            lemma_push_comps_wf(buf_empty(), spec_components(c));
                        },
                        _ => {},
                    }
                } else {
                    match ev {
                        EventV::LinkRead(OutcomeV::Target(t)) => {
                            lemma_components_wf(t);
                            lemma_push_comps_wf(s.buf, spec_components(t));
                        },
                        EventV::LinkRead(OutcomeV::Failed(e)) => {
                            if spec_tolerate(s.mode, e, s.idx == s.comps.len() - 1) {
                                assert(wf_comp(s.comps[s.idx]));
                                lemma_buf_push_seg_wf(s.buf, n);
                            }
                        },
                        _ => {},
                    }
                }
            },
        }
    }
}

/// Removing the last segment keeps a buffer well-formed.
pub proof fn lemma_buf_pop_wf(b: BufV)
    requires
        buf_wf(b),
    ensures
        buf_wf(buf_pop(b)),
{
    let p = buf_pop(b);
    assert forall|k: int| 0 <= k < p.segs.len() implies crate::path::raw_name(p.segs[k]) by {
        assert(p.segs[k] == b.segs[k]);
    }
}

impl Resolver {
    /// Starts the resolution of `input` under `mode`.
    pub fn new(input: Vec<u8>, mode: CanonicalizeOption) -> (r: Resolver)
        ensures
            r@ == spec_init(input@, mode),
            inv(r@),
    {
        let comps = parse_path(&input);
        let r = Resolver {
            mode,
            raw: input,
            comps,
            idx: 0,
            buf: ResolvedPath::new(),
            first: true,
            done: Option::None,
        };
        proof {
            assert(r@ =~= spec_init(r.raw@, mode));
            lemma_components_wf(r.raw@);
        }
        r
    }

    /// What the caller should do next.
    pub fn request(&self) -> (r: Request)
        requires
            inv(self@),
        ensures
            r@ == spec_request(self@),
    {
        match &self.done {
            Option::Some(res) => {
                match res {
                    Ok(v) => Request::Done(Ok(clone_bytes(v))),
                    Err(e) => Request::Done(Err(*e)),
                }
            },
            Option::None => {
                if self.mode.is_none() {
                    Request::NeedReadLink(clone_bytes(&self.raw))
                } else if self.idx >= self.comps.len() {
                    Request::Continue
                } else {
                    proof {
                        assert(views_of(self.comps@)[self.idx as int] == self.comps@[self.idx
                            as int]@);
                    }
                    match &self.comps[self.idx] {
                        PathComponent::RootDir => Request::Continue,
                        PathComponent::CurDir => {
                            if self.first {
                                Request::NeedCwd
                            } else {
                                Request::Continue
                            }
                        },
                        PathComponent::ParentDir => {
                            if self.buf.has_no_base() {
                                Request::NeedCwd
                            } else {
                                Request::Continue
                            }
                        },
                        PathComponent::Normal(n) => {
                            if self.first {
                                Request::NeedCwd
                            } else {
                                Request::NeedReadLink(self.buf.render_with(n))
                            }
                        },
                    }
                }
            },
        }
    }

    /// Feeds the machine what it asked for and takes one transition.
    pub fn step(&mut self, ev: Event)
        requires
            inv(old(self)@),
            event_fits(old(self)@, ev@),
        ensures
            final(self)@ == spec_step(old(self)@, ev@),
            inv(final(self)@),
    {
        proof {
            lemma_step_inv(old(self)@, ev@);
        }
        if self.mode.is_none() {
            match ev {
                Event::LinkRead(ReadLinkOutcome::Target(t)) => {
                    self.done = Option::Some(Ok(t));
                },
                Event::LinkRead(ReadLinkOutcome::Failed(e)) => {
                    self.done = Option::Some(Err(e));
                },
                _ => {
                    proof {
                        assert(false);
                    }
                },
            }
            proof {
                assert(self@ =~= spec_step(old(self)@, ev@));
            }
            return ;
        }
        if self.idx >= self.comps.len() {
            let out = self.buf.render_stripped();
            self.done = Option::Some(Ok(out));
            proof {
                assert(self@ =~= spec_step(old(self)@, ev@));
            }
            return ;
        }
        proof {
            assert(views_of(self.comps@)[self.idx as int] == self.comps@[self.idx as int]@);
        }
        match &self.comps[self.idx] {
            PathComponent::RootDir => {
                self.buf.set_root();
                self.idx = self.idx + 1;
                self.first = false;
                proof {
                    assert(self@ =~= spec_step(old(self)@, ev@));
                }
            },
            PathComponent::CurDir => {
                if self.first {
                    match ev {
                        Event::CwdIs(Option::Some(c)) => {
                            let cc = parse_path(&c);
                            let mut nb = ResolvedPath::new();
                            nb.push_components(&cc);
                            self.buf = nb;
                            self.idx = self.idx + 1;
                            self.first = false;
                            proof {
                                assert(self@ =~= spec_step(old(self)@, ev@));
                            }
                        },
                        Event::CwdIs(Option::None) => {
                            self.done = Option::Some(Err(FsErrorKind::Other));
                            proof {
                                assert(self@ =~= spec_step(old(self)@, ev@));
                            }
                        },
                        _ => {
                            proof {
                                assert(false);
                            }
                        },
                    }
                } else {
                    self.idx = self.idx + 1;
                    self.first = false;
                    proof {
                        assert(self@ =~= spec_step(old(self)@, ev@));
                    }
                }
            },
            PathComponent::ParentDir => {
                if self.buf.has_no_base() {
                    match ev {
                        Event::CwdIs(Option::Some(c)) => {
                            let cc = parse_path(&c);
                            let mut nb = ResolvedPath::new();
                            nb.push_components(&cc);
                            nb.pop();
                            self.buf = nb;
                            self.idx = self.idx + 1;
                            self.first = false;
                            proof {
                                assert(self@ =~= spec_step(old(self)@, ev@));
                            }
                        },
                        Event::CwdIs(Option::None) => {
                            self.done = Option::Some(Err(FsErrorKind::Other));
                            proof {
                                assert(self@ =~= spec_step(old(self)@, ev@));
                            }
                        },
                        _ => {
                            proof {
                                assert(false);
                            }
                        },
                    }
                } else {
                    self.buf.pop();
                    self.idx = self.idx + 1;
                    self.first = false;
                    proof {
                        assert(self@ =~= spec_step(old(self)@, ev@));
                    }
                }
            },
            PathComponent::Normal(n) => {
                if self.first {
                    match ev {
                        Event::CwdIs(Option::Some(c)) => {
                            let cc = parse_path(&c);
                            let mut nb = ResolvedPath::new();
                            nb.push_components(&cc);
                            self.buf = nb;
                            self.first = false;
                            proof {
                                assert(self@ =~= spec_step(old(self)@, ev@));
                            }
                        },
                        Event::CwdIs(Option::None) => {
                            self.done = Option::Some(Err(FsErrorKind::Other));
                            proof {
                                assert(self@ =~= spec_step(old(self)@, ev@));
                            }
                        },
                        _ => {
                            proof {
                                assert(false);
                            }
                        },
                    }
                } else {
                    match ev {
                        Event::LinkRead(ReadLinkOutcome::Target(t)) => {
                            let tc = parse_path(&t);
                            self.buf.push_components(&tc);
                            self.idx = self.idx + 1;
                            self.first = false;
                            proof {
                                assert(self@ =~= spec_step(old(self)@, ev@));
                            }
                        },
                        Event::LinkRead(ReadLinkOutcome::Failed(e)) => {
                            let last = self.idx + 1 == self.comps.len();
                            if tolerate(&self.mode, e, last) {
                                let name = clone_bytes(n);
                                self.buf.push_seg(name);
                                self.idx = self.idx + 1;
                                self.first = false;
                                proof {
                                    assert(self@ =~= spec_step(old(self)@, ev@));
                                }
                            } else {
                                self.done = Option::Some(Err(e));
                                proof {
                                    assert(self@ =~= spec_step(old(self)@, ev@));
                                }
                            }
                        },
                        _ => {
                            proof {
                                assert(false);
                            }
                        },
                    }
                }
            },
        }
    }
}

} // verus!
