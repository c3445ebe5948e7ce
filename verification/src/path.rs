//! Byte-level paths and their decomposition into components.
//!
//! A path is a sequence of bytes, Unix style: `47` (`/`) separates names,
//! a leading separator marks an absolute path.  Decomposition follows the
//! usual component-splitting semantics: repeated separators collapse, a
//! `.` name is dropped except when it is the leading name of a relative
//! path, and `..` becomes a parent-directory marker.

use vstd::prelude::*;

verus! {

/// The path separator byte, `/`.
pub const SLASH: u8 = 47;

/// The byte `.`, out of which the current- and parent-directory names are built.
pub const DOT: u8 = 46;

/// The name `.`.
pub open spec fn dot_name() -> Seq<u8> {
    seq![DOT]
}

/// The name `..`.
pub open spec fn dot_dot_name() -> Seq<u8> {
    seq![DOT, DOT]
}

/// The abstract form of one path component.
pub ghost enum CompV {
    /// The root marker of an absolute path.
    Root,
    /// A reference to the current directory (`.`), meaningful only as the
    /// first component of a relative path.
    Cur,
    /// A reference to the parent directory (`..`).
    Parent,
    /// A named segment.
    Name(Seq<u8>),
}

/// One component of a decomposed path.
pub enum PathComponent {
    RootDir,
    CurDir,
    ParentDir,
    Normal(Vec<u8>),
}

impl View for PathComponent {
    type V = CompV;

    open spec fn view(&self) -> CompV {
        match self {
            PathComponent::RootDir => CompV::Root,
            PathComponent::CurDir => CompV::Cur,
            PathComponent::ParentDir => CompV::Parent,
            PathComponent::Normal(n) => CompV::Name(n@),
        }
    }
}

/// The abstract forms of a sequence of components.
pub open spec fn views_of(cs: Seq<PathComponent>) -> Seq<CompV> {
    Seq::new(cs.len(), |i: int| cs[i]@)
}

/// A path is absolute when it begins with a separator.
pub open spec fn spec_is_abs(s: Seq<u8>) -> bool {
    s.len() > 0 && s[0] == SLASH
}

/// The names of `s` from position `i` on: the maximal nonempty runs of
/// non-separator bytes, read left to right, with `cur` the partial name
/// accumulated so far.
pub open spec fn split_loop(s: Seq<u8>, i: int, cur: Seq<u8>) -> Seq<Seq<u8>>
    decreases s.len() - i,
{
    if i < 0 || i >= s.len() {
        if cur.len() == 0 {
            Seq::empty()
        } else {
            seq![cur]
        }
    } else if s[i] == SLASH {
        if cur.len() == 0 {
            split_loop(s, i + 1, Seq::empty())
        } else {
            seq![cur] + split_loop(s, i + 1, Seq::empty())
        }
    } else {
        split_loop(s, i + 1, cur.push(s[i]))
    }
}

/// The names of a whole path.
pub open spec fn path_names(s: Seq<u8>) -> Seq<Seq<u8>> {
    split_loop(s, 0, Seq::empty())
}

/// Turns a sequence of names into components: `..` becomes `Parent`,
/// `.` is dropped, except that a leading `.` (of a relative path, signalled
/// by `keep_cur`) becomes `Cur`; every other name is a `Name`.
pub open spec fn classify(names: Seq<Seq<u8>>, keep_cur: bool) -> Seq<CompV>
    decreases names.len(),
{
    if names.len() == 0 {
        Seq::empty()
    } else {
        let n = names[0];
        let rest = classify(names.drop_first(), false);
        if n == dot_dot_name() {
            seq![CompV::Parent] + rest
        } else if n == dot_name() {
            if keep_cur {
                seq![CompV::Cur] + rest
            } else {
                rest
            }
        } else {
            seq![CompV::Name(n)] + rest
        }
    }
}

/// The component sequence of a path: a root marker when the path is
/// absolute, then its classified names.
pub open spec fn spec_components(s: Seq<u8>) -> Seq<CompV> {
    if spec_is_abs(s) {
        seq![CompV::Root] + classify(path_names(s), false)
    } else {
        classify(path_names(s), true)
    }
}

/// A well-formed name: nonempty, separator-free, and not one of the two
/// special directory references.
pub open spec fn wf_name(n: Seq<u8>) -> bool {
    &&& n.len() > 0
    &&& forall|j: int| 0 <= j < n.len() ==> n[j] != SLASH
    &&& n != dot_name()
    &&& n != dot_dot_name()
}

/// A well-formed component: a `Name` carries a well-formed name.
pub open spec fn wf_comp(c: CompV) -> bool {
    match c {
        CompV::Name(n) => wf_name(n),
        _ => true,
    }
}

/// A raw name as splitting produces it: nonempty and separator-free.
pub open spec fn raw_name(n: Seq<u8>) -> bool {
    n.len() > 0 && forall|j: int| 0 <= j < n.len() ==> n[j] != SLASH
}

/// Every name produced by splitting is nonempty and separator-free.
proof fn lemma_split_wf(s: Seq<u8>, i: int, cur: Seq<u8>)
    requires
        forall|j: int| 0 <= j < cur.len() ==> cur[j] != SLASH,
    ensures
        forall|k: int|
            0 <= k < split_loop(s, i, cur).len() ==> raw_name(#[trigger] split_loop(s, i, cur)[k]),
    decreases s.len() - i,
{
    let names = split_loop(s, i, cur);
    if i < 0 || i >= s.len() {
        if cur.len() > 0 {
            assert forall|k: int| 0 <= k < names.len() implies raw_name(names[k]) by {
                assert(names[k] == cur);
            }
        }
    } else if s[i] == SLASH {
        lemma_split_wf(s, i + 1, Seq::empty());
        let rest = split_loop(s, i + 1, Seq::empty());
        if cur.len() > 0 {
            assert(names == seq![cur] + rest);
            assert forall|k: int| 0 <= k < names.len() implies raw_name(names[k]) by {
                if k == 0 {
                    assert(names[k] == cur);
                } else {
                    assert(names[k] == rest[k - 1]);
                    assert(raw_name(rest[k - 1]));
                }
            }
        } else {
            assert(names == rest);
            assert forall|k: int| 0 <= k < names.len() implies raw_name(names[k]) by {
                assert(raw_name(rest[k]));
            }
        }
    } else {
        assert forall|j: int| 0 <= j < cur.push(s[i]).len() implies cur.push(s[i])[j] != SLASH by {
            if j < cur.len() {
                assert(cur.push(s[i])[j] == cur[j]);
            } else {
                assert(cur.push(s[i])[j] == s[i]);
            }
        }
        lemma_split_wf(s, i + 1, cur.push(s[i]));
        let rest = split_loop(s, i + 1, cur.push(s[i]));
        assert(names == rest);
        assert forall|k: int| 0 <= k < names.len() implies raw_name(names[k]) by {
            assert(raw_name(rest[k]));
        }
    }
}

/// Classification of nonempty, separator-free names yields only
/// well-formed components.
proof fn lemma_classify_wf(names: Seq<Seq<u8>>, keep_cur: bool)
    requires
        forall|k: int| 0 <= k < names.len() ==> raw_name(#[trigger] names[k]),
    ensures
        forall|k: int|
            0 <= k < classify(names, keep_cur).len() ==> wf_comp(
                #[trigger] classify(names, keep_cur)[k],
            ),
    decreases names.len(),
{
    if names.len() > 0 {
        assert forall|k: int| 0 <= k < names.drop_first().len() implies raw_name(
            names.drop_first()[k],
        ) by {
            assert(names.drop_first()[k] == names[k + 1]);
        }
        lemma_classify_wf(names.drop_first(), false);
        let n = names[0];
        let rest = classify(names.drop_first(), false);
        let whole = classify(names, keep_cur);
        assert(raw_name(n));
        if n == dot_dot_name() || (n == dot_name() && keep_cur) {
            let c = if n == dot_dot_name() {
                CompV::Parent
            } else {
                CompV::Cur
            };
            assert(whole == seq![c] + rest);
            assert forall|k: int| 0 <= k < whole.len() implies wf_comp(whole[k]) by {
                if k == 0 {
                    assert(whole[k] == c);
                } else {
                    assert(whole[k] == rest[k - 1]);
                }
            }
        } else if n == dot_name() {
            assert(whole == rest);
        } else {
            assert(whole == seq![CompV::Name(n)] + rest);
            assert forall|k: int| 0 <= k < whole.len() implies wf_comp(whole[k]) by {
                if k == 0 {
                    assert(whole[k] == CompV::Name(n));
                    assert(wf_name(n));
                } else {
                    assert(whole[k] == rest[k - 1]);
                }
            }
        }
    }
}

/// Every component of a decomposed path is well-formed.
pub proof fn lemma_components_wf(s: Seq<u8>)
    ensures
        forall|k: int|
            0 <= k < spec_components(s).len() ==> wf_comp(#[trigger] spec_components(s)[k]),
{
    lemma_split_wf(s, 0, Seq::empty());
    if spec_is_abs(s) {
        lemma_classify_wf(path_names(s), false);
    } else {
        lemma_classify_wf(path_names(s), true);
    }
}

/// Whether `n` is the name `.`.
pub fn is_dot(n: &Vec<u8>) -> (r: bool)
    ensures
        r == (n@ == dot_name()),
{
    let r = n.len() == 1 && n[0] == DOT;
    proof {
        if r {
            assert(n@ =~= dot_name());
        }
    }
    r
}

/// Whether `n` is the name `..`.
pub fn is_dot_dot(n: &Vec<u8>) -> (r: bool)
    ensures
        r == (n@ == dot_dot_name()),
{
    let r = n.len() == 2 && n[0] == DOT && n[1] == DOT;
    proof {
        if r {
            assert(n@ =~= dot_dot_name());
        }
    }
    r
}

/// Decomposes a path into its components.
pub fn parse_path(s: &Vec<u8>) -> (r: Vec<PathComponent>)
    ensures
        views_of(r@) == spec_components(s@),
{
    let mut r: Vec<PathComponent> = Vec::new();
    let is_abs = s.len() > 0 && s[0] == SLASH;
    if is_abs {
        r.push(PathComponent::RootDir);
        proof {
            assert(views_of(r@) =~= seq![CompV::Root]);
        }
    } else {
        proof {
            assert(views_of(r@) =~= Seq::<CompV>::empty());
        }
    }
    let mut cur: Vec<u8> = Vec::new();
    let mut first_name: bool = true;
    let mut i: usize = 0;
    while i < s.len()
        invariant
            i <= s.len(),
            is_abs == spec_is_abs(s@),
            spec_components(s@) == views_of(r@) + classify(
                split_loop(s@, i as int, cur@),
                first_name && !is_abs,
            ),
        decreases s.len() - i,
    {
        let ghost i0 = i as int;
        let ghost cur0 = cur@;
        let ghost r0 = r@;
        let ghost flag0 = first_name && !is_abs;
        let b = s[i];
        if b == SLASH {
            if cur.len() > 0 {
                let ghost rest = split_loop(s@, i0 + 1, Seq::<u8>::empty());
                proof {
                    assert(split_loop(s@, i0, cur0) == seq![cur0] + rest);
                    assert((seq![cur0] + rest)[0] == cur0);
                    assert((seq![cur0] + rest).drop_first() =~= rest);
                }
                if is_dot_dot(&cur) {
                    r.push(PathComponent::ParentDir);
                    proof {
                        assert(classify(split_loop(s@, i0, cur0), flag0) == seq![CompV::Parent]
                            + classify(rest, false));
                        assert(views_of(r@) =~= views_of(r0).push(CompV::Parent));
                        assert(views_of(r@) + classify(rest, false) =~= views_of(r0) + classify(
                            split_loop(s@, i0, cur0),
                            flag0,
                        ));
                    }
                } else if is_dot(&cur) {
                    if first_name && !is_abs {
                        r.push(PathComponent::CurDir);
                        proof {
                            assert(classify(split_loop(s@, i0, cur0), flag0) == seq![CompV::Cur]
                                + classify(rest, false));
                            assert(views_of(r@) =~= views_of(r0).push(CompV::Cur));
                            assert(views_of(r@) + classify(rest, false) =~= views_of(r0)
                                + classify(split_loop(s@, i0, cur0), flag0));
                        }
                    } else {
                        proof {
                            assert(classify(split_loop(s@, i0, cur0), flag0) == classify(
                                rest,
                                false,
                            ));
                        }
                    }
                } else {
                    r.push(PathComponent::Normal(cur));
                    cur = Vec::new();
                    proof {
                        assert(classify(split_loop(s@, i0, cur0), flag0) == seq![
                            CompV::Name(cur0),
                        ] + classify(rest, false));
                        assert(views_of(r@) =~= views_of(r0).push(CompV::Name(cur0)));
                        assert(views_of(r@) + classify(rest, false) =~= views_of(r0) + classify(
                            split_loop(s@, i0, cur0),
                            flag0,
                        ));
                    }
                }
                if cur.len() > 0 {
                    cur = Vec::new();
                }
                first_name = false;
                proof {
                    assert(cur@ =~= Seq::<u8>::empty());
                    assert(spec_components(s@) == views_of(r@) + classify(rest, false));
                }
            } else {
                proof {
                    assert(cur@ =~= Seq::<u8>::empty());
                    assert(split_loop(s@, i0, cur0) == split_loop(s@, i0 + 1, Seq::<u8>::empty()));
                }
            }
            i = i + 1;
        } else {
            cur.push(b);
            i = i + 1;
            proof {
                assert(cur@ =~= cur0.push(b));
                assert(split_loop(s@, i0, cur0) == split_loop(s@, i0 + 1, cur0.push(b)));
            }
        }
    }
    let ghost iend = i as int;
    let ghost curend = cur@;
    let ghost rend = r@;
    let ghost flagend = first_name && !is_abs;
    if cur.len() > 0 {
        proof {
            assert(split_loop(s@, iend, curend) == seq![curend]);
            assert(seq![curend][0] == curend);
            assert(seq![curend].drop_first() =~= Seq::<Seq<u8>>::empty());
            assert(classify(Seq::<Seq<u8>>::empty(), false) == Seq::<CompV>::empty());
        }
        if is_dot_dot(&cur) {
            r.push(PathComponent::ParentDir);
            proof {
                assert(classify(seq![curend], flagend) =~= seq![CompV::Parent]);
                assert(views_of(r@) =~= views_of(rend).push(CompV::Parent));
                assert(views_of(r@) =~= views_of(rend) + classify(seq![curend], flagend));
            }
        } else if is_dot(&cur) {
            if first_name && !is_abs {
                r.push(PathComponent::CurDir);
                proof {
                    assert(classify(seq![curend], flagend) =~= seq![CompV::Cur]);
                    assert(views_of(r@) =~= views_of(rend).push(CompV::Cur));
                    assert(views_of(r@) =~= views_of(rend) + classify(seq![curend], flagend));
                }
            } else {
                proof {
                    assert(classify(seq![curend], flagend) =~= Seq::<CompV>::empty());
                    assert(views_of(r@) =~= views_of(rend) + classify(seq![curend], flagend));
                }
            }
        } else {
            r.push(PathComponent::Normal(cur));
            proof {
                assert(classify(seq![curend], flagend) =~= seq![CompV::Name(curend)]);
                assert(views_of(r@) =~= views_of(rend).push(CompV::Name(curend)));
                assert(views_of(r@) =~= views_of(rend) + classify(seq![curend], flagend));
            }
        }
    } else {
        proof {
            assert(split_loop(s@, iend, curend) == Seq::<Seq<u8>>::empty());
            assert(classify(Seq::<Seq<u8>>::empty(), flagend) == Seq::<CompV>::empty());
            assert(views_of(r@) =~= views_of(rend) + classify(split_loop(s@, iend, curend),
                flagend));
        }
    }
    proof {
        assert(views_of(r@) =~= spec_components(s@));
    }
    r
}

/// The abstract form of a result buffer: a root flag and the segments
/// appended so far.
#[verifier::ext_equal]
pub ghost struct BufV {
    pub absolute: bool,
    pub segs: Seq<Seq<u8>>,
}

/// The accumulating result buffer of one resolution: the canonical path
/// built so far, as a root flag plus appended segments.
pub struct ResolvedPath {
    pub absolute: bool,
    pub segs: Vec<Vec<u8>>,
}

impl View for ResolvedPath {
    type V = BufV;

    open spec fn view(&self) -> BufV {
        BufV { absolute: self.absolute, segs: Seq::new(self.segs@.len(), |i: int| self.segs@[i]@) }
    }
}

/// A well-formed buffer: every segment is nonempty and separator-free.
pub open spec fn buf_wf(b: BufV) -> bool {
    forall|k: int| 0 <= k < b.segs.len() ==> raw_name(#[trigger] b.segs[k])
}

/// The empty buffer.
pub open spec fn buf_empty() -> BufV {
    BufV { absolute: false, segs: Seq::empty() }
}

/// The buffer with one segment appended.
pub open spec fn buf_push_seg(b: BufV, n: Seq<u8>) -> BufV {
    BufV { absolute: b.absolute, segs: b.segs.push(n) }
}

/// The buffer with its last segment removed; at a root or when empty
/// there is nothing to remove and the buffer is unchanged.
pub open spec fn buf_pop(b: BufV) -> BufV {
    if b.segs.len() > 0 {
        BufV { absolute: b.absolute, segs: b.segs.drop_last() }
    } else {
        b
    }
}

/// Appends a component sequence to the buffer, as pushing a path does:
/// a root marker replaces the whole buffer, every other component
/// becomes one appended segment.
pub open spec fn buf_push_comps(b: BufV, cs: Seq<CompV>) -> BufV
    decreases cs.len(),
{
    if cs.len() == 0 {
        b
    } else {
        let b1 = match cs[0] {
            CompV::Root => BufV { absolute: true, segs: Seq::empty() },
            CompV::Cur => buf_push_seg(b, dot_name()),
            CompV::Parent => buf_push_seg(b, dot_dot_name()),
            CompV::Name(n) => buf_push_seg(b, n),
        };
        buf_push_comps(b1, cs.drop_first())
    }
}

/// The buffer holding exactly the path `s`.
pub open spec fn buf_of_path(s: Seq<u8>) -> BufV {
    buf_push_comps(buf_empty(), spec_components(s))
}

/// The rendered bytes of a buffer: a leading separator when absolute,
/// the segments joined by separators.
pub open spec fn tail_part(segs: Seq<Seq<u8>>, i: int) -> Seq<u8>
    decreases segs.len() - i,
{
    if i < 0 || i >= segs.len() {
        Seq::empty()
    } else {
        seq![SLASH] + segs[i] + tail_part(segs, i + 1)
    }
}

/// The rendered bytes of a buffer.
pub open spec fn spec_render(b: BufV) -> Seq<u8> {
    if b.absolute {
        if b.segs.len() == 0 {
            seq![SLASH]
        } else {
            tail_part(b.segs, 0)
        }
    } else {
        if b.segs.len() == 0 {
            Seq::empty()
        } else {
            b.segs[0] + tail_part(b.segs, 1)
        }
    }
}

/// Removes one trailing separator, if the bytes end in one.
pub open spec fn spec_strip(s: Seq<u8>) -> Seq<u8> {
    if s.len() > 0 && s[s.len() - 1] == SLASH {
        s.drop_last()
    } else {
        s
    }
}

/// Copies a byte vector.
pub fn clone_bytes(v: &Vec<u8>) -> (r: Vec<u8>)
    ensures
        r@ == v@,
{
    let mut r: Vec<u8> = Vec::new();
    let mut j: usize = 0;
    while j < v.len()
        invariant
            j <= v.len(),
            r@ == v@.subrange(0, j as int),
        decreases v.len() - j,
    {
        r.push(v[j]);
        j = j + 1;
        proof {
            assert(r@ =~= v@.subrange(0, j as int));
        }
    }
    proof {
        assert(r@ =~= v@);
    }
    r
}

/// Appends the bytes of `n` to `r`.
pub fn append_bytes(r: &mut Vec<u8>, n: &Vec<u8>)
    ensures
        final(r)@ == old(r)@ + n@,
{
    let mut j: usize = 0;
    while j < n.len()
        invariant
            j <= n.len(),
            r@ == old(r)@ + n@.subrange(0, j as int),
        decreases n.len() - j,
    {
        r.push(n[j]);
        j = j + 1;
        proof {
            assert(r@ =~= old(r)@ + n@.subrange(0, j as int));
        }
    }
    proof {
        assert(r@ =~= old(r)@ + n@);
    }
}

impl ResolvedPath {
    /// The empty buffer.
    pub fn new() -> (r: Self)
        ensures
            r@ == buf_empty(),
    {
        let r = ResolvedPath { absolute: false, segs: Vec::new() };
        proof {
            assert(r@ =~= buf_empty());
        }
        r
    }

    /// Whether the buffer gives a parent reference nothing to remove and
    /// relative ascent no base: neither absolute nor holding a segment.
    pub fn has_no_base(&self) -> (r: bool)
        ensures
            r == (!self@.absolute && self@.segs.len() == 0),
    {
        !self.absolute && self.segs.len() == 0
    }

    /// Replaces the buffer with the bare root.
    pub fn set_root(&mut self)
        ensures
            final(self)@ == (BufV { absolute: true, segs: Seq::empty() }),
    {
        self.absolute = true;
        self.segs = Vec::new();
        proof {
            assert(self@ =~= BufV { absolute: true, segs: Seq::empty() });
        }
    }

    /// Appends one segment.
    pub fn push_seg(&mut self, n: Vec<u8>)
        ensures
            final(self)@ == buf_push_seg(old(self)@, n@),
    {
        self.segs.push(n);
        proof {
            assert(self@ =~= buf_push_seg(old(self)@, self.segs@[self.segs@.len() - 1]@));
        }
    }

    /// Removes the last segment; with no segment to remove this is a no-op.
    pub fn pop(&mut self)
        ensures
            final(self)@ == buf_pop(old(self)@),
    {
        if self.segs.len() > 0 {
            let _ = self.segs.pop();
            proof {
                assert(self@ =~= buf_pop(old(self)@));
            }
        }
    }

    /// Appends a decomposed path, as pushing a path onto a buffer does:
    /// an absolute path replaces the buffer entirely.
    pub fn push_components(&mut self, cs: &Vec<PathComponent>)
        ensures
            final(self)@ == buf_push_comps(old(self)@, views_of(cs@)),
    {
        let ghost all = views_of(cs@);
        proof {
            assert(all.subrange(0, all.len() as int) =~= all);
        }
        let mut k: usize = 0;
        while k < cs.len()
            invariant
                k <= cs.len(),
                all == views_of(cs@),
                buf_push_comps(old(self)@, all) == buf_push_comps(
                    self@,
                    all.subrange(k as int, all.len() as int),
                ),
            decreases cs.len() - k,
        {
            let ghost pre = self@;
            let ghost restk = all.subrange(k as int, all.len() as int);
            proof {
                assert(restk[0] == all[k as int]);
                assert(all[k as int] == cs@[k as int]@);
                assert(restk.drop_first() =~= all.subrange(k as int + 1, all.len() as int));
            }
            match &cs[k] {
                PathComponent::RootDir => {
                    self.set_root();
                },
                PathComponent::CurDir => {
                    let mut d: Vec<u8> = Vec::new();
                    d.push(DOT);
                    proof {
                        assert(d@ =~= dot_name());
                    }
                    self.push_seg(d);
                },
                PathComponent::ParentDir => {
                    let mut d: Vec<u8> = Vec::new();
                    d.push(DOT);
                    d.push(DOT);
                    proof {
                        assert(d@ =~= dot_dot_name());
                    }
                    self.push_seg(d);
                },
                PathComponent::Normal(n) => {
                    let copy = clone_bytes(n);
                    self.push_seg(copy);
                },
            }
            k = k + 1;
            proof {
                assert(buf_push_comps(pre, restk) == buf_push_comps(
                    self@,
                    all.subrange(k as int, all.len() as int),
                ));
            }
        }
        proof {
            assert(all.subrange(k as int, all.len() as int) =~= Seq::<CompV>::empty());
        }
    }

    /// The rendered bytes of the buffer.
    pub fn render(&self) -> (r: Vec<u8>)
        ensures
            r@ == spec_render(self@),
    {
        let mut r: Vec<u8> = Vec::new();
        if self.absolute {
            if self.segs.len() == 0 {
                r.push(SLASH);
                proof {
                    assert(r@ =~= seq![SLASH]);
                }
                return r;
            }
            let mut k: usize = 0;
            while k < self.segs.len()
                invariant
                    k <= self.segs.len(),
                    self@.absolute,
                    self@.segs.len() > 0,
                    r@ + tail_part(self@.segs, k as int) == tail_part(self@.segs, 0),
                decreases self.segs.len() - k,
            {
                let ghost r0 = r@;
                r.push(SLASH);
                append_bytes(&mut r, &self.segs[k]);
                proof {
                    assert(r@ =~= r0 + seq![SLASH] + self@.segs[k as int]);
                    assert(r@ + tail_part(self@.segs, k as int + 1) =~= r0 + tail_part(
                        self@.segs,
                        k as int,
                    ));
                }
                k = k + 1;
            }
            proof {
                assert(r@ + tail_part(self@.segs, k as int) =~= r@);
            }
            r
        } else {
            if self.segs.len() == 0 {
                proof {
                    assert(r@ =~= Seq::<u8>::empty());
                }
                return r;
            }
            append_bytes(&mut r, &self.segs[0]);
            let mut k: usize = 1;
            while k < self.segs.len()
                invariant
                    1 <= k <= self.segs.len(),
                    !self@.absolute,
                    self@.segs.len() > 0,
                    r@ + tail_part(self@.segs, k as int) == self@.segs[0] + tail_part(
                        self@.segs,
                        1,
                    ),
                decreases self.segs.len() - k,
            {
                let ghost r0 = r@;
                r.push(SLASH);
                append_bytes(&mut r, &self.segs[k]);
                proof {
                    assert(r@ =~= r0 + seq![SLASH] + self@.segs[k as int]);
                    assert(r@ + tail_part(self@.segs, k as int + 1) =~= r0 + tail_part(
                        self@.segs,
                        k as int,
                    ));
                }
                k = k + 1;
            }
            proof {
                assert(r@ + tail_part(self@.segs, k as int) =~= r@);
            }
            r
        }
    }

    /// The rendered bytes with one trailing separator removed, if present.
    pub fn render_stripped(&self) -> (r: Vec<u8>)
        ensures
            r@ == spec_strip(spec_render(self@)),
    {
        let mut r = self.render();
        if r.len() > 0 && r[r.len() - 1] == SLASH {
            let _ = r.pop();
            proof {
                assert(r@ =~= spec_strip(spec_render(self@)));
            }
        }
        r
    }

    /// The rendered bytes of the buffer with one more segment appended.
    pub fn render_with(&self, n: &Vec<u8>) -> (r: Vec<u8>)
        requires
            buf_wf(self@),
        ensures
            r@ == spec_render(buf_push_seg(self@, n@)),
    {
        let mut r = self.render();
        proof {
            lemma_render_push(self@, n@);
            if self@.segs.len() > 0 {
                lemma_render_no_trailing(self@);
            }
        }
        if r.len() > 0 && r[r.len() - 1] != SLASH {
            r.push(SLASH);
            append_bytes(&mut r, n);
            proof {
                assert(r@ =~= spec_render(self@) + seq![SLASH] + n@);
            }
        } else {
            append_bytes(&mut r, n);
            proof {
                if spec_render(self@).len() == 0 {
                    assert(r@ =~= n@);
                } else {
                    assert(spec_render(self@) =~= seq![SLASH]);
                    assert(r@ =~= seq![SLASH] + n@);
                }
            }
        }
        r
    }
}

/// Appending a segment appends a separator and the segment to the
/// rendered tail.
proof fn lemma_tail_push(segs: Seq<Seq<u8>>, n: Seq<u8>, i: int)
    requires
        0 <= i <= segs.len(),
    ensures
        tail_part(segs.push(n), i) == tail_part(segs, i) + seq![SLASH] + n,
    decreases segs.len() - i,
{
    if i == segs.len() {
        assert(segs.push(n)[i] == n);
        assert(tail_part(segs.push(n), i + 1) == Seq::<u8>::empty());
        assert(tail_part(segs.push(n), i) =~= tail_part(segs, i) + seq![SLASH] + n);
    } else {
        assert(segs.push(n)[i] == segs[i]);
        lemma_tail_push(segs, n, i + 1);
        assert(tail_part(segs.push(n), i) =~= tail_part(segs, i) + seq![SLASH] + n);
    }
}

/// How rendering changes when one segment is appended.
pub proof fn lemma_render_push(b: BufV, n: Seq<u8>)
    requires
        buf_wf(b),
    ensures
        spec_render(buf_push_seg(b, n)) == if spec_render(b).len() == 0 {
            n
        } else if spec_render(b) == seq![SLASH] {
            seq![SLASH] + n
        } else {
            spec_render(b) + seq![SLASH] + n
        },
{
    let p = buf_push_seg(b, n);
    if b.absolute {
        if b.segs.len() == 0 {
            assert(p.segs[0] == n);
            assert(tail_part(p.segs, 1) == Seq::<u8>::empty());
            assert(spec_render(p) =~= seq![SLASH] + n);
        } else {
            lemma_tail_push(b.segs, n, 0);
            lemma_render_no_trailing(b);
            assert(spec_render(b).len() > 0);
            assert(spec_render(b) != seq![SLASH]);
        }
    } else {
        if b.segs.len() == 0 {
            assert(p.segs[0] == n);
            assert(tail_part(p.segs, 1) == Seq::<u8>::empty());
            assert(spec_render(p) =~= n);
        } else {
            lemma_tail_push(b.segs, n, 1);
            assert(p.segs[0] == b.segs[0]);
            assert(spec_render(p) =~= spec_render(b) + seq![SLASH] + n);
            assert(raw_name(b.segs[0]));
            assert(spec_render(b)[0] == b.segs[0][0]);
            assert(spec_render(b) != seq![SLASH]);
        }
    }
}

/// The rendered tail of well-formed segments ends in a non-separator byte.
proof fn lemma_tail_last(segs: Seq<Seq<u8>>, i: int)
    requires
        0 <= i < segs.len(),
        forall|k: int| 0 <= k < segs.len() ==> raw_name(#[trigger] segs[k]),
    ensures
        tail_part(segs, i).len() > 1,
        tail_part(segs, i)[tail_part(segs, i).len() - 1] != SLASH,
    decreases segs.len() - i,
{
    if i == segs.len() - 1 {
        assert(tail_part(segs, i + 1) == Seq::<u8>::empty());
        assert(tail_part(segs, i) =~= seq![SLASH] + segs[i]);
        assert(raw_name(segs[i]));
        assert((seq![SLASH] + segs[i]).len() == 1 + segs[i].len());
        assert((seq![SLASH] + segs[i])[segs[i].len() as int] == segs[i][segs[i].len() - 1]);
    } else {
        lemma_tail_last(segs, i + 1);
        let t = tail_part(segs, i + 1);
        assert(tail_part(segs, i) == seq![SLASH] + segs[i] + t);
        assert((seq![SLASH] + segs[i] + t)[(seq![SLASH] + segs[i] + t).len() - 1] == t[t.len()
            - 1]);
    }
}

/// Rendering a well-formed buffer that holds at least one segment never
/// ends in a separator.
pub proof fn lemma_render_no_trailing(b: BufV)
    requires
        buf_wf(b),
        b.segs.len() > 0,
    ensures
        spec_render(b).len() > 0,
        spec_render(b)[spec_render(b).len() - 1] != SLASH,
{
    if b.absolute {
        lemma_tail_last(b.segs, 0);
    } else {
        assert(raw_name(b.segs[0]));
        if b.segs.len() == 1 {
            assert(tail_part(b.segs, 1) == Seq::<u8>::empty());
            assert(spec_render(b) =~= b.segs[0]);
        } else {
            lemma_tail_last(b.segs, 1);
            let t = tail_part(b.segs, 1);
            assert(spec_render(b) == b.segs[0] + t);
            assert((b.segs[0] + t)[(b.segs[0] + t).len() - 1] == t[t.len() - 1]);
        }
    }
}

/// A finished result — the stripped rendering of a well-formed buffer —
/// never ends in a separator.
pub proof fn lemma_result_no_trailing_sep(b: BufV)
    requires
        buf_wf(b),
    ensures
        spec_strip(spec_render(b)).len() > 0 ==> spec_strip(spec_render(b))[spec_strip(
            spec_render(b),
        ).len() - 1] != SLASH,
{
    if b.segs.len() > 0 {
        lemma_render_no_trailing(b);
    }
}

/// Pushing well-formed components onto a well-formed buffer keeps it
/// well-formed.
pub proof fn lemma_push_comps_wf(b: BufV, cs: Seq<CompV>)
    requires
        buf_wf(b),
        forall|k: int| 0 <= k < cs.len() ==> wf_comp(#[trigger] cs[k]),
    ensures
        buf_wf(buf_push_comps(b, cs)),
    decreases cs.len(),
{
    if cs.len() > 0 {
        let b1 = match cs[0] {
            CompV::Root => BufV { absolute: true, segs: Seq::empty() },
            CompV::Cur => buf_push_seg(b, dot_name()),
            CompV::Parent => buf_push_seg(b, dot_dot_name()),
            CompV::Name(n) => buf_push_seg(b, n),
        };
        assert(raw_name(dot_name()));
        assert(raw_name(dot_dot_name()));
        assert(buf_wf(b1)) by {
            match cs[0] {
                CompV::Root => {},
                CompV::Cur => {
                    lemma_buf_push_seg_wf(b, dot_name());
                },
                CompV::Parent => {
                    lemma_buf_push_seg_wf(b, dot_dot_name());
                },
                CompV::Name(n) => {
                    assert(wf_comp(cs[0]));
                    lemma_buf_push_seg_wf(b, n);
                },
            }
        }
        assert forall|k: int| 0 <= k < cs.drop_first().len() implies wf_comp(
            cs.drop_first()[k],
        ) by {
            assert(cs.drop_first()[k] == cs[k + 1]);
        }
        lemma_push_comps_wf(b1, cs.drop_first());
    }
}

/// Splitting looks only at the bytes from the scan position on.
proof fn lemma_split_shift(s: Seq<u8>, i: int, cur: Seq<u8>)
    requires
        0 <= i <= s.len(),
    ensures
        split_loop(s, i, cur) == split_loop(s.subrange(i, s.len() as int), 0, cur),
    decreases s.len() - i,
{
    let sub = s.subrange(i, s.len() as int);
    if i == s.len() {
        assert(sub.len() == 0);
    } else {
        assert(sub[0] == s[i]);
        if s[i] == SLASH {
            lemma_split_shift(s, i + 1, Seq::empty());
            lemma_split_shift(sub, 1, Seq::empty());
            assert(s.subrange(i + 1, s.len() as int) =~= sub.subrange(1, sub.len() as int));
        } else {
            lemma_split_shift(s, i + 1, cur.push(s[i]));
            lemma_split_shift(sub, 1, cur.push(s[i]));
            assert(s.subrange(i + 1, s.len() as int) =~= sub.subrange(1, sub.len() as int));
        }
    }
}

/// Scanning a separator-free stretch accumulates it into one name.
proof fn lemma_split_scan(s: Seq<u8>, i: int, cur: Seq<u8>, n2: Seq<u8>)
    requires
        0 <= i,
        i + n2.len() <= s.len(),
        s.subrange(i, i + n2.len()) == n2,
        forall|j: int| 0 <= j < n2.len() ==> n2[j] != SLASH,
        (cur + n2).len() > 0,
        i + n2.len() == s.len() || s[i + n2.len()] == SLASH,
    ensures
        split_loop(s, i, cur) == seq![cur + n2] + split_loop(s, i + n2.len(), Seq::empty()),
    decreases n2.len(),
{
    if n2.len() == 0 {
        assert(cur + n2 =~= cur);
        if i == s.len() {
            assert(split_loop(s, i, cur) == seq![cur]);
            assert(split_loop(s, i, Seq::empty()) == Seq::<Seq<u8>>::empty());
            assert(seq![cur + n2] + split_loop(s, i, Seq::empty()) =~= seq![cur]);
        } else {
            assert(s[i] == SLASH);
            assert(split_loop(s, i, cur) == seq![cur] + split_loop(s, i + 1, Seq::empty()));
            assert(split_loop(s, i, Seq::empty()) == split_loop(s, i + 1, Seq::empty()));
            assert(seq![cur + n2] + split_loop(s, i, Seq::empty()) =~= seq![cur] + split_loop(
                s,
                i + 1,
                Seq::empty(),
            ));
        }
    } else {
        assert(s[i] == s.subrange(i, i + n2.len())[0]);
        assert(s[i] == n2[0]);
        assert(s[i] != SLASH);
        assert(split_loop(s, i, cur) == split_loop(s, i + 1, cur.push(s[i])));
        let cur1 = cur.push(n2[0]);
        let n3 = n2.drop_first();
        assert(s.subrange(i + 1, i + 1 + n3.len() as int) =~= n3) by {
            assert forall|j: int| 0 <= j < n3.len() implies s.subrange(i + 1, i + 1 + n3.len() as int)[j]
                == n3[j] by {
                assert(s.subrange(i + 1, i + 1 + n3.len() as int)[j] == s[i + 1 + j]);
                assert(s[i + 1 + j] == s.subrange(i, i + n2.len())[j + 1]);
            }
        }
        assert forall|j: int| 0 <= j < n3.len() implies n3[j] != SLASH by {
            assert(n3[j] == n2[j + 1]);
        }
        assert(cur1 + n3 =~= cur + n2);
        lemma_split_scan(s, i + 1, cur1, n3);
        assert(seq![cur1 + n3] =~= seq![cur + n2]);
    }
}

/// The names of a rendered tail are exactly the segments rendered.
proof fn lemma_split_tail(names: Seq<Seq<u8>>, i: int)
    requires
        0 <= i <= names.len(),
        forall|k: int| 0 <= k < names.len() ==> raw_name(#[trigger] names[k]),
    ensures
        split_loop(tail_part(names, i), 0, Seq::empty()) == names.subrange(
            i,
            names.len() as int,
        ),
    decreases names.len() - i,
{
    let t = tail_part(names, i);
    if i == names.len() {
        assert(t.len() == 0);
        assert(names.subrange(i, names.len() as int) =~= Seq::<Seq<u8>>::empty());
    } else {
        let n = names[i];
        let rest = tail_part(names, i + 1);
        assert(t == seq![SLASH] + n + rest);
        assert(t[0] == SLASH);
        assert(raw_name(n));
        assert(split_loop(t, 0, Seq::empty()) == split_loop(t, 1, Seq::empty()));
        assert(t.subrange(1, 1 + n.len() as int) =~= n) by {
            assert forall|j: int| 0 <= j < n.len() implies t.subrange(1, 1 + n.len() as int)[j]
                == n[j] by {
                assert(t.subrange(1, 1 + n.len() as int)[j] == t[1 + j]);
                assert(t[1 + j] == n[j]);
            }
        }
        if i + 1 == names.len() {
            assert(rest.len() == 0);
            assert(t.len() == 1 + n.len() as int);
        } else {
            assert(rest == seq![SLASH] + names[i + 1] + tail_part(names, i + 2));
            assert(t[1 + n.len() as int] == rest[0]);
            assert(t[1 + n.len() as int] == SLASH);
        }
        assert(Seq::<u8>::empty() + n =~= n);
        lemma_split_scan(t, 1, Seq::empty(), n);
        lemma_split_shift(t, 1 + n.len() as int, Seq::empty());
        assert(t.subrange(1 + n.len() as int, t.len() as int) =~= rest) by {
            assert forall|j: int| 0 <= j < rest.len() implies t.subrange(
                1 + n.len() as int,
                t.len() as int,
            )[j] == rest[j] by {
                assert(t.subrange(1 + n.len() as int, t.len() as int)[j] == t[1 + n.len() as int + j]);
            }
        }
        lemma_split_tail(names, i + 1);
        assert(split_loop(t, 0, Seq::empty()) =~= seq![n] + names.subrange(
            i + 1,
            names.len() as int,
        ));
        assert(seq![n] + names.subrange(i + 1, names.len() as int) =~= names.subrange(
            i,
            names.len() as int,
        ));
    }
}

/// Classifying well-formed names yields one `Name` per name.
proof fn lemma_classify_all_names(names: Seq<Seq<u8>>)
    requires
        forall|k: int| 0 <= k < names.len() ==> wf_name(#[trigger] names[k]),
    ensures
        classify(names, false) == Seq::new(names.len(), |i: int| CompV::Name(names[i])),
    decreases names.len(),
{
    if names.len() == 0 {
        assert(classify(names, false) =~= Seq::new(names.len(), |i: int| CompV::Name(names[i])));
    } else {
        assert(wf_name(names[0]));
        assert forall|k: int| 0 <= k < names.drop_first().len() implies wf_name(
            names.drop_first()[k],
        ) by {
            assert(names.drop_first()[k] == names[k + 1]);
        }
        lemma_classify_all_names(names.drop_first());
        assert(classify(names, false) == seq![CompV::Name(names[0])] + classify(
            names.drop_first(),
            false,
        ));
        assert(classify(names, false) =~= Seq::new(names.len(), |i: int| CompV::Name(names[i])));
    }
}

/// Round trip: decomposing the rendering of an absolute, well-formed
/// buffer gives back a root marker followed by exactly its segments.
pub proof fn lemma_render_parse_roundtrip(names: Seq<Seq<u8>>)
    requires
        names.len() > 0,
        forall|k: int| 0 <= k < names.len() ==> wf_name(#[trigger] names[k]),
    ensures
        spec_components(spec_render(BufV { absolute: true, segs: names })) == seq![CompV::Root]
            + Seq::new(names.len(), |i: int| CompV::Name(names[i])),
{
    let s = spec_render(BufV { absolute: true, segs: names });
    assert(s == tail_part(names, 0));
    assert(s == seq![SLASH] + names[0] + tail_part(names, 1));
    assert(s[0] == SLASH);
    assert(spec_is_abs(s));
    lemma_split_tail(names, 0);
    assert(names.subrange(0, names.len() as int) =~= names);
    assert(path_names(s) == names);
    lemma_classify_all_names(names);
}

/// Appending one nonempty, separator-free segment keeps a buffer
/// well-formed.
pub proof fn lemma_buf_push_seg_wf(b: BufV, n: Seq<u8>)
    requires
        buf_wf(b),
        raw_name(n),
    ensures
        buf_wf(buf_push_seg(b, n)),
{
    let p = buf_push_seg(b, n);
    assert forall|k: int| 0 <= k < p.segs.len() implies raw_name(p.segs[k]) by {
        if k < b.segs.len() {
            assert(p.segs[k] == b.segs[k]);
        } else {
            assert(p.segs[k] == n);
        }
    }
}

} // verus!
