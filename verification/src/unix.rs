//! The POSIX path grammar: `/` separates segments, a leading separator is
//! the root, and there is no prefix concept.

use vstd::prelude::*;
use vstd::seq_lib::*;

use crate::model::{
    contains_par, copy_seg, cur_tok, drop_dots, fold_exec, fold_segs, is_cur, is_par, is_sep,
    is_sep_exec, join_segments, kept_segments, kept_segments_exec, lemma_chars_deep_view,
    lemma_contains_par_iff, lemma_drop_dots_id, lemma_drop_dots_shape, lemma_fold_no_par,
    lemma_first_segment, lemma_fold_pars_floor, lemma_fold_plain, lemma_fold_wf, lemma_last_nonsep,
    lemma_plain_no_par,
    lemma_raw_of_render, lemma_raw_segments_shaped, lemma_render_extend, lemma_render_head,
    lemma_render_prefix, lemma_render_push, par_tok, raw_segments, render, render_exec, seg_shape,
    seg_wf, segs_nocur, segs_plain, segs_shaped, segs_wf, split_segments, Seeded,
};
use crate::text::{chars_eq, chars_of, string_of};
use crate::AbsolutizeError;

verus! {

/// Whether the path text is absolute: it starts with the root separator.
pub open spec fn is_rooted(s: Seq<char>) -> bool {
    s.len() > 0 && is_sep(s[0], false)
}

/// Whether the path starts with a current-directory component: it is
/// relative and its first segment is `.`.
pub open spec fn lead_cur(s: Seq<char>) -> bool {
    !is_rooted(s) && raw_segments(s, false).len() > 0 && raw_segments(s, false)[0] == cur_tok()
}

/// The segment components of the path text: its segments with every `.`
/// dropped, except a leading one on a relative path.
pub open spec fn components_of(s: Seq<char>) -> Seq<Seq<char>> {
    kept_segments(raw_segments(s, false), lead_cur(s))
}

/// The working list seeded from the first component of `p`.
///
/// A rooted path keeps just the root. A leading `.` stands for the base
/// directory, and a leading `..` for its parent; at the very root the
/// parent is the root itself. Any other first segment is kept: behind the
/// base directory when `resolve_relative` holds (absolutization), and on
/// its own when dots alone are resolved.
pub open spec fn seed(p: Seq<char>, base: Seq<char>, resolve_relative: bool) -> Seeded
    recommends
        p.len() > 0,
{
    let segs = raw_segments(p, false);
    if is_rooted(p) {
        Seeded {
            prefix: Seq::empty(),
            rooted: true,
            segs: Seq::empty(),
            changed: false,
            rest: segs,
        }
    } else {
        let first = segs[0];
        let rest = segs.subrange(1, segs.len() as int);
        if first == cur_tok() {
            Seeded {
                prefix: Seq::empty(),
                rooted: is_rooted(base),
                segs: components_of(base),
                changed: true,
                rest,
            }
        } else if first == par_tok() {
            let bs = components_of(base);
            if bs.len() > 0 {
                Seeded {
                    prefix: Seq::empty(),
                    rooted: is_rooted(base),
                    segs: bs.drop_last(),
                    changed: true,
                    rest,
                }
            } else if base == seq!['/'] {
                Seeded {
                    prefix: Seq::empty(),
                    rooted: true,
                    segs: Seq::empty(),
                    changed: true,
                    rest,
                }
            } else {
                Seeded {
                    prefix: Seq::empty(),
                    rooted: false,
                    segs: Seq::empty(),
                    changed: true,
                    rest,
                }
            }
        } else {
            if resolve_relative {
                Seeded {
                    prefix: Seq::empty(),
                    rooted: is_rooted(base),
                    segs: components_of(base).push(first),
                    changed: true,
                    rest,
                }
            } else {
                Seeded {
                    prefix: Seq::empty(),
                    rooted: false,
                    segs: seq![first],
                    changed: false,
                    rest,
                }
            }
        }
    }
}

/// The normalized text of `p` against `base`.
///
/// The empty path resolves to the base directory when `resolve_relative`
/// holds and stays empty otherwise. Anything else is seeded, folded and
/// rendered; when nothing was resolved and the rendering is as long as the
/// input, the input itself is returned.
pub open spec fn normalize_spec(p: Seq<char>, base: Seq<char>, resolve_relative: bool) -> Seq<
    char,
> {
    if p.len() == 0 {
        if resolve_relative {
            base
        } else {
            p
        }
    } else {
        let sd = seed(p, base, resolve_relative);
        let ts = fold_segs(sd.segs, sd.rest);
        let r = render(sd.prefix, sd.rooted, ts, '/');
        if sd.changed || contains_par(sd.rest) || r.len() != p.len() {
            r
        } else {
            p
        }
    }
}

/// What `absolutize_from` returns: `p` resolved against `base`.
pub open spec fn absolutize_from_spec(p: Seq<char>, base: Seq<char>) -> Seq<char> {
    normalize_spec(p, base, true)
}

/// What dot resolution alone returns: the path's own `.` and `..`
/// segments are resolved with no base directory at all, so a relative
/// path stays relative and a leading `..` is resolved away within it.
pub open spec fn parse_dot_spec(p: Seq<char>) -> Seq<char> {
    normalize_spec(p, Seq::empty(), false)
}

/// The root flag and segment components of a path text, executably.
pub fn path_components(s: &str) -> (r: (bool, Vec<Vec<char>>))
    ensures
        r.0 == is_rooted(s@),
        r.1.deep_view() == components_of(s@),
{
    broadcast use lemma_chars_deep_view;

    let cs = chars_of(s);
    proof {
        assert(cs@.subrange(0, cs@.len() as int) =~= cs@);
    }
    let rooted = cs.len() > 0 && is_sep_exec(cs[0], false);
    let segs = split_segments(&cs, 0, false);
    let lead = !rooted && segs.len() > 0 && is_cur(&segs[0]);
    let kept = kept_segments_exec(&segs, lead);
    (rooted, kept)
}

/// Resolve `path` against `base` under the POSIX grammar.
fn normalize(path: &str, base: &str, resolve_relative: bool) -> (r: String)
    ensures
        r@ == normalize_spec(path@, base@, resolve_relative),
{
    broadcast use lemma_chars_deep_view;

    let p = chars_of(path);
    proof {
        assert(p@.subrange(0, p@.len() as int) =~= p@);
    }
    if p.len() == 0 {
        if resolve_relative {
            return base.to_owned();
        } else {
            return path.to_owned();
        }
    }
    let segs = split_segments(&p, 0, false);
    let ghost sd = seed(path@, base@, resolve_relative);
    let mut tokens: Vec<Vec<char>> = Vec::new();
    let mut rooted = false;
    let mut changed0 = false;
    let mut start: usize = 0;
    if is_sep_exec(p[0], false) {
        rooted = true;
    } else {
        proof {
            lemma_first_segment(path@, false);
        }
        if is_cur(&segs[0]) {
            let bm = path_components(base);
            rooted = bm.0;
            tokens = bm.1;
            changed0 = true;
            start = 1;
        } else if is_par(&segs[0]) {
            let bm = path_components(base);
            rooted = bm.0;
            tokens = bm.1;
            if tokens.len() > 0 {
                tokens.pop();
                proof {
                    assert(tokens.deep_view() =~= components_of(base@).drop_last());
                }
            } else {
                let bc = chars_of(base);
                if bc.len() == 1 && bc[0] == '/' {
                    proof {
                        assert(base@ =~= seq!['/']);
                    }
                    rooted = true;
                } else {
                    proof {
                        if base@ == seq!['/'] {
                            assert(bc@[0] == '/');
                        }
                    }
                    rooted = false;
                }
            }
            changed0 = true;
            start = 1;
        } else {
            if resolve_relative {
                let bm = path_components(base);
                rooted = bm.0;
                tokens = bm.1;
                tokens.push(copy_seg(&segs[0]));
                proof {
                    assert(tokens.deep_view() =~= components_of(base@).push(
                        segs.deep_view()[0],
                    ));
                }
                changed0 = true;
            } else {
                tokens.push(copy_seg(&segs[0]));
                proof {
                    assert(tokens.deep_view() =~= seq![segs.deep_view()[0]]);
                }
            }
            start = 1;
        }
    }
    proof {
        assert(tokens.deep_view() == sd.segs);
        assert(rooted == sd.rooted);
        assert(changed0 == sd.changed);
        if start == 1 {
            assert(segs.deep_view().subrange(1, segs.deep_view().len() as int) =~= sd.rest);
        } else {
            assert(segs.deep_view().subrange(0, segs.deep_view().len() as int) =~= sd.rest);
        }
    }
    let changed_fold = fold_exec(&mut tokens, &segs, start);
    let empty_prefix: Vec<char> = Vec::new();
    let out = render_exec(&empty_prefix, rooted, &tokens, '/');
    if changed0 || changed_fold || out.len() != p.len() {
        string_of(&out)
    } else {
        path.to_owned()
    }
}

/// Resolve `path` against the base directory `base` and remove every
/// resolvable `.` and `..` segment.
pub fn absolutize_from(path: &str, base: &str) -> (r: String)
    ensures
        r@ == absolutize_from_spec(path@, base@),
{
    normalize(path, base, true)
}

/// Whether the components of `a` lead the components of `b`: the std
/// `Path::starts_with` reading of containment, at segment boundaries.
pub open spec fn starts_with_spec(a: Seq<char>, b: Seq<char>) -> bool {
    &&& (is_rooted(a) ==> is_rooted(b))
    &&& (components_of(a).len() > 0 ==> is_rooted(a) == is_rooted(b))
    &&& components_of(a).is_prefix_of(components_of(b))
}

/// `rel` appended to the directory `dir`, with a single separator between
/// them, as std's `PathBuf::push` writes it for a relative `rel`.
pub open spec fn join_spec(dir: Seq<char>, rel: Seq<char>) -> Seq<char> {
    if dir.len() == 0 {
        rel
    } else if is_sep(dir.last(), false) {
        dir + rel
    } else {
        dir + seq!['/'] + rel
    }
}

/// What `absolutize_virtually` returns.
///
/// The root is absolutized against `base`; the path has its own dots
/// resolved, against no base, so a relative path never reaches the base
/// directory. A path that is absolute after that must start with the
/// resolved root, at a component boundary, or the call fails; a relative
/// one is joined under the root and so can never leave it.
pub open spec fn absolutize_virtually_spec(
    p: Seq<char>,
    virtual_root: Seq<char>,
    base: Seq<char>,
) -> Result<Seq<char>, AbsolutizeError> {
    let vr = absolutize_from_spec(virtual_root, base);
    let pd = parse_dot_spec(p);
    if is_rooted(pd) {
        if starts_with_spec(vr, pd) {
            Ok(pd)
        } else {
            Err(AbsolutizeError::InvalidInput)
        }
    } else {
        Ok(join_spec(vr, pd))
    }
}

/// Whether the segment list `a` is a prefix of `b`.
fn segs_prefix_of(a: &Vec<Vec<char>>, b: &Vec<Vec<char>>) -> (r: bool)
    ensures
        r == a.deep_view().is_prefix_of(b.deep_view()),
{
    broadcast use lemma_chars_deep_view;

    if a.len() > b.len() {
        return false;
    }
    let mut i: usize = 0;
    while i < a.len()
        invariant
            i <= a@.len(),
            a@.len() <= b@.len(),
            forall|j: int| 0 <= j < i ==> a.deep_view()[j] == b.deep_view()[j],
        decreases a@.len() - i,
    {
        if !chars_eq(&a[i], &b[i]) {
            proof {
                assert(a.deep_view()[i as int] == a@[i as int]@);
                assert(b.deep_view()[i as int] == b@[i as int]@);
                assert(a.deep_view()[i as int] != b.deep_view()[i as int]);
                assert(!a.deep_view().is_prefix_of(b.deep_view()));
            }
            return false;
        }
        i = i + 1;
    }
    proof {
        assert(a.deep_view() =~= b.deep_view().subrange(0, a.deep_view().len() as int));
    }
    true
}

/// Resolve `path`, then confine it to `virtual_root` (POSIX grammar): an
/// absolute path must lie under the root, a relative one is joined onto it.
pub fn absolutize_virtually(path: &str, virtual_root: &str, base: &str) -> (r: Result<
    String,
    AbsolutizeError,
>)
    ensures
        match r {
            Ok(q) => absolutize_virtually_spec(path@, virtual_root@, base@) == Ok::<
                Seq<char>,
                AbsolutizeError,
            >(q@),
            Err(e) => absolutize_virtually_spec(path@, virtual_root@, base@) == Err::<
                Seq<char>,
                AbsolutizeError,
            >(e),
        },
{
    broadcast use lemma_chars_deep_view;

    let vr = normalize(virtual_root, base, true);
    let pd = normalize(path, "", false);
    proof {
        reveal_strlit("");
        assert(""@ =~= Seq::<char>::empty());
    }
    let pdc = chars_of(pd.as_str());
    if pdc.len() > 0 && is_sep_exec(pdc[0], false) {
        let am = path_components(vr.as_str());
        let bm = path_components(pd.as_str());
        let aligned = (!am.0 || bm.0) && (am.1.len() == 0 || am.0 == bm.0);
        if aligned && segs_prefix_of(&am.1, &bm.1) {
            Ok(pd)
        } else {
            Err(AbsolutizeError::InvalidInput)
        }
    } else {
        let vrc = chars_of(vr.as_str());
        let mut out = vrc;
        if out.len() == 0 {
            return Ok(pd);
        }
        if !is_sep_exec(out[out.len() - 1], false) {
            out.push('/');
        }
        let mut i: usize = 0;
        let ghost head = out@;
        while i < pdc.len()
            invariant
                i <= pdc@.len(),
                out@ == head + pdc@.take(i as int),
            decreases pdc@.len() - i,
        {
            out.push(pdc[i]);
            proof {
                assert(head + pdc@.take(i + 1) =~= (head + pdc@.take(i as int)).push(
                    pdc@[i as int],
                ));
            }
            i = i + 1;
        }
        proof {
            assert(pdc@.take(pdc@.len() as int) =~= pdc@);
            assert(out@ =~= join_spec(vr@, pd@));
        }
        Ok(string_of(&out))
    }
}

/// A path text under the POSIX grammar.
#[derive(Debug, Clone)]
pub struct UnixPath {
    text: String,
}

impl View for UnixPath {
    type V = Seq<char>;

    closed spec fn view(&self) -> Seq<char> {
        self.text@
    }
}

impl UnixPath {
    /// A path holding the given text.
    pub fn new(s: &str) -> (r: Self)
        ensures
            r@ == s@,
    {
        UnixPath { text: s.to_owned() }
    }

    /// The text of the path.
    pub fn as_str(&self) -> (r: &str)
        ensures
            r@ == self@,
    {
        self.text.as_str()
    }
}

impl crate::Absolutize for UnixPath {
    open spec fn absolutize_from_spec(p: Seq<char>, base: Seq<char>) -> Seq<char> {
        absolutize_from_spec(p, base)
    }

    open spec fn absolutize_virtually_spec(
        p: Seq<char>,
        virtual_root: Seq<char>,
        base: Seq<char>,
    ) -> Result<Seq<char>, AbsolutizeError> {
        absolutize_virtually_spec(p, virtual_root, base)
    }

    fn absolutize_from(&self, base: &Self) -> (r: Self) {
        UnixPath { text: absolutize_from(self.text.as_str(), base.text.as_str()) }
    }

    fn absolutize_virtually(&self, virtual_root: &Self, base: &Self) -> (r: Result<
        Self,
        AbsolutizeError,
    >) {
        match absolutize_virtually(
            self.text.as_str(),
            virtual_root.text.as_str(),
            base.text.as_str(),
        ) {
            Ok(t) => Ok(UnixPath { text: t }),
            Err(e) => Err(e),
        }
    }
}

// ------------------------------------------------------------------
// Laws.
// ------------------------------------------------------------------

/// The dot-free segments of the text.
pub open spec fn tight_segs(s: Seq<char>) -> Seq<Seq<char>> {
    drop_dots(raw_segments(s, false))
}

/// The rendering of the text's own dot-free segments behind a root: what
/// normalization yields for a rooted, parent-free text.
pub open spec fn tight_render(s: Seq<char>) -> Seq<char> {
    render(Seq::empty(), true, tight_segs(s), '/')
}

/// A rooted text is never shorter than the rendering of its own dot-free
/// segments, and is that rendering exactly when the lengths agree: extra
/// separators and `.` segments always cost text. The last two clauses
/// carry the slack of a trailing separator or `.` segment through the
/// induction.
pub proof fn lemma_rooted_tight(s: Seq<char>)
    requires
        is_rooted(s),
    ensures
        s.len() >= tight_render(s).len(),
        s.len() == tight_render(s).len() ==> s == tight_render(s),
        is_sep(s.last(), false) && s.len() > 1 ==> s.len() >= tight_render(s).len() + 1 && (
        s.len() == tight_render(s).len() + 1 ==> s == tight_render(s) + seq!['/']),
        raw_segments(s, false).len() > 0 && raw_segments(s, false).last() == cur_tok() ==> s.len()
            >= tight_render(s).len() + 1 + (if tight_segs(s).len() > 0 {
            1int
        } else {
            0int
        }) && (s.len() == tight_render(s).len() + 1 + (if tight_segs(s).len() > 0 {
            1int
        } else {
            0int
        }) ==> s == tight_render(s) + (if tight_segs(s).len() > 0 {
            seq!['/']
        } else {
            Seq::<char>::empty()
        }) + cur_tok()),
    decreases s.len(),
{
    if s.len() == 1 {
        assert(raw_segments(s, false) =~= Seq::<Seq<char>>::empty());
        assert(tight_segs(s) =~= Seq::<Seq<char>>::empty());
        assert(tight_render(s) =~= seq!['/']);
        assert(s =~= seq!['/']);
    } else {
        let s0 = s.drop_last();
        let c = s.last();
        assert(s0[0] == s[0]);
        assert(is_rooted(s0));
        lemma_rooted_tight(s0);
        let r0 = raw_segments(s0, false);
        let d0 = tight_segs(s0);
        let t0 = tight_render(s0);
        if is_sep(c, false) {
            // a trailing separator: the segments are unchanged
            assert(raw_segments(s, false) == r0);
            assert(tight_segs(s) == d0);
            assert(tight_render(s) == t0);
            if s0.len() == 1 {
                assert(s0 =~= seq!['/']);
                assert(s0 == t0);
                assert(s =~= t0 + seq!['/']);
            } else if is_sep(s0.last(), false) {
                // already one slack separator behind
            } else {
                if s.len() == tight_render(s).len() + 1 {
                    assert(s0.len() == t0.len());
                    assert(s0 == t0);
                    assert(s =~= t0 + seq!['/']);
                }
            }
            if r0.len() > 0 && r0.last() == cur_tok() {
                // the `.` slack only grows
            }
        } else if is_sep(s[s.len() - 2], false) {
            // a new segment of one character begins
            assert(s0.last() == s[s.len() - 2]);
            assert(raw_segments(s, false) == r0.push(seq![c]));
            assert(raw_segments(s, false).last() == seq![c]);
            if c == '.' {
                assert(seq![c] =~= cur_tok());
                assert(raw_segments(s, false).drop_last() =~= r0);
                assert(tight_segs(s) == d0);
                assert(tight_render(s) == t0);
                if s0.len() == 1 {
                    assert(s0 =~= seq!['/']);
                    assert(s0.drop_last().len() == 0);
                    assert(raw_segments(s0.drop_last(), false) =~= Seq::<Seq<char>>::empty());
                    assert(is_sep(s0.last(), false));
                    assert(r0 =~= Seq::<Seq<char>>::empty());
                    assert(d0 =~= Seq::<Seq<char>>::empty());
                    assert(s =~= t0 + Seq::<char>::empty() + cur_tok());
                } else {
                    assert(is_sep(s0.last(), false));
                    if d0.len() > 0 {
                        if s.len() == tight_render(s).len() + 2 {
                            assert(s0.len() == t0.len() + 1);
                            assert(s0 == t0 + seq!['/']);
                            assert(s =~= t0 + seq!['/'] + cur_tok());
                        }
                    }
                }
            } else {
                assert(seq![c] != cur_tok()) by {
                    assert(seq![c][0] == c);
                }
                assert(tight_segs(s) == d0.push(seq![c])) by {
                    assert(raw_segments(s, false).drop_last() =~= r0);
                }
                lemma_render_push(Seq::empty(), true, d0, seq![c], '/');
                if d0.len() == 0 {
                    assert(tight_render(s).len() == t0.len() + 1);
                    if s0.len() == 1 {
                        assert(s0 =~= seq!['/']);
                        assert(s0 == t0);
                        assert(s =~= t0 + Seq::<char>::empty() + seq![c]);
                        assert(s == tight_render(s));
                    } else {
                        assert(is_sep(s0.last(), false));
                    }
                } else {
                    assert(tight_render(s).len() == t0.len() + 2);
                    if s0.len() == 1 {
                        assert(s0.drop_last().len() == 0);
                        assert(raw_segments(s0.drop_last(), false) =~= Seq::<Seq<char>>::empty());
                        assert(is_sep(s0.last(), false));
                        assert(r0 =~= Seq::<Seq<char>>::empty());
                        assert(false);
                    }
                    assert(is_sep(s0.last(), false));
                    if s.len() == tight_render(s).len() {
                        assert(s0.len() == t0.len() + 1);
                        assert(s0 == t0 + seq!['/']);
                        assert(s =~= t0 + seq!['/'] + seq![c]);
                        assert(s == tight_render(s));
                    }
                }
            }
        } else {
            // the last segment grows by one character
            assert(s0.last() == s[s.len() - 2]);
            assert(!is_sep(s0.last(), false));
            lemma_last_nonsep(s0, false);
            let last0 = r0.last();
            let nl = last0.push(c);
            assert(raw_segments(s, false) == r0.update(r0.len() - 1, nl));
            assert(raw_segments(s, false) =~= r0.drop_last().push(nl));
            let f = r0.drop_last();
            let df = drop_dots(f);
            lemma_raw_segments_shaped(s0, false);
            assert(seg_shape(last0, false));
            assert(nl.len() >= 2);
            assert(nl != cur_tok());
            assert(tight_segs(s) == df.push(nl)) by {
                assert(f.push(nl).drop_last() =~= f);
            }
            assert(raw_segments(s, false).last() == nl);
            if last0 == cur_tok() {
                assert(d0 == df);
                assert(nl.len() == 2);
                lemma_render_push(Seq::empty(), true, df, nl, '/');
                if df.len() == 0 {
                    assert(tight_render(s).len() == t0.len() + 2);
                    if s.len() == tight_render(s).len() {
                        assert(s0.len() == t0.len() + 1);
                        assert(s0 == t0 + Seq::<char>::empty() + cur_tok());
                        assert(s =~= t0 + Seq::<char>::empty() + nl);
                        assert(s == tight_render(s));
                    }
                } else {
                    assert(tight_render(s).len() == t0.len() + 3);
                    if s.len() == tight_render(s).len() {
                        assert(s0.len() == t0.len() + 2);
                        assert(s0 == t0 + seq!['/'] + cur_tok());
                        assert(s =~= (t0 + seq!['/'] + cur_tok()).push(c));
                        assert((t0 + seq!['/'] + cur_tok()).push(c) =~= t0 + seq!['/'] + nl);
                        assert(s == tight_render(s));
                    }
                }
            } else {
                assert(d0 == df.push(last0)) by {
                    assert(f.push(last0) =~= r0);
                }
                assert(tight_segs(s) =~= d0.update(d0.len() - 1, d0.last().push(c)));
                lemma_render_extend(Seq::empty(), true, d0, c, '/');
                assert(tight_render(s) == t0.push(c));
                if s.len() == tight_render(s).len() {
                    assert(s0.len() == t0.len());
                    assert(s0 == t0);
                    assert(s =~= t0.push(c));
                }
            }
        }
    }
}

/// A canonical absolute path: rooted, all segments plain names, and the
/// text is exactly the rendering of those segments — single separators,
/// nothing trailing.
pub open spec fn canonical(s: Seq<char>) -> bool {
    &&& is_rooted(s)
    &&& segs_wf(raw_segments(s, false), false)
    &&& s == render(Seq::empty(), true, raw_segments(s, false), '/')
}

/// The components of a canonical path are its raw segments.
pub proof fn lemma_canonical_components(s: Seq<char>)
    requires
        canonical(s),
    ensures
        components_of(s) == raw_segments(s, false),
        segs_wf(components_of(s), false),
{
    let segs = raw_segments(s, false);
    assert(segs_nocur(segs)) by {
        assert(forall|i: int| 0 <= i < segs.len() ==> seg_wf(#[trigger] segs[i], false));
    }
    lemma_drop_dots_id(segs);
}

/// A canonical path without segments is the root itself.
pub proof fn lemma_canonical_root(s: Seq<char>)
    requires
        canonical(s),
        components_of(s).len() == 0,
    ensures
        s == seq!['/'],
{
    lemma_canonical_components(s);
    assert(render(Seq::empty(), true, raw_segments(s, false), '/') =~= seq!['/']);
}

/// Against a canonical base directory — or the empty one that dot
/// resolution uses — normalization returns canonical absolute paths:
/// always under absolutization against a canonical base, and whenever the
/// result is absolute at all.
pub proof fn lemma_normalize_canonical(p: Seq<char>, base: Seq<char>, resolve_relative: bool)
    requires
        canonical(base) || base == Seq::<char>::empty(),
    ensures
        resolve_relative && canonical(base) ==> is_rooted(normalize_spec(p, base, true)),
        is_rooted(normalize_spec(p, base, resolve_relative)) ==> canonical(
            normalize_spec(p, base, resolve_relative),
        ),
{
    if canonical(base) {
        lemma_canonical_components(base);
    } else {
        assert(raw_segments(base, false) =~= Seq::<Seq<char>>::empty());
        assert(components_of(base) =~= Seq::<Seq<char>>::empty());
    }
    if p.len() == 0 {
    } else {
        let sd = seed(p, base, resolve_relative);
        let ts = fold_segs(sd.segs, sd.rest);
        let r = render(sd.prefix, sd.rooted, ts, '/');
        let segs = raw_segments(p, false);
        lemma_raw_segments_shaped(p, false);
        if !is_rooted(p) {
            lemma_first_segment(p, false);
        }
        // the seeded working list is canonical, and the leftover raw
        // segments are shaped
        assert(segs_wf(sd.segs, false) && sd.prefix == Seq::<char>::empty()) by {
            if !is_rooted(p) {
                lemma_first_segment(p, false);
                let first = segs[0];
                let bs = components_of(base);
                if first == cur_tok() {
                } else if first == par_tok() {
                    if bs.len() > 0 {
                        assert(forall|i: int|
                            0 <= i < bs.len() - 1 ==> bs.drop_last()[i] == bs[i]);
                    } else if canonical(base) {
                        lemma_canonical_root(base);
                    }
                } else {
                    if resolve_relative {
                        assert(seg_wf(first, false));
                        assert forall|i: int|
                            0 <= i < bs.push(first).len() implies seg_wf(
                            #[trigger] bs.push(first)[i],
                            false,
                        ) by {
                            if i < bs.len() {
                                assert(bs.push(first)[i] == bs[i]);
                            } else {
                                assert(bs.push(first)[i] == first);
                            }
                        }
                    } else {
                        assert(seg_wf(first, false));
                        assert(seq![first][0] == first);
                    }
                }
            }
        }
        assert forall|i: int| 0 <= i < sd.rest.len() implies seg_shape(
            #[trigger] sd.rest[i],
            false,
        ) by {
            if is_rooted(p) {
                assert(sd.rest[i] == segs[i]);
            } else {
                assert(sd.rest[i] == segs[i + 1]);
            }
        }
        lemma_fold_wf(sd.segs, sd.rest, false);
        assert(segs_shaped(ts, false)) by {
            assert(forall|i: int| 0 <= i < ts.len() ==> seg_wf(#[trigger] ts[i], false));
        }
        if !sd.rooted {
            // an unrooted rendering stays unrooted: nothing is claimed
            lemma_render_head(ts, false, '/', false);
        }
        // the rendering of the folded list is canonical when rooted
        if sd.rooted {
            lemma_render_head(ts, true, '/', false);
            assert(render(Seq::empty(), true, ts, '/') =~= seq!['/'] + join_segments(ts, '/'));
            lemma_raw_of_render(seq!['/'], ts, '/', false);
            assert(canonical(r));
        }
        if !(sd.changed || contains_par(sd.rest) || r.len() != p.len()) {
            // a relative echoed input claims nothing: its text stays
            // relative
        }
        if !(sd.changed || contains_par(sd.rest) || r.len() != p.len()) && is_rooted(p) {
            // the echoed input: nothing was resolved, and the rendering is
            // as long as the text, so the text is that rendering
            assert(sd.rooted && sd.segs == Seq::<Seq<char>>::empty() && sd.rest == segs);
            lemma_fold_no_par(Seq::empty(), segs);
            assert(ts =~= drop_dots(segs));
            lemma_rooted_tight(p);
            assert(r == tight_render(p));
            assert(p == tight_render(p));
            // its raw segments are dot-free, hence canonical
            lemma_drop_dots_shape(segs, false);
            lemma_render_head(tight_segs(p), true, '/', false);
            assert(render(Seq::empty(), true, tight_segs(p), '/') =~= seq!['/'] + join_segments(
                tight_segs(p),
                '/',
            ));
            lemma_raw_of_render(seq!['/'], tight_segs(p), '/', false);
            assert(raw_segments(p, false) == tight_segs(p));
            assert(segs_wf(raw_segments(p, false), false)) by {
                lemma_contains_par_iff(segs);
                assert(forall|i: int|
                    0 <= i < segs.len() ==> seg_shape(#[trigger] segs[i], false));
                assert(forall|i: int| 0 <= i < segs.len() ==> segs[i] != par_tok());
                assert(segs_nocur(tight_segs(p)));
            }
            assert(canonical(p));
        }
        if sd.changed || contains_par(sd.rest) || r.len() != p.len() {
            // the result is the rendering
            if resolve_relative && canonical(base) {
                assert(sd.rooted) by {
                    if !is_rooted(p) {
                        let bs = components_of(base);
                        if segs[0] == par_tok() && bs.len() == 0 {
                            lemma_canonical_root(base);
                        }
                    }
                }
            }
        }
    }
}

/// No-op fast path: a path already in canonical absolute form absolutizes
/// to itself, against any base directory.
pub proof fn lemma_no_op_fast_path(p: Seq<char>, base: Seq<char>)
    requires
        canonical(p),
    ensures
        absolutize_from_spec(p, base) == p,
{
    let segs = raw_segments(p, false);
    let sd = seed(p, base, true);
    assert(segs_plain(segs)) by {
        assert(forall|i: int| 0 <= i < segs.len() ==> seg_wf(#[trigger] segs[i], false));
    }
    lemma_fold_plain(Seq::empty(), segs);
    assert(fold_segs(Seq::empty(), segs) =~= segs);
    lemma_plain_no_par(segs);
    assert(render(sd.prefix, sd.rooted, fold_segs(sd.segs, sd.rest), '/') == p);
}

/// Idempotence: absolutizing what absolutization returned changes nothing,
/// whatever base directory either call uses, as long as the first base is
/// a canonical absolute path — the base-directory invariant, without which
/// the law fails: a base such as `/a//b` or `/x/../y` passes its own
/// redundancy into the first result, which then resolves further.
pub proof fn lemma_absolutize_idempotent(p: Seq<char>, base: Seq<char>, base2: Seq<char>)
    requires
        canonical(base),
    ensures
        absolutize_from_spec(absolutize_from_spec(p, base), base2) == absolutize_from_spec(
            p,
            base,
        ),
{
    lemma_normalize_canonical(p, base, true);
    lemma_no_op_fast_path(absolutize_from_spec(p, base), base2);
}

/// Root floor: an absolute path of parent markers alone resolves to the
/// root itself; `..` never climbs past it.
pub proof fn lemma_root_floor(p: Seq<char>, base: Seq<char>)
    requires
        is_rooted(p),
        forall|i: int|
            0 <= i < raw_segments(p, false).len() ==> raw_segments(p, false)[i] == par_tok(),
    ensures
        absolutize_from_spec(p, base) == seq!['/'],
{
    let segs = raw_segments(p, false);
    let sd = seed(p, base, true);
    lemma_fold_pars_floor(segs);
    let r = render(sd.prefix, sd.rooted, fold_segs(sd.segs, sd.rest), '/');
    assert(r =~= seq!['/']);
    if !(sd.changed || contains_par(sd.rest) || r.len() != p.len()) {
        assert(p.len() == 1);
        assert(p =~= seq!['/']);
    }
}

/// Dot resolution of an absolute path pays no regard to the base
/// directory.
pub proof fn lemma_absolute_ignores_base(p: Seq<char>, base1: Seq<char>, base2: Seq<char>)
    requires
        is_rooted(p),
    ensures
        absolutize_from_spec(p, base1) == absolutize_from_spec(p, base2),
{
    assert(seed(p, base1, true) == seed(p, base2, true));
}

/// Virtual-root containment: against a canonical base directory, the
/// virtual-root resolution either fails with the input error or returns a
/// path whose text starts with the resolved root's text. The canonical
/// base is the base-directory invariant, and necessary: a base such as
/// `//` with an empty root resolves to a root text that is no textual
/// prefix of what it contains.
pub proof fn lemma_virtually_contained(p: Seq<char>, virtual_root: Seq<char>, base: Seq<char>)
    requires
        canonical(base),
    ensures
        match absolutize_virtually_spec(p, virtual_root, base) {
            Ok(q) => absolutize_from_spec(virtual_root, base).is_prefix_of(q),
            Err(e) => e == AbsolutizeError::InvalidInput,
        },
{
    let vr = absolutize_from_spec(virtual_root, base);
    let pd = parse_dot_spec(p);
    lemma_normalize_canonical(virtual_root, base, true);
    lemma_canonical_components(vr);
    if is_rooted(pd) {
        if starts_with_spec(vr, pd) {
            lemma_normalize_canonical(p, Seq::empty(), false);
            lemma_canonical_components(pd);
            lemma_render_prefix(Seq::empty(), true, components_of(vr), components_of(pd), '/');
        }
    } else {
        let q = join_spec(vr, pd);
        assert(vr.is_prefix_of(q)) by {
            if vr.len() == 0 {
                assert(vr =~= q.subrange(0, 0));
            } else if is_sep(vr.last(), false) {
                assert(vr =~= (vr + pd).subrange(0, vr.len() as int));
            } else {
                assert(vr =~= (vr + seq!['/'] + pd).subrange(0, vr.len() as int));
            }
        }
    }
}

} // verus!
