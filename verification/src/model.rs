//! The shared component model.
//!
//! A path text is split into *segments*, the maximal runs of non-separator
//! characters. Normalization keeps a working list of segments: a `.` segment
//! is dropped, a `..` segment removes the last kept segment (and is a no-op
//! at the floor, so a root or prefix in front of the list is never touched),
//! and any other segment is appended. Rendering joins the kept segments
//! with single separators behind the optional prefix and root marker.

use vstd::prelude::*;

verus! {

/// Whether `c` separates segments: `/` everywhere, and `\` on Windows.
pub open spec fn is_sep(c: char, windows: bool) -> bool {
    c == '/' || (windows && c == '\\')
}

/// The text of a current-directory segment.
pub open spec fn cur_tok() -> Seq<char> {
    seq!['.']
}

/// The text of a parent-directory segment.
pub open spec fn par_tok() -> Seq<char> {
    seq!['.', '.']
}

/// The maximal runs of non-separator characters of `s`, in order.
pub open spec fn raw_segments(s: Seq<char>, windows: bool) -> Seq<Seq<char>>
    decreases s.len(),
{
    if s.len() == 0 {
        Seq::empty()
    } else {
        let init = raw_segments(s.drop_last(), windows);
        let c = s.last();
        if is_sep(c, windows) {
            init
        } else if s.len() == 1 || is_sep(s[s.len() - 2], windows) {
            init.push(seq![c])
        } else {
            init.update(init.len() - 1, init.last().push(c))
        }
    }
}

/// `segs` with every `.` segment removed.
pub open spec fn drop_dots(segs: Seq<Seq<char>>) -> Seq<Seq<char>>
    decreases segs.len(),
{
    if segs.len() == 0 {
        Seq::empty()
    } else {
        let init = drop_dots(segs.drop_last());
        if segs.last() == cur_tok() {
            init
        } else {
            init.push(segs.last())
        }
    }
}

/// The segments a path contributes to the working list: a leading `.`
/// segment survives when the grammar classifies it as a current-directory
/// marker, and every other `.` segment is dropped.
pub open spec fn kept_segments(segs: Seq<Seq<char>>, lead_cur: bool) -> Seq<Seq<char>> {
    if lead_cur {
        seq![cur_tok()] + drop_dots(segs.subrange(1, segs.len() as int))
    } else {
        drop_dots(segs)
    }
}

/// One normalization step on the working list.
pub open spec fn step_segs(segs: Seq<Seq<char>>, seg: Seq<char>) -> Seq<Seq<char>> {
    if seg == cur_tok() {
        segs
    } else if seg == par_tok() {
        if segs.len() > 0 {
            segs.drop_last()
        } else {
            segs
        }
    } else {
        segs.push(seg)
    }
}

/// The working list after every segment of `rest` has been applied.
pub open spec fn fold_segs(init: Seq<Seq<char>>, rest: Seq<Seq<char>>) -> Seq<Seq<char>>
    decreases rest.len(),
{
    if rest.len() == 0 {
        init
    } else {
        step_segs(fold_segs(init, rest.drop_last()), rest.last())
    }
}

/// Whether any segment of `segs` is a parent-directory marker; exactly then
/// does normalization count as a change beyond the seeding of the list.
pub open spec fn contains_par(segs: Seq<Seq<char>>) -> bool
    decreases segs.len(),
{
    if segs.len() == 0 {
        false
    } else {
        contains_par(segs.drop_last()) || segs.last() == par_tok()
    }
}

/// `segs` joined by single separators.
pub open spec fn join_segments(segs: Seq<Seq<char>>, sep: char) -> Seq<char>
    decreases segs.len(),
{
    if segs.len() == 0 {
        Seq::empty()
    } else if segs.len() == 1 {
        segs[0]
    } else {
        join_segments(segs.drop_last(), sep) + seq![sep] + segs.last()
    }
}

/// The text of a path with the given prefix, root marker and segments.
pub open spec fn render(prefix: Seq<char>, rooted: bool, segs: Seq<Seq<char>>, sep: char) -> Seq<
    char,
> {
    prefix + (if rooted {
        seq![sep]
    } else {
        Seq::empty()
    }) + join_segments(segs, sep)
}

/// The outcome of seeding the working list from a path's first component
/// and the base directory: the retained prefix and root marker, the seeded
/// segments, whether seeding already changed the path, and the raw segments
/// still to be applied.
pub struct Seeded {
    pub prefix: Seq<char>,
    pub rooted: bool,
    pub segs: Seq<Seq<char>>,
    pub changed: bool,
    pub rest: Seq<Seq<char>>,
}

// ------------------------------------------------------------------
// Executable counterparts.
// ------------------------------------------------------------------

/// A `Vec<char>` and its view hold the same characters.
pub broadcast proof fn lemma_chars_deep_view(v: Vec<char>)
    ensures
        #[trigger] v.deep_view() == v@,
{
    assert(v.deep_view() =~= v@);
}

/// Whether `c` separates segments (executable form of [`is_sep`]).
pub fn is_sep_exec(c: char, windows: bool) -> (r: bool)
    ensures
        r == is_sep(c, windows),
{
    c == '/' || (windows && c == '\\')
}

/// Whether `v` is a `.` segment.
pub fn is_cur(v: &Vec<char>) -> (r: bool)
    ensures
        r == (v@ == cur_tok()),
{
    if v.len() == 1 && v[0] == '.' {
        proof {
            assert(v@ =~= cur_tok());
        }
        true
    } else {
        proof {
            if v@.len() == 1 {
                assert(v@[0] != cur_tok()[0]);
            }
        }
        false
    }
}

/// Whether `v` is a `..` segment.
pub fn is_par(v: &Vec<char>) -> (r: bool)
    ensures
        r == (v@ == par_tok()),
{
    if v.len() == 2 && v[0] == '.' && v[1] == '.' {
        proof {
            assert(v@ =~= par_tok());
        }
        true
    } else {
        proof {
            if v@.len() == 2 && v@ != par_tok() {
                assert(v@[0] != par_tok()[0] || v@[1] != par_tok()[1]);
            }
        }
        false
    }
}

/// An owned copy of a segment.
pub fn copy_seg(v: &Vec<char>) -> (r: Vec<char>)
    ensures
        r@ == v@,
{
    let mut r: Vec<char> = Vec::new();
    let mut i: usize = 0;
    while i < v.len()
        invariant
            i <= v.len(),
            r@ == v@.take(i as int),
        decreases v.len() - i,
    {
        r.push(v[i]);
        proof {
            assert(v@.take(i + 1 as int) =~= v@.take(i as int).push(v@[i as int]));
        }
        i = i + 1;
    }
    proof {
        assert(r@ =~= v@);
    }
    r
}

/// The maximal non-separator runs of `cs[from..]` (executable form of
/// [`raw_segments`] on the suffix).
pub fn split_segments(cs: &Vec<char>, from: usize, windows: bool) -> (r: Vec<Vec<char>>)
    requires
        from <= cs@.len(),
    ensures
        r.deep_view() == raw_segments(cs@.subrange(from as int, cs@.len() as int), windows),
{
    broadcast use lemma_chars_deep_view;

    let ghost s = cs@.subrange(from as int, cs@.len() as int);
    let mut segs: Vec<Vec<char>> = Vec::new();
    let mut cur: Vec<char> = Vec::new();
    let mut i: usize = from;
    while i < cs.len()
        invariant
            from <= i <= cs@.len(),
            s == cs@.subrange(from as int, cs@.len() as int),
            cur@.len() == 0 ==> raw_segments(s.take(i - from), windows) == segs.deep_view(),
            cur@.len() == 0 ==> i == from || is_sep(cs@[i - 1], windows),
            cur@.len() > 0 ==> raw_segments(s.take(i - from), windows) == segs.deep_view().push(
                cur@,
            ),
            cur@.len() > 0 ==> i > from && !is_sep(cs@[i - 1], windows),
        decreases cs@.len() - i,
    {
        broadcast use lemma_chars_deep_view;

        let c = cs[i];
        let ghost pre_segs = segs.deep_view();
        let ghost pre_cur = cur@;
        proof {
            assert(s.take(i + 1 - from).drop_last() =~= s.take(i - from));
            assert(s.take(i + 1 - from).last() == cs@[i as int]);
        }
        if is_sep_exec(c, windows) {
            if cur.len() > 0 {
                segs.push(cur);
                cur = Vec::new();
                proof {
                    assert(segs.deep_view() =~= pre_segs.push(pre_cur));
                }
            }
        } else {
            if cur.len() == 0 {
                cur.push(c);
                proof {
                    assert(cur@ =~= seq![cs@[i as int]]);
                    assert(raw_segments(s.take(i + 1 - from), windows) == pre_segs.push(cur@));
                }
            } else {
                cur.push(c);
                proof {
                    let t = raw_segments(s.take(i + 1 - from), windows);
                    let before = pre_segs.push(pre_cur);
                    assert(t == before.update(before.len() - 1, before.last().push(cs@[i as int])));
                    assert(t =~= pre_segs.push(cur@));
                }
            }
        }
        i = i + 1;
    }
    proof {
        assert(s.take(cs@.len() - from) =~= s);
    }
    if cur.len() > 0 {
        let ghost pre_segs = segs.deep_view();
        let ghost pre_cur = cur@;
        segs.push(cur);
        proof {
            assert(segs.deep_view() =~= pre_segs.push(pre_cur));
        }
    }
    segs
}

/// The kept segments of a path body (executable form of [`kept_segments`]).
pub fn kept_segments_exec(segs: &Vec<Vec<char>>, lead_cur: bool) -> (r: Vec<Vec<char>>)
    requires
        lead_cur ==> segs@.len() > 0 && segs.deep_view()[0] == cur_tok(),
    ensures
        r.deep_view() == kept_segments(segs.deep_view(), lead_cur),
{
    broadcast use lemma_chars_deep_view;

    let ghost sv = segs.deep_view();
    let mut r: Vec<Vec<char>> = Vec::new();
    let mut i: usize = 0;
    if lead_cur {
        r.push(copy_seg(&segs[0]));
        i = 1;
        proof {
            assert(sv.subrange(1, 1) =~= Seq::<Seq<char>>::empty());
            assert(r.deep_view() =~= seq![cur_tok()] + drop_dots(sv.subrange(1, 1)));
        }
    }
    let ghost k = i as int;
    while i < segs.len()
        invariant
            k <= i <= segs@.len(),
            k == 0 || k == 1,
            sv == segs.deep_view(),
            lead_cur ==> k == 1 && r.deep_view() == seq![cur_tok()] + drop_dots(
                sv.subrange(1, i as int),
            ),
            !lead_cur ==> k == 0 && r.deep_view() == drop_dots(sv.subrange(0, i as int)),
        decreases segs@.len() - i,
    {
        broadcast use lemma_chars_deep_view;

        let ghost pre = r.deep_view();
        proof {
            assert(sv.subrange(k, i + 1).drop_last() =~= sv.subrange(k, i as int));
            assert(sv.subrange(k, i + 1).last() == sv[i as int]);
            assert(segs@[i as int].deep_view() == sv[i as int]);
        }
        if !is_cur(&segs[i]) {
            r.push(copy_seg(&segs[i]));
            proof {
                assert(r.deep_view() =~= pre.push(sv[i as int]));
            }
        }
        i = i + 1;
    }
    proof {
        if k == 0 {
            assert(sv.subrange(0, sv.len() as int) =~= sv);
        } else {
            assert(sv.subrange(1, sv.len() as int) =~= sv.subrange(1, i as int));
        }
    }
    r
}

/// Apply the segments of `rest` from index `start` on to the working list
/// `tokens`; the result says whether any of them was a `..` segment.
pub fn fold_exec(tokens: &mut Vec<Vec<char>>, rest: &Vec<Vec<char>>, start: usize) -> (changed:
    bool)
    requires
        start <= rest@.len(),
    ensures
        final(tokens).deep_view() == fold_segs(
            old(tokens).deep_view(),
            rest.deep_view().subrange(start as int, rest.deep_view().len() as int),
        ),
        changed == contains_par(
            rest.deep_view().subrange(start as int, rest.deep_view().len() as int),
        ),
{
    broadcast use lemma_chars_deep_view;

    let ghost rv = rest.deep_view();
    let ghost init = tokens.deep_view();
    let mut changed = false;
    let mut i: usize = start;
    while i < rest.len()
        invariant
            start <= i <= rest@.len(),
            rv == rest.deep_view(),
            tokens.deep_view() == fold_segs(init, rv.subrange(start as int, i as int)),
            changed == contains_par(rv.subrange(start as int, i as int)),
        decreases rest@.len() - i,
    {
        broadcast use lemma_chars_deep_view;

        let ghost pre = tokens.deep_view();
        proof {
            assert(rv.subrange(start as int, i + 1).drop_last() =~= rv.subrange(
                start as int,
                i as int,
            ));
            assert(rv.subrange(start as int, i + 1).last() == rv[i as int]);
            assert(rest@[i as int].deep_view() == rv[i as int]);
        }
        if is_cur(&rest[i]) {
            // a `.` inside the path changes nothing
        } else if is_par(&rest[i]) {
            if tokens.len() > 0 {
                tokens.pop();
                proof {
                    assert(tokens.deep_view() =~= pre.drop_last());
                }
            }
            changed = true;
        } else {
            tokens.push(copy_seg(&rest[i]));
            proof {
                assert(tokens.deep_view() =~= pre.push(rv[i as int]));
            }
        }
        i = i + 1;
    }
    proof {
        assert(rv.subrange(start as int, rv.len() as int) =~= rv.subrange(start as int, i as int));
    }
    changed
}

/// Build the text of a path from its prefix, root marker and segments
/// (executable form of [`render`]).
pub fn render_exec(prefix: &Vec<char>, rooted: bool, segs: &Vec<Vec<char>>, sep: char) -> (r: Vec<
    char,
>)
    ensures
        r@ == render(prefix@, rooted, segs.deep_view(), sep),
{
    broadcast use lemma_chars_deep_view;

    let ghost sv = segs.deep_view();
    let mut r = copy_seg(prefix);
    if rooted {
        r.push(sep);
    }
    let ghost head = r@;
    proof {
        assert(head =~= prefix@ + (if rooted {
            seq![sep]
        } else {
            Seq::<char>::empty()
        }));
    }
    let mut i: usize = 0;
    while i < segs.len()
        invariant
            i <= segs@.len(),
            sv == segs.deep_view(),
            head == prefix@ + (if rooted {
                seq![sep]
            } else {
                Seq::<char>::empty()
            }),
            r@ == head + join_segments(sv.take(i as int), sep),
        decreases segs@.len() - i,
    {
        broadcast use lemma_chars_deep_view;

        proof {
            assert(sv.take(i + 1).drop_last() =~= sv.take(i as int));
            assert(sv.take(i + 1).last() == sv[i as int]);
            assert(segs@[i as int].deep_view() == sv[i as int]);
        }
        if i > 0 {
            r.push(sep);
        }
        let seg = copy_seg(&segs[i]);
        let mut j: usize = 0;
        let ghost mid = r@;
        while j < seg.len()
            invariant
                j <= seg@.len(),
                seg@ == sv[i as int],
                0 <= i < sv.len(),
                r@ == mid + sv[i as int].take(j as int),
            decreases seg@.len() - j,
        {
            r.push(seg[j]);
            proof {
                assert(mid + sv[i as int].take(j + 1) =~= (mid + sv[i as int].take(j as int)).push(
                    sv[i as int][j as int],
                ));
            }
            j = j + 1;
        }
        proof {
            assert(sv[i as int].take(sv[i as int].len() as int) =~= sv[i as int]);
            if i == 0 {
                assert(join_segments(sv.take(1), sep) == sv[0]);
                assert(r@ =~= head + join_segments(sv.take(1), sep));
            } else {
                assert(r@ =~= head + (join_segments(sv.take(i as int), sep) + seq![sep]
                    + sv[i as int]));
            }
        }
        i = i + 1;
    }
    proof {
        assert(sv.take(sv.len() as int) =~= sv);
        assert(r@ =~= render(prefix@, rooted, sv, sep));
    }
    r
}

// ------------------------------------------------------------------
// Lemmas about segments, folding and rendering.
// ------------------------------------------------------------------

/// A segment as the splitter produces it: nonempty and separator-free.
pub open spec fn seg_shape(seg: Seq<char>, windows: bool) -> bool {
    seg.len() > 0 && (forall|k: int| 0 <= k < seg.len() ==> !is_sep(seg[k], windows))
}

/// A segment of a canonical path: shaped, and not a dot marker.
pub open spec fn seg_wf(seg: Seq<char>, windows: bool) -> bool {
    seg_shape(seg, windows) && seg != cur_tok() && seg != par_tok()
}

/// Every segment of the list is shaped.
pub open spec fn segs_shaped(segs: Seq<Seq<char>>, windows: bool) -> bool {
    forall|i: int| 0 <= i < segs.len() ==> seg_shape(segs[i], windows)
}

/// Every segment of the list is canonical.
pub open spec fn segs_wf(segs: Seq<Seq<char>>, windows: bool) -> bool {
    forall|i: int| 0 <= i < segs.len() ==> seg_wf(segs[i], windows)
}

/// No segment of the list is a dot marker.
pub open spec fn segs_plain(segs: Seq<Seq<char>>) -> bool {
    forall|i: int| 0 <= i < segs.len() ==> segs[i] != cur_tok() && segs[i] != par_tok()
}

/// A nonempty text that does not start with a separator has a segment.
pub proof fn lemma_first_segment(s: Seq<char>, windows: bool)
    requires
        s.len() > 0,
        !is_sep(s[0], windows),
    ensures
        raw_segments(s, windows).len() > 0,
    decreases s.len(),
{
    if s.len() > 1 {
        assert(s.drop_last()[0] == s[0]);
        lemma_first_segment(s.drop_last(), windows);
    }
}

/// A text whose last character is no separator ends inside a segment.
pub proof fn lemma_last_nonsep(s: Seq<char>, windows: bool)
    requires
        s.len() > 0,
        !is_sep(s.last(), windows),
    ensures
        raw_segments(s, windows).len() > 0,
    decreases s.len(),
{
    if !(s.len() == 1 || is_sep(s[s.len() - 2], windows)) {
        assert(s.drop_last().last() == s[s.len() - 2]);
        lemma_last_nonsep(s.drop_last(), windows);
    }
}

/// What the splitter produces is shaped.
pub proof fn lemma_raw_segments_shaped(s: Seq<char>, windows: bool)
    ensures
        segs_shaped(raw_segments(s, windows), windows),
    decreases s.len(),
{
    if s.len() > 0 {
        lemma_raw_segments_shaped(s.drop_last(), windows);
        let init = raw_segments(s.drop_last(), windows);
        let c = s.last();
        if is_sep(c, windows) {
        } else if s.len() == 1 || is_sep(s[s.len() - 2], windows) {
            assert forall|i: int|
                0 <= i < raw_segments(s, windows).len() implies seg_shape(
                raw_segments(s, windows)[i],
                windows,
            ) by {
                if i < init.len() {
                    assert(raw_segments(s, windows)[i] == init[i]);
                } else {
                    assert(raw_segments(s, windows)[i] == seq![c]);
                }
            }
        } else {
            assert(s.drop_last().last() == s[s.len() - 2]);
            lemma_last_nonsep(s.drop_last(), windows);
            assert forall|i: int|
                0 <= i < raw_segments(s, windows).len() implies seg_shape(
                raw_segments(s, windows)[i],
                windows,
            ) by {
                if i < init.len() - 1 {
                    assert(raw_segments(s, windows)[i] == init[i]);
                } else {
                    assert(i == init.len() - 1);
                    assert(raw_segments(s, windows)[i] == init.last().push(c));
                    assert(seg_shape(init.last(), windows));
                    assert forall|k: int|
                        0 <= k < init.last().push(c).len() implies !is_sep(
                        init.last().push(c)[k],
                        windows,
                    ) by {
                        if k < init.last().len() {
                            assert(init.last().push(c)[k] == init.last()[k]);
                        } else {
                            assert(init.last().push(c)[k] == c);
                        }
                    }
                }
            }
        }
    }
}

/// Folding segments that are no dot markers appends them all.
pub proof fn lemma_fold_plain(init: Seq<Seq<char>>, rest: Seq<Seq<char>>)
    requires
        segs_plain(rest),
    ensures
        fold_segs(init, rest) == init + rest,
    decreases rest.len(),
{
    if rest.len() == 0 {
        assert(init + rest =~= init);
    } else {
        assert(segs_plain(rest.drop_last()));
        lemma_fold_plain(init, rest.drop_last());
        assert(rest.last() != cur_tok() && rest.last() != par_tok());
        assert(fold_segs(init, rest) == (init + rest.drop_last()).push(rest.last()));
        assert((init + rest.drop_last()).push(rest.last()) =~= init + rest);
    }
}

/// A list without dot markers has no parent marker.
pub proof fn lemma_plain_no_par(segs: Seq<Seq<char>>)
    requires
        segs_plain(segs),
    ensures
        !contains_par(segs),
    decreases segs.len(),
{
    if segs.len() > 0 {
        assert(segs_plain(segs.drop_last()));
        lemma_plain_no_par(segs.drop_last());
    }
}

/// Folding preserves canonical segments: what is pushed is no dot marker,
/// and came shaped out of the splitter.
pub proof fn lemma_fold_wf(init: Seq<Seq<char>>, rest: Seq<Seq<char>>, windows: bool)
    requires
        segs_wf(init, windows),
        segs_shaped(rest, windows),
    ensures
        segs_wf(fold_segs(init, rest), windows),
    decreases rest.len(),
{
    if rest.len() > 0 {
        assert(segs_shaped(rest.drop_last(), windows)) by {
            assert(forall|i: int|
                0 <= i < rest.len() - 1 ==> rest.drop_last()[i] == rest[i]);
        }
        lemma_fold_wf(init, rest.drop_last(), windows);
        let f = fold_segs(init, rest.drop_last());
        let last = rest.last();
        if last == cur_tok() {
        } else if last == par_tok() {
            if f.len() > 0 {
                assert(forall|i: int| 0 <= i < f.len() - 1 ==> f.drop_last()[i] == f[i]);
            }
        } else {
            assert(seg_shape(last, windows));
            assert(seg_wf(last, windows));
            assert forall|i: int|
                0 <= i < f.push(last).len() implies seg_wf(f.push(last)[i], windows) by {
                if i < f.len() {
                    assert(f.push(last)[i] == f[i]);
                } else {
                    assert(f.push(last)[i] == last);
                }
            }
        }
    }
}

/// Splitting after a separator and a shaped segment appends that segment.
pub proof fn lemma_raw_after_sep(x: Seq<char>, seg: Seq<char>, sep: char, windows: bool)
    requires
        is_sep(sep, windows),
        seg_shape(seg, windows),
    ensures
        raw_segments(x + seq![sep] + seg, windows) == raw_segments(x, windows).push(seg),
    decreases seg.len(),
{
    let s = x + seq![sep] + seg;
    if seg.len() == 1 {
        assert(s.drop_last() =~= x + seq![sep]);
        assert((x + seq![sep]).last() == sep);
        assert((x + seq![sep]).drop_last() =~= x);
        assert(s.last() == seg[0]);
        assert(!is_sep(s.last(), windows));
        assert(s[s.len() - 2] == sep);
        assert(raw_segments(s, windows) == raw_segments(x + seq![sep], windows).push(
            seq![seg[0]],
        ));
        assert(seq![seg[0]] =~= seg);
    } else {
        let seg0 = seg.drop_last();
        assert(seg_shape(seg0, windows)) by {
            assert(forall|k: int| 0 <= k < seg0.len() ==> seg0[k] == seg[k]);
        }
        lemma_raw_after_sep(x, seg0, sep, windows);
        assert(s.drop_last() =~= x + seq![sep] + seg0);
        assert(s.last() == seg.last());
        assert(!is_sep(s.last(), windows));
        assert(s[s.len() - 2] == seg[seg.len() - 2]);
        assert(!is_sep(s[s.len() - 2], windows));
        let init = raw_segments(x, windows).push(seg0);
        assert(raw_segments(s, windows) == init.update(init.len() - 1, init.last().push(
            seg.last(),
        )));
        assert(seg0.push(seg.last()) =~= seg);
        assert(init.update(init.len() - 1, seg) =~= raw_segments(x, windows).push(seg));
    }
}

/// A shaped segment splits to itself.
pub proof fn lemma_raw_single(seg: Seq<char>, windows: bool)
    requires
        seg_shape(seg, windows),
    ensures
        raw_segments(seg, windows) == seq![seg],
    decreases seg.len(),
{
    if seg.len() == 1 {
        assert(seg.drop_last().len() == 0);
        assert(raw_segments(seg, windows) == raw_segments(seg.drop_last(), windows).push(
            seq![seg.last()],
        ));
        assert(seq![seg.last()] =~= seg);
        assert(raw_segments(seg, windows) =~= seq![seg]);
    } else {
        let seg0 = seg.drop_last();
        assert(seg_shape(seg0, windows)) by {
            assert(forall|k: int| 0 <= k < seg0.len() ==> seg0[k] == seg[k]);
        }
        lemma_raw_single(seg0, windows);
        assert(!is_sep(seg.last(), windows));
        assert(!is_sep(seg[seg.len() - 2], windows));
        let init = seq![seg0];
        assert(raw_segments(seg, windows) == init.update(0, seg0.push(seg.last())));
        assert(seg0.push(seg.last()) =~= seg);
        assert(init.update(0, seg) =~= seq![seg]);
    }
}

/// A text of separators alone splits to nothing.
pub proof fn lemma_raw_seps(s: Seq<char>, windows: bool)
    requires
        forall|k: int| 0 <= k < s.len() ==> is_sep(s[k], windows),
    ensures
        raw_segments(s, windows) == Seq::<Seq<char>>::empty(),
    decreases s.len(),
{
    if s.len() > 0 {
        assert(forall|k: int| 0 <= k < s.len() - 1 ==> s.drop_last()[k] == s[k]);
        lemma_raw_seps(s.drop_last(), windows);
    }
}

/// Splitting the rendering of shaped segments gives them back.
pub proof fn lemma_raw_of_render(
    head: Seq<char>,
    segs: Seq<Seq<char>>,
    sep: char,
    windows: bool,
)
    requires
        is_sep(sep, windows),
        forall|k: int| 0 <= k < head.len() ==> is_sep(head[k], windows),
        segs_shaped(segs, windows),
    ensures
        raw_segments(head + join_segments(segs, sep), windows) == segs,
    decreases segs.len(),
{
    if segs.len() == 0 {
        assert(head + join_segments(segs, sep) =~= head);
        lemma_raw_seps(head, windows);
    } else if segs.len() == 1 {
        assert(seg_shape(segs[0], windows));
        if head.len() == 0 {
            assert(head + join_segments(segs, sep) =~= segs[0]);
            lemma_raw_single(segs[0], windows);
            assert(raw_segments(segs[0], windows) =~= segs);
        } else {
            let head0 = head.drop_last();
            assert(forall|k: int| 0 <= k < head0.len() ==> is_sep(head0[k], windows));
            assert(head + join_segments(segs, sep) =~= head0 + seq![head.last()] + segs[0]);
            lemma_raw_after_sep(head0, segs[0], head.last(), windows);
            lemma_raw_seps(head0, windows);
            assert(raw_segments(head0, windows).push(segs[0]) =~= segs);
        }
    } else {
        let front = segs.drop_last();
        assert(segs_shaped(front, windows)) by {
            assert(forall|i: int| 0 <= i < front.len() ==> front[i] == segs[i]);
        }
        lemma_raw_of_render(head, front, sep, windows);
        assert(head + join_segments(segs, sep) =~= (head + join_segments(front, sep))
            + seq![sep] + segs.last());
        assert(seg_shape(segs.last(), windows));
        lemma_raw_after_sep(head + join_segments(front, sep), segs.last(), sep, windows);
        assert(raw_segments(head + join_segments(front, sep), windows).push(segs.last())
            =~= segs);
    }
}

/// A rendering of shaped segments starts as its root says: with the
/// separator when rooted, with the first segment's first character when
/// not, and it is empty exactly when it is unrooted and has no segments.
pub proof fn lemma_render_head(segs: Seq<Seq<char>>, rooted: bool, sep: char, windows: bool)
    requires
        is_sep(sep, windows),
        segs_shaped(segs, windows),
    ensures
        rooted ==> render(Seq::empty(), rooted, segs, sep).len() > 0 && render(
            Seq::empty(),
            rooted,
            segs,
            sep,
        )[0] == sep,
        !rooted && segs.len() > 0 ==> render(Seq::empty(), rooted, segs, sep).len() > 0
            && !is_sep(render(Seq::empty(), rooted, segs, sep)[0], windows),
        !rooted && segs.len() == 0 ==> render(Seq::empty(), rooted, segs, sep).len() == 0,
    decreases segs.len(),
{
    let r = render(Seq::empty(), rooted, segs, sep);
    if rooted {
        assert(r[0] == sep);
    } else if segs.len() == 1 {
        assert(r =~= segs[0]);
        assert(seg_shape(segs[0], windows));
    } else if segs.len() > 1 {
        lemma_render_head(segs.drop_last(), rooted, sep, windows);
        assert(segs_shaped(segs.drop_last(), windows)) by {
            assert(forall|i: int|
                0 <= i < segs.len() - 1 ==> segs.drop_last()[i] == segs[i]);
        }
        assert(r[0] == join_segments(segs.drop_last(), sep)[0]);
        assert(seg_shape(segs[0], windows));
    }
}

/// No segment of the list is a current-directory marker.
pub open spec fn segs_nocur(segs: Seq<Seq<char>>) -> bool {
    forall|i: int| 0 <= i < segs.len() ==> segs[i] != cur_tok()
}

/// Dropping dots from a dot-free list changes nothing.
pub proof fn lemma_drop_dots_id(segs: Seq<Seq<char>>)
    requires
        segs_nocur(segs),
    ensures
        drop_dots(segs) == segs,
    decreases segs.len(),
{
    if segs.len() > 0 {
        assert(segs_nocur(segs.drop_last())) by {
            assert(forall|i: int|
                0 <= i < segs.len() - 1 ==> segs.drop_last()[i] == segs[i]);
        }
        lemma_drop_dots_id(segs.drop_last());
        assert(drop_dots(segs.drop_last()).push(segs.last()) =~= segs);
    }
}

/// What dropping dots leaves is shaped, dot-free where the input had only
/// its `.` segments to lose, and never a `.` segment.
pub proof fn lemma_drop_dots_shape(segs: Seq<Seq<char>>, windows: bool)
    requires
        segs_shaped(segs, windows),
    ensures
        segs_shaped(drop_dots(segs), windows),
        segs_nocur(drop_dots(segs)),
    decreases segs.len(),
{
    if segs.len() > 0 {
        assert(segs_shaped(segs.drop_last(), windows)) by {
            assert(forall|i: int|
                0 <= i < segs.len() - 1 ==> segs.drop_last()[i] == segs[i]);
        }
        lemma_drop_dots_shape(segs.drop_last(), windows);
        let d = drop_dots(segs.drop_last());
        if segs.last() != cur_tok() {
            assert(seg_shape(segs.last(), windows));
            assert forall|i: int|
                0 <= i < d.push(segs.last()).len() implies seg_shape(
                d.push(segs.last())[i],
                windows,
            ) && d.push(segs.last())[i] != cur_tok() by {
                if i < d.len() {
                    assert(d.push(segs.last())[i] == d[i]);
                } else {
                    assert(d.push(segs.last())[i] == segs.last());
                }
            }
        }
    }
}

/// Folding a list without parent markers just drops its dots.
pub proof fn lemma_fold_no_par(init: Seq<Seq<char>>, rest: Seq<Seq<char>>)
    requires
        !contains_par(rest),
    ensures
        fold_segs(init, rest) == init + drop_dots(rest),
    decreases rest.len(),
{
    if rest.len() == 0 {
        assert(init + drop_dots(rest) =~= init);
    } else {
        lemma_fold_no_par(init, rest.drop_last());
        if rest.last() == cur_tok() {
        } else {
            assert(rest.last() != par_tok());
            assert((init + drop_dots(rest.drop_last())).push(rest.last()) =~= init
                + drop_dots(rest.drop_last()).push(rest.last()));
        }
    }
}

/// Rendering one more segment appends a separator, except at the front.
pub proof fn lemma_render_push(
    prefix: Seq<char>,
    rooted: bool,
    segs: Seq<Seq<char>>,
    t: Seq<char>,
    sep: char,
)
    ensures
        render(prefix, rooted, segs.push(t), sep) == render(prefix, rooted, segs, sep) + (if segs.len() > 0 {
            seq![sep]
        } else {
            Seq::<char>::empty()
        }) + t,
{
    if segs.len() == 0 {
        assert(segs.push(t).len() == 1);
        assert(segs.push(t)[0] == t);
        assert(join_segments(segs.push(t), sep) == t);
        assert(render(prefix, rooted, segs.push(t), sep) =~= render(prefix, rooted, segs, sep)
            + Seq::<char>::empty() + t);
    } else {
        assert(segs.push(t).drop_last() =~= segs);
        assert(join_segments(segs.push(t), sep) == join_segments(segs, sep) + seq![sep] + t);
        assert(render(prefix, rooted, segs.push(t), sep) =~= render(prefix, rooted, segs, sep)
            + seq![sep] + t);
    }
}

/// Extending the last segment by one character extends the rendering by it.
pub proof fn lemma_render_extend(
    prefix: Seq<char>,
    rooted: bool,
    segs: Seq<Seq<char>>,
    c: char,
    sep: char,
)
    requires
        segs.len() > 0,
    ensures
        render(prefix, rooted, segs.update(segs.len() - 1, segs.last().push(c)), sep) == render(
            prefix,
            rooted,
            segs,
            sep,
        ).push(c),
{
    let u = segs.update(segs.len() - 1, segs.last().push(c));
    if segs.len() == 1 {
        assert(u[0] == segs.last().push(c));
        assert(join_segments(u, sep) == segs[0].push(c));
        assert(render(prefix, rooted, u, sep) =~= render(prefix, rooted, segs, sep).push(c));
    } else {
        assert(u.drop_last() =~= segs.drop_last());
        assert(u.last() == segs.last().push(c));
        assert(join_segments(u, sep) == join_segments(segs.drop_last(), sep) + seq![sep]
            + segs.last().push(c));
        assert(render(prefix, rooted, u, sep) =~= render(prefix, rooted, segs, sep).push(c));
    }
}

/// Rendering a longer component list keeps the shorter rendering as a
/// textual prefix.
pub proof fn lemma_render_prefix(
    prefix: Seq<char>,
    rooted: bool,
    a: Seq<Seq<char>>,
    b: Seq<Seq<char>>,
    sep: char,
)
    requires
        a.is_prefix_of(b),
    ensures
        render(prefix, rooted, a, sep).is_prefix_of(render(prefix, rooted, b, sep)),
    decreases b.len(),
{
    if a.len() == b.len() {
        assert(a =~= b);
    } else {
        assert(a.is_prefix_of(b.drop_last())) by {
            assert(forall|i: int| 0 <= i < a.len() ==> b.drop_last()[i] == b[i]);
        }
        lemma_render_prefix(prefix, rooted, a, b.drop_last(), sep);
        assert(b.drop_last().push(b.last()) =~= b);
        lemma_render_push(prefix, rooted, b.drop_last(), b.last(), sep);
        let rb0 = render(prefix, rooted, b.drop_last(), sep);
        let rb = render(prefix, rooted, b, sep);
        assert(rb == rb0 + (if b.drop_last().len() > 0 {
            seq![sep]
        } else {
            Seq::<char>::empty()
        }) + b.last());
        assert(render(prefix, rooted, a, sep).is_prefix_of(rb)) by {
            assert(forall|i: int| 0 <= i < rb0.len() ==> rb[i] == rb0[i]);
        }
    }
}

/// `contains_par` says exactly that some segment is a parent marker.
pub proof fn lemma_contains_par_iff(segs: Seq<Seq<char>>)
    ensures
        contains_par(segs) <==> exists|i: int| 0 <= i < segs.len() && segs[i] == par_tok(),
    decreases segs.len(),
{
    if segs.len() > 0 {
        lemma_contains_par_iff(segs.drop_last());
        if contains_par(segs.drop_last()) {
            let i = choose|i: int|
                0 <= i < segs.drop_last().len() && segs.drop_last()[i] == par_tok();
            assert(segs[i] == par_tok());
        }
        if segs.last() == par_tok() {
            assert(segs[segs.len() - 1] == par_tok());
        }
        if exists|i: int| 0 <= i < segs.len() && segs[i] == par_tok() {
            let i = choose|i: int| 0 <= i < segs.len() && segs[i] == par_tok();
            if i < segs.len() - 1 {
                assert(segs.drop_last()[i] == par_tok());
            }
        }
    }
}

/// Folding parent markers alone onto an empty list leaves it empty: the
/// root floor is never crossed.
pub proof fn lemma_fold_pars_floor(rest: Seq<Seq<char>>)
    requires
        forall|i: int| 0 <= i < rest.len() ==> rest[i] == par_tok(),
    ensures
        fold_segs(Seq::empty(), rest) == Seq::<Seq<char>>::empty(),
    decreases rest.len(),
{
    if rest.len() > 0 {
        assert(forall|i: int|
            0 <= i < rest.len() - 1 ==> rest.drop_last()[i] == rest[i]);
        lemma_fold_pars_floor(rest.drop_last());
        assert(rest.last() == par_tok());
        assert(par_tok() != cur_tok());
    }
}

} // verus!
