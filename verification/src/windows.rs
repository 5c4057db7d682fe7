//! The Windows path grammar: both `\` and `/` separate segments, and a path
//! may start with a drive prefix (`C:`) or a UNC share prefix
//! (`\\server\share`). A UNC prefix always carries a root; a drive prefix
//! may stand without one, making the path drive-relative.

use vstd::prelude::*;
use vstd::seq_lib::*;

use crate::model::{
    contains_par, copy_seg, cur_tok, fold_exec, fold_segs, is_cur, is_par, is_sep, is_sep_exec,
    join_segments, kept_segments, kept_segments_exec, lemma_chars_deep_view,
    lemma_contains_par_iff, lemma_drop_dots_id, lemma_fold_pars_floor, lemma_fold_plain,
    lemma_fold_wf, lemma_plain_no_par, lemma_raw_of_render,
    lemma_raw_segments_shaped, par_tok, raw_segments, render, render_exec,
    seg_shape, seg_wf, segs_nocur, segs_plain, segs_shaped, segs_wf, split_segments, Seeded,
};
use crate::text::{chars_eq, chars_of, lower_of, lowercase_chars, string_of};
use crate::AbsolutizeError;

verus! {

/// Whether `c` is an ASCII letter, as a drive letter must be.
pub open spec fn is_ascii_alpha(c: char) -> bool {
    ('a' <= c && c <= 'z') || ('A' <= c && c <= 'Z')
}

/// Whether the text starts with a drive prefix, a letter and a colon.
pub open spec fn is_drive(s: Seq<char>) -> bool {
    s.len() >= 2 && is_ascii_alpha(s[0]) && s[1] == ':'
}

/// The length of the leading run of non-separator characters.
pub open spec fn run_len(s: Seq<char>) -> int
    decreases s.len(),
{
    if s.len() == 0 || is_sep(s[0], true) {
        0
    } else {
        1 + run_len(s.skip(1))
    }
}

/// The length of a leading UNC prefix `\\server\share`, or zero where the
/// text has none; server and share are nonempty runs.
pub open spec fn unc_len(s: Seq<char>) -> int {
    if s.len() >= 2 && is_sep(s[0], true) && is_sep(s[1], true) {
        let server = run_len(s.skip(2));
        if server > 0 && 2 + server < s.len() {
            let share = run_len(s.skip(3 + server));
            if share > 0 {
                3 + server + share
            } else {
                0
            }
        } else {
            0
        }
    } else {
        0
    }
}

/// The length of the leading prefix: a drive, a UNC share, or nothing.
pub open spec fn prefix_len(s: Seq<char>) -> int {
    if is_drive(s) {
        2
    } else {
        unc_len(s)
    }
}

/// Whether the text starts with a UNC prefix.
pub open spec fn is_unc(s: Seq<char>) -> bool {
    !is_drive(s) && unc_len(s) > 0
}

/// The prefix text itself.
pub open spec fn prefix_of(s: Seq<char>) -> Seq<char> {
    s.take(prefix_len(s))
}

/// Whether the path has a root: a separator right after the prefix, or a
/// UNC prefix, which roots the path by itself.
pub open spec fn has_root(s: Seq<char>) -> bool {
    is_unc(s) || (prefix_len(s) < s.len() && is_sep(s[prefix_len(s)], true))
}

/// Whether the path is absolute: a prefix and a root.
pub open spec fn is_absolute(s: Seq<char>) -> bool {
    prefix_len(s) > 0 && has_root(s)
}

/// The text after the prefix.
pub open spec fn body_of(s: Seq<char>) -> Seq<char> {
    s.skip(prefix_len(s))
}

/// The raw segments of the text after the prefix.
pub open spec fn segments_w(s: Seq<char>) -> Seq<Seq<char>> {
    raw_segments(body_of(s), true)
}

/// Whether the path starts with a current-directory component: no root,
/// and a `.` as the first segment after the prefix.
pub open spec fn lead_cur_w(s: Seq<char>) -> bool {
    !has_root(s) && segments_w(s).len() > 0 && segments_w(s)[0] == cur_tok()
}

/// The segment components of the path text.
pub open spec fn components_w(s: Seq<char>) -> Seq<Seq<char>> {
    kept_segments(segments_w(s), lead_cur_w(s))
}

/// Whether two characters are the same drive letter, ignoring ASCII case.
pub open spec fn drive_letter_eq(a: char, b: char) -> bool {
    a == b || (is_ascii_alpha(a) && is_ascii_alpha(b) && ((a as u32) + 32 == (b as u32) || (
    b as u32) + 32 == (a as u32)))
}

/// Whether two prefix texts are the same drive, ignoring ASCII case.
pub open spec fn drive_eq(a: Seq<char>, b: Seq<char>) -> bool {
    a.len() == 2 && b.len() == 2 && a[1] == ':' && b[1] == ':' && is_ascii_alpha(a[0])
        && is_ascii_alpha(b[0]) && drive_letter_eq(a[0], b[0])
}

/// The working list seeded from a leading `..` component: the parent of the
/// base directory, under the given prefix; a base that is bare root, bare
/// prefix or empty has no parent and contributes nothing but its root.
pub open spec fn seed_parent(pfx: Seq<char>, base: Seq<char>, rest: Seq<Seq<char>>) -> Seeded {
    let bk = components_w(base);
    if bk.len() > 0 {
        Seeded { prefix: pfx, rooted: has_root(base), segs: bk.drop_last(), changed: true, rest }
    } else if prefix_len(base) > 0 {
        Seeded { prefix: pfx, rooted: is_absolute(base), segs: Seq::empty(), changed: true, rest }
    } else if base == seq!['\\'] {
        Seeded { prefix: pfx, rooted: true, segs: Seq::empty(), changed: true, rest }
    } else {
        Seeded { prefix: pfx, rooted: false, segs: Seq::empty(), changed: true, rest }
    }
}

/// The working list seeded from the first components of `p`.
///
/// A rooted path keeps its prefix and root; a rooted path without a prefix
/// is given the base directory's prefix under absolutization. A bare drive
/// is promoted to the drive's root under absolutization and kept as it is
/// otherwise. Leading `.` and `..` stand for the working directory and
/// its parent, under the path's own prefix where it has one. A path that
/// is drive-relative — a drive prefix without a root — lives in that
/// drive's own working directory: under absolutization the supplied base
/// directory plays that part when it is on the same drive, and the
/// drive's root does otherwise, whether the first segment after the
/// prefix is `.`, `..` or a name.
pub open spec fn seed(p: Seq<char>, base: Seq<char>, resolve_relative: bool) -> Seeded
    recommends
        p.len() > 0,
{
    let pl = prefix_len(p);
    let segs = segments_w(p);
    if pl > 0 {
        let pfx = prefix_of(p);
        let first = segs[0];
        let rest = segs.subrange(1, segs.len() as int);
        if has_root(p) {
            Seeded { prefix: pfx, rooted: true, segs: Seq::empty(), changed: false, rest: segs }
        } else if segs.len() == 0 {
            Seeded {
                prefix: pfx,
                rooted: resolve_relative,
                segs: Seq::empty(),
                changed: resolve_relative,
                rest: segs,
            }
        } else if first == cur_tok() {
            if resolve_relative && !drive_eq(pfx, prefix_of(base)) {
                Seeded { prefix: pfx, rooted: true, segs: Seq::empty(), changed: true, rest }
            } else {
                Seeded {
                    prefix: pfx,
                    rooted: has_root(base),
                    segs: components_w(base),
                    changed: true,
                    rest,
                }
            }
        } else if first == par_tok() {
            if resolve_relative && !drive_eq(pfx, prefix_of(base)) {
                Seeded { prefix: pfx, rooted: true, segs: Seq::empty(), changed: true, rest }
            } else {
                seed_parent(pfx, base, rest)
            }
        } else {
            if resolve_relative {
                if drive_eq(pfx, prefix_of(base)) {
                    Seeded {
                        prefix: pfx,
                        rooted: has_root(base),
                        segs: components_w(base).push(first),
                        changed: true,
                        rest,
                    }
                } else {
                    Seeded { prefix: pfx, rooted: true, segs: seq![first], changed: true, rest }
                }
            } else {
                Seeded { prefix: pfx, rooted: false, segs: seq![first], changed: false, rest }
            }
        }
    } else {
        if has_root(p) {
            if resolve_relative {
                Seeded {
                    prefix: prefix_of(base),
                    rooted: true,
                    segs: Seq::empty(),
                    changed: true,
                    rest: segs,
                }
            } else {
                Seeded {
                    prefix: Seq::empty(),
                    rooted: true,
                    segs: Seq::empty(),
                    changed: false,
                    rest: segs,
                }
            }
        } else {
            let first = segs[0];
            let rest = segs.subrange(1, segs.len() as int);
            if first == cur_tok() {
                Seeded {
                    prefix: prefix_of(base),
                    rooted: has_root(base),
                    segs: components_w(base),
                    changed: true,
                    rest,
                }
            } else if first == par_tok() {
                seed_parent(prefix_of(base), base, rest)
            } else {
                if resolve_relative {
                    Seeded {
                        prefix: prefix_of(base),
                        rooted: has_root(base),
                        segs: components_w(base).push(first),
                        changed: true,
                        rest,
                    }
                } else {
                    Seeded {
                        prefix: Seq::empty(),
                        rooted: false,
                        segs: seq![first],
                        changed: false,
                        rest,
                    }
                }
            }
        }
    }
}

/// The normalized text of `p` against `base` under the Windows grammar.
///
/// The empty path resolves to the base directory when `resolve_relative`
/// holds and stays empty otherwise; a bare UNC share keeps its text under
/// dot resolution. Anything else is seeded, folded and rendered; when
/// nothing was resolved and the rendering is as long as the input, the
/// input itself is returned.
pub open spec fn normalize_spec(p: Seq<char>, base: Seq<char>, resolve_relative: bool) -> Seq<
    char,
> {
    if p.len() == 0 {
        if resolve_relative {
            base
        } else {
            p
        }
    } else if !resolve_relative && is_unc(p) && prefix_len(p) == p.len() {
        p
    } else {
        let sd = seed(p, base, resolve_relative);
        let ts = fold_segs(sd.segs, sd.rest);
        let r = render(sd.prefix, sd.rooted, ts, '\\');
        if sd.changed || contains_par(sd.rest) || r.len() != p.len() {
            r
        } else {
            p
        }
    }
}

/// What `absolutize_from` returns: `p` resolved against `base`.
pub open spec fn absolutize_from_spec(p: Seq<char>, base: Seq<char>) -> Seq<char> {
    normalize_spec(p, base, true)
}

/// What dot resolution alone returns: the path's own `.` and `..`
/// segments are resolved with no base directory at all, so a path without
/// a root keeps its prefix and stays relative, and a leading `..` is
/// resolved away within it.
pub open spec fn parse_dot_spec(p: Seq<char>) -> Seq<char> {
    normalize_spec(p, Seq::empty(), false)
}

/// `run_len` never leaves the text.
pub proof fn lemma_run_len_bound(s: Seq<char>)
    ensures
        0 <= run_len(s) <= s.len(),
    decreases s.len(),
{
    if s.len() > 0 && !is_sep(s[0], true) {
        lemma_run_len_bound(s.skip(1));
    }
}

/// The value of `run_len`, from the shape of the text: `m` non-separator
/// characters, then a separator or the end.
pub proof fn lemma_run_len_value(s: Seq<char>, m: int)
    requires
        0 <= m <= s.len(),
        forall|k: int| 0 <= k < m ==> !is_sep(s[k], true),
        m == s.len() || is_sep(s[m], true),
    ensures
        run_len(s) == m,
    decreases m,
{
    if m == 0 {
    } else {
        assert(!is_sep(s[0], true));
        assert forall|k: int| 0 <= k < m - 1 implies !is_sep(s.skip(1)[k], true) by {
            assert(s.skip(1)[k] == s[k + 1]);
        }
        if m < s.len() {
            assert(s.skip(1)[m - 1] == s[m as int]);
        }
        lemma_run_len_value(s.skip(1), m - 1);
    }
}

/// The length of the leading prefix, executably.
pub fn prefix_len_exec(cs: &Vec<char>) -> (r: usize)
    ensures
        r == prefix_len(cs@),
        r <= cs@.len(),
{
    if cs.len() >= 2 && (('a' <= cs[0] && cs[0] <= 'z') || ('A' <= cs[0] && cs[0] <= 'Z'))
        && cs[1] == ':' {
        return 2;
    }
    proof {
        assert(!is_drive(cs@));
    }
    if cs.len() >= 2 && is_sep_exec(cs[0], true) && is_sep_exec(cs[1], true) {
        let server = run_len_exec(cs, 2);
        proof {
            assert(cs@.skip(2) =~= cs@.subrange(2, cs@.len() as int));
            lemma_run_len_bound(cs@.skip(2));
        }
        if server > 0 && 2 + server < cs.len() {
            let share = run_len_exec(cs, 3 + server);
            proof {
                assert(cs@.skip(3 + server) =~= cs@.subrange(
                    3 + server as int,
                    cs@.len() as int,
                ));
                lemma_run_len_bound(cs@.skip(3 + server));
            }
            if share > 0 {
                return 3 + server + share;
            }
        }
    }
    0
}

/// The length of the non-separator run of `cs` from `from` on, executably.
fn run_len_exec(cs: &Vec<char>, from: usize) -> (r: usize)
    requires
        from <= cs@.len(),
    ensures
        r == run_len(cs@.subrange(from as int, cs@.len() as int)),
        from + r <= cs@.len(),
{
    let mut j: usize = from;
    while j < cs.len() && !is_sep_exec(cs[j], true)
        invariant
            from <= j <= cs@.len(),
            forall|k: int| from <= k < j ==> !is_sep(cs@[k], true),
        decreases cs@.len() - j,
    {
        j = j + 1;
    }
    proof {
        let s = cs@.subrange(from as int, cs@.len() as int);
        assert forall|k: int| 0 <= k < j - from implies !is_sep(s[k], true) by {
            assert(s[k] == cs@[k + from]);
        }
        if j < cs@.len() {
            assert(s[j - from] == cs@[j as int]);
        }
        lemma_run_len_value(s, j - from);
    }
    j - from
}

/// The prefix text, root flag and segment components of a path text,
/// executably.
pub fn parse_win(s: &str) -> (r: (Vec<char>, bool, Vec<Vec<char>>))
    ensures
        r.0@ == prefix_of(s@),
        r.1 == has_root(s@),
        r.2.deep_view() == components_w(s@),
{
    broadcast use lemma_chars_deep_view;

    let cs = chars_of(s);
    let pl = prefix_len_exec(&cs);
    let mut prefix: Vec<char> = Vec::new();
    let mut i: usize = 0;
    while i < pl
        invariant
            i <= pl,
            pl <= cs@.len(),
            prefix@ == cs@.take(i as int),
        decreases pl - i,
    {
        prefix.push(cs[i]);
        proof {
            assert(cs@.take(i + 1 as int) =~= cs@.take(i as int).push(cs@[i as int]));
        }
        i = i + 1;
    }
    let unc = pl > 0 && !(cs.len() >= 2 && cs[1] == ':');
    proof {
        if pl > 0 {
            if is_drive(cs@) {
                assert(prefix_len(cs@) == 2);
                assert(cs@[1] == ':');
            } else {
                assert(is_unc(cs@));
                assert(is_sep(cs@[1], true));
            }
        }
        assert(unc == is_unc(cs@));
    }
    let rooted = unc || (pl < cs.len() && is_sep_exec(cs[pl], true));
    let segs = split_segments(&cs, pl, true);
    proof {
        assert(cs@.subrange(pl as int, cs@.len() as int) =~= body_of(cs@));
    }
    let lead = !rooted && segs.len() > 0 && is_cur(&segs[0]);
    let kept = kept_segments_exec(&segs, lead);
    (prefix, rooted, kept)
}

/// Resolve `path` against `base` under the Windows grammar.
fn normalize(path: &str, base: &str, resolve_relative: bool) -> (r: String)
    ensures
        r@ == normalize_spec(path@, base@, resolve_relative),
{
    broadcast use lemma_chars_deep_view;

    let p = chars_of(path);
    if p.len() == 0 {
        if resolve_relative {
            return base.to_owned();
        } else {
            return path.to_owned();
        }
    }
    let pl = prefix_len_exec(&p);
    let unc = pl > 0 && !(p.len() >= 2 && p[1] == ':');
    proof {
        if pl > 0 {
            if is_drive(path@) {
                assert(prefix_len(path@) == 2);
            } else {
                assert(is_unc(path@));
                assert(is_sep(path@[1], true));
            }
        }
        assert(unc == is_unc(path@));
    }
    if !resolve_relative && unc && pl == p.len() {
        return path.to_owned();
    }
    let rooted_p = unc || (pl < p.len() && is_sep_exec(p[pl], true));
    let segs = split_segments(&p, pl, true);
    proof {
        assert(p@.subrange(pl as int, p@.len() as int) =~= body_of(path@));
    }
    let mut prefix: Vec<char> = Vec::new();
    let mut j: usize = 0;
    while j < pl
        invariant
            j <= pl,
            pl <= p@.len(),
            p@ == path@,
            prefix@ == path@.take(j as int),
        decreases pl - j,
    {
        prefix.push(p[j]);
        proof {
            assert(path@.take(j + 1 as int) =~= path@.take(j as int).push(path@[j as int]));
        }
        j = j + 1;
    }
    let ghost sd = seed(path@, base@, resolve_relative);
    let mut tokens: Vec<Vec<char>> = Vec::new();
    let mut rooted = false;
    let mut changed0 = false;
    let mut start: usize = 0;
    if pl > 0 {
        if rooted_p {
            rooted = true;
        } else if segs.len() == 0 {
            rooted = resolve_relative;
            changed0 = resolve_relative;
        } else if is_cur(&segs[0]) {
            let bm = parse_win(base);
            if resolve_relative && !drive_eq_exec(&prefix, &bm.0) {
                rooted = true;
            } else {
                rooted = bm.1;
                tokens = bm.2;
            }
            changed0 = true;
            start = 1;
        } else if is_par(&segs[0]) {
            let bm = parse_win(base);
            if resolve_relative && !drive_eq_exec(&prefix, &bm.0) {
                rooted = true;
            } else {
                let st = seed_parent_exec(base);
                rooted = st.0;
                tokens = st.1;
            }
            changed0 = true;
            start = 1;
        } else {
            if resolve_relative {
                let bm = parse_win(base);
                if drive_eq_exec(&prefix, &bm.0) {
                    rooted = bm.1;
                    tokens = bm.2;
                    tokens.push(copy_seg(&segs[0]));
                    proof {
                        assert(tokens.deep_view() =~= components_w(base@).push(
                            segs.deep_view()[0],
                        ));
                    }
                } else {
                    rooted = true;
                    tokens.push(copy_seg(&segs[0]));
                    proof {
                        assert(tokens.deep_view() =~= seq![segs.deep_view()[0]]);
                    }
                }
                changed0 = true;
            } else {
                tokens.push(copy_seg(&segs[0]));
                proof {
                    assert(tokens.deep_view() =~= seq![segs.deep_view()[0]]);
                }
            }
            start = 1;
        }
    } else {
        if rooted_p {
            rooted = true;
            if resolve_relative {
                let bm = parse_win(base);
                prefix = bm.0;
                changed0 = true;
            }
        } else {
            proof {
                crate::model::lemma_first_segment(body_of(path@), true);
            }
            if is_cur(&segs[0]) {
                let bm = parse_win(base);
                prefix = bm.0;
                rooted = bm.1;
                tokens = bm.2;
                changed0 = true;
                start = 1;
            } else if is_par(&segs[0]) {
                let bm = parse_win(base);
                prefix = bm.0;
                let st = seed_parent_exec(base);
                rooted = st.0;
                tokens = st.1;
                changed0 = true;
                start = 1;
            } else {
                if resolve_relative {
                    let bm = parse_win(base);
                    prefix = bm.0;
                    rooted = bm.1;
                    tokens = bm.2;
                    tokens.push(copy_seg(&segs[0]));
                    proof {
                        assert(tokens.deep_view() =~= components_w(base@).push(
                            segs.deep_view()[0],
                        ));
                    }
                    changed0 = true;
                } else {
                    tokens.push(copy_seg(&segs[0]));
                    proof {
                        assert(tokens.deep_view() =~= seq![segs.deep_view()[0]]);
                    }
                }
                start = 1;
            }
        }
    }
    proof {
        assert(prefix@ == sd.prefix);
        assert(tokens.deep_view() == sd.segs);
        assert(rooted == sd.rooted);
        assert(changed0 == sd.changed);
        if start == 1 {
            assert(segs.deep_view().subrange(1, segs.deep_view().len() as int) =~= sd.rest);
        } else {
            assert(segs.deep_view().subrange(0, segs.deep_view().len() as int) =~= sd.rest);
        }
    }
    let changed_fold = fold_exec(&mut tokens, &segs, start);
    let out = render_exec(&prefix, rooted, &tokens, '\\');
    if changed0 || changed_fold || out.len() != p.len() {
        string_of(&out)
    } else {
        path.to_owned()
    }
}

/// The root flag and working list that a leading `..` seeds from `base`
/// (executable form of the base-dependent part of [`seed_parent`]).
fn seed_parent_exec(base: &str) -> (r: (bool, Vec<Vec<char>>))
    ensures
        ({
            let sp = seed_parent(Seq::empty(), base@, Seq::empty());
            r.0 == sp.rooted && r.1.deep_view() == sp.segs
        }),
{
    broadcast use lemma_chars_deep_view;

    let bm = parse_win(base);
    let mut tokens = bm.2;
    if tokens.len() > 0 {
        tokens.pop();
        proof {
            assert(tokens.deep_view() =~= components_w(base@).drop_last());
        }
        return (bm.1, tokens);
    }
    let bc = chars_of(base);
    let bpl = prefix_len_exec(&bc);
    if bpl > 0 {
        return (bm.1, tokens);
    }
    if bc.len() == 1 && bc[0] == '\\' {
        proof {
            assert(base@ =~= seq!['\\']);
        }
        (true, tokens)
    } else {
        proof {
            if base@ == seq!['\\'] {
                assert(bc@[0] == '\\');
            }
        }
        (false, tokens)
    }
}

/// Whether two prefix texts are the same drive, ignoring ASCII case
/// (executable form of [`drive_eq`]).
fn drive_eq_exec(a: &Vec<char>, b: &Vec<char>) -> (r: bool)
    ensures
        r == drive_eq(a@, b@),
{
    if a.len() != 2 || b.len() != 2 {
        return false;
    }
    if a[1] != ':' || b[1] != ':' {
        return false;
    }
    let ca = a[0];
    let cb = b[0];
    let alpha_a = ('a' <= ca && ca <= 'z') || ('A' <= ca && ca <= 'Z');
    let alpha_b = ('a' <= cb && cb <= 'z') || ('A' <= cb && cb <= 'Z');
    if !alpha_a || !alpha_b {
        return false;
    }
    ca == cb || (ca as u32) + 32 == (cb as u32) || (cb as u32) + 32 == (ca as u32)
}

/// Resolve `path` against the base directory `base` and remove every
/// resolvable `.` and `..` segment, under the Windows grammar.
pub fn absolutize_from(path: &str, base: &str) -> (r: String)
    ensures
        r@ == absolutize_from_spec(path@, base@),
{
    normalize(path, base, true)
}

/// The component tokens of a path text: the prefix, a root marker, and the
/// segment components; the comparison unit of Windows containment.
pub open spec fn tokens_of(s: Seq<char>) -> Seq<Seq<char>> {
    (if prefix_len(s) > 0 {
        seq![prefix_of(s)]
    } else {
        Seq::empty()
    }) + (if has_root(s) {
        seq![seq!['\\']]
    } else {
        Seq::empty()
    }) + components_w(s)
}

/// Whether the tokens of `a` lead the tokens of `b`, compared lowercased:
/// the Windows reading of containment, case-insensitive and at component
/// boundaries.
pub open spec fn ci_starts_with_spec(a: Seq<char>, b: Seq<char>) -> bool {
    let ta = tokens_of(a);
    let tb = tokens_of(b);
    ta.len() <= tb.len() && (forall|i: int|
        0 <= i < ta.len() ==> lower_of(ta[i]) == lower_of(tb[i]))
}

/// `rel` appended to the directory `dir`, with a single separator between
/// them, as std's `PathBuf::push` writes it for a relative `rel`: after a
/// bare drive prefix the text continues without a separator.
pub open spec fn join_spec(dir: Seq<char>, rel: Seq<char>) -> Seq<char> {
    if dir.len() == 0 {
        rel
    } else if is_drive(dir) && dir.len() == 2 {
        dir + rel
    } else if is_sep(dir.last(), true) {
        dir + rel
    } else {
        dir + seq!['\\'] + rel
    }
}

/// What `absolutize_virtually` returns under the Windows grammar.
///
/// The root is absolutized against `base`; the path has its own dots
/// resolved, against no base, so a relative path never reaches the base
/// directory. A path that then has a root must start with the resolved root, compared
/// lowercased at component boundaries, or the call fails. A drive-relative
/// path joins the root when its drive is the root's, and fails otherwise.
/// A plain relative path is joined under the root.
pub open spec fn absolutize_virtually_spec(
    p: Seq<char>,
    virtual_root: Seq<char>,
    base: Seq<char>,
) -> Result<Seq<char>, AbsolutizeError> {
    let vr = absolutize_from_spec(virtual_root, base);
    let pd = parse_dot_spec(p);
    if has_root(pd) {
        if ci_starts_with_spec(vr, pd) {
            Ok(pd)
        } else {
            Err(AbsolutizeError::InvalidInput)
        }
    } else if prefix_len(pd) > 0 {
        if drive_eq(prefix_of(pd), prefix_of(vr)) {
            Ok(join_spec(vr, body_of(pd)))
        } else {
            Err(AbsolutizeError::InvalidInput)
        }
    } else {
        Ok(join_spec(vr, pd))
    }
}

/// The component tokens of a path text, executably.
fn tokens_of_exec(s: &str) -> (r: Vec<Vec<char>>)
    ensures
        r.deep_view() == tokens_of(s@),
{
    broadcast use lemma_chars_deep_view;

    let bm = parse_win(s);
    let mut r: Vec<Vec<char>> = Vec::new();
    if bm.0.len() > 0 {
        proof {
            assert(prefix_of(s@).len() == prefix_len(s@)) by {
                lemma_prefix_len_bound(s@);
            }
        }
        r.push(bm.0);
    }
    if bm.1 {
        let mut root: Vec<char> = Vec::new();
        root.push('\\');
        proof {
            assert(root@ =~= seq!['\\']);
        }
        r.push(root);
    }
    proof {
        lemma_prefix_len_bound(s@);
        assert(r.deep_view() =~= (if prefix_len(s@) > 0 {
            seq![prefix_of(s@)]
        } else {
            Seq::<Seq<char>>::empty()
        }) + (if has_root(s@) {
            seq![seq!['\\']]
        } else {
            Seq::<Seq<char>>::empty()
        }));
    }
    let mut i: usize = 0;
    let ghost head = r.deep_view();
    let comps = bm.2;
    while i < comps.len()
        invariant
            i <= comps@.len(),
            r.deep_view() == head + comps.deep_view().take(i as int),
        decreases comps@.len() - i,
    {
        broadcast use lemma_chars_deep_view;

        let ghost pre = r.deep_view();
        r.push(copy_seg(&comps[i]));
        proof {
            assert(comps@[i as int].deep_view() == comps.deep_view()[i as int]);
            assert(head + comps.deep_view().take(i + 1) =~= pre.push(
                comps.deep_view()[i as int],
            ));
            assert(r.deep_view() =~= pre.push(comps.deep_view()[i as int]));
        }
        i = i + 1;
    }
    proof {
        assert(comps.deep_view().take(comps.deep_view().len() as int) =~= comps.deep_view());
        assert(r.deep_view() =~= tokens_of(s@));
    }
    r
}

/// The prefix is never longer than the text.
pub proof fn lemma_prefix_len_bound(s: Seq<char>)
    ensures
        0 <= prefix_len(s) <= s.len(),
{
    if is_drive(s) {
    } else if s.len() >= 2 && is_sep(s[0], true) && is_sep(s[1], true) {
        lemma_run_len_bound(s.skip(2));
        let server = run_len(s.skip(2));
        if server > 0 && 2 + server < s.len() {
            lemma_run_len_bound(s.skip(3 + server));
        }
    }
}

/// Whether the tokens of `a` lead the tokens of `b`, compared lowercased.
fn ci_starts_with_exec(a: &str, b: &str) -> (r: bool)
    ensures
        r == ci_starts_with_spec(a@, b@),
{
    broadcast use lemma_chars_deep_view;

    let ta = tokens_of_exec(a);
    let tb = tokens_of_exec(b);
    if ta.len() > tb.len() {
        return false;
    }
    let mut i: usize = 0;
    while i < ta.len()
        invariant
            i <= ta@.len(),
            ta@.len() <= tb@.len(),
            ta.deep_view() == tokens_of(a@),
            tb.deep_view() == tokens_of(b@),
            forall|j: int|
                0 <= j < i ==> lower_of(tokens_of(a@)[j]) == lower_of(tokens_of(b@)[j]),
        decreases ta@.len() - i,
    {
        broadcast use lemma_chars_deep_view;

        let la = lowercase_chars(&ta[i]);
        let lb = lowercase_chars(&tb[i]);
        proof {
            assert(ta@[i as int].deep_view() == tokens_of(a@)[i as int]);
            assert(tb@[i as int].deep_view() == tokens_of(b@)[i as int]);
        }
        if !chars_eq(&la, &lb) {
            return false;
        }
        i = i + 1;
    }
    true
}

/// Resolve `path`, then confine it to `virtual_root` (Windows grammar).
pub fn absolutize_virtually(path: &str, virtual_root: &str, base: &str) -> (r: Result<
    String,
    AbsolutizeError,
>)
    ensures
        match r {
            Ok(q) => absolutize_virtually_spec(path@, virtual_root@, base@) == Ok::<
                Seq<char>,
                AbsolutizeError,
            >(q@),
            Err(e) => absolutize_virtually_spec(path@, virtual_root@, base@) == Err::<
                Seq<char>,
                AbsolutizeError,
            >(e),
        },
{
    broadcast use lemma_chars_deep_view;

    let vr = normalize(virtual_root, base, true);
    let pd = normalize(path, "", false);
    proof {
        reveal_strlit("");
        assert(""@ =~= Seq::<char>::empty());
    }
    let pdc = chars_of(pd.as_str());
    let pl = prefix_len_exec(&pdc);
    let unc = pl > 0 && !(pdc.len() >= 2 && pdc[1] == ':');
    proof {
        if pl > 0 {
            if is_drive(pd@) {
                assert(prefix_len(pd@) == 2);
            } else {
                assert(is_unc(pd@));
                assert(is_sep(pd@[1], true));
            }
        }
        assert(unc == is_unc(pd@));
    }
    let rooted = unc || (pl < pdc.len() && is_sep_exec(pdc[pl], true));
    if rooted {
        if ci_starts_with_exec(vr.as_str(), pd.as_str()) {
            Ok(pd)
        } else {
            Err(AbsolutizeError::InvalidInput)
        }
    } else if pl > 0 {
        let vrc = chars_of(vr.as_str());
        let vpl = prefix_len_exec(&vrc);
        let mut ppfx: Vec<char> = Vec::new();
        let mut i: usize = 0;
        while i < pl
            invariant
                i <= pl,
                pl <= pdc@.len(),
                pdc@ == pd@,
                ppfx@ == pd@.take(i as int),
            decreases pl - i,
        {
            ppfx.push(pdc[i]);
            proof {
                assert(pd@.take(i + 1 as int) =~= pd@.take(i as int).push(pd@[i as int]));
            }
            i = i + 1;
        }
        let mut vpfx: Vec<char> = Vec::new();
        let mut j: usize = 0;
        while j < vpl
            invariant
                j <= vpl,
                vpl <= vrc@.len(),
                vrc@ == vr@,
                vpfx@ == vr@.take(j as int),
            decreases vpl - j,
        {
            vpfx.push(vrc[j]);
            proof {
                assert(vr@.take(j + 1 as int) =~= vr@.take(j as int).push(vr@[j as int]));
            }
            j = j + 1;
        }
        if drive_eq_exec(&ppfx, &vpfx) {
            let mut body: Vec<char> = Vec::new();
            let mut k: usize = pl;
            while k < pdc.len()
                invariant
                    pl <= k <= pdc@.len(),
                    pdc@ == pd@,
                    body@ == pd@.subrange(pl as int, k as int),
                decreases pdc@.len() - k,
            {
                body.push(pdc[k]);
                proof {
                    assert(pd@.subrange(pl as int, k + 1) =~= pd@.subrange(
                        pl as int,
                        k as int,
                    ).push(pd@[k as int]));
                }
                k = k + 1;
            }
            proof {
                assert(body@ =~= body_of(pd@));
            }
            Ok(join_exec(&vrc, &body))
        } else {
            Err(AbsolutizeError::InvalidInput)
        }
    } else {
        let vrc = chars_of(vr.as_str());
        Ok(join_exec(&vrc, &pdc))
    }
}

/// `rel` appended to the directory `dir` (executable form of [`join_spec`]).
fn join_exec(dir: &Vec<char>, rel: &Vec<char>) -> (r: String)
    ensures
        r@ == join_spec(dir@, rel@),
{
    let mut out = copy_seg(dir);
    if out.len() == 0 {
        let s = string_of(rel);
        return s;
    }
    let bare_drive = out.len() == 2 && (('a' <= out[0] && out[0] <= 'z') || ('A' <= out[0]
        && out[0] <= 'Z')) && out[1] == ':';
    if !bare_drive && !is_sep_exec(out[out.len() - 1], true) {
        out.push('\\');
    }
    let ghost head = out@;
    let mut i: usize = 0;
    while i < rel.len()
        invariant
            i <= rel@.len(),
            out@ == head + rel@.take(i as int),
        decreases rel@.len() - i,
    {
        out.push(rel[i]);
        proof {
            assert(head + rel@.take(i + 1) =~= (head + rel@.take(i as int)).push(
                rel@[i as int],
            ));
        }
        i = i + 1;
    }
    proof {
        assert(rel@.take(rel@.len() as int) =~= rel@);
        assert(out@ =~= join_spec(dir@, rel@));
    }
    string_of(&out)
}

/// A path text under the Windows grammar.
#[derive(Debug, Clone)]
pub struct WindowsPath {
    text: String,
}

impl View for WindowsPath {
    type V = Seq<char>;

    closed spec fn view(&self) -> Seq<char> {
        self.text@
    }
}

impl WindowsPath {
    /// A path holding the given text.
    pub fn new(s: &str) -> (r: Self)
        ensures
            r@ == s@,
    {
        WindowsPath { text: s.to_owned() }
    }

    /// The text of the path.
    pub fn as_str(&self) -> (r: &str)
        ensures
            r@ == self@,
    {
        self.text.as_str()
    }
}

impl crate::Absolutize for WindowsPath {
    open spec fn absolutize_from_spec(p: Seq<char>, base: Seq<char>) -> Seq<char> {
        absolutize_from_spec(p, base)
    }

    open spec fn absolutize_virtually_spec(
        p: Seq<char>,
        virtual_root: Seq<char>,
        base: Seq<char>,
    ) -> Result<Seq<char>, AbsolutizeError> {
        absolutize_virtually_spec(p, virtual_root, base)
    }

    fn absolutize_from(&self, base: &Self) -> (r: Self) {
        WindowsPath { text: absolutize_from(self.text.as_str(), base.text.as_str()) }
    }

    fn absolutize_virtually(&self, virtual_root: &Self, base: &Self) -> (r: Result<
        Self,
        AbsolutizeError,
    >) {
        match absolutize_virtually(
            self.text.as_str(),
            virtual_root.text.as_str(),
            base.text.as_str(),
        ) {
            Ok(t) => Ok(WindowsPath { text: t }),
            Err(e) => Err(e),
        }
    }
}

// ------------------------------------------------------------------
// Laws.
// ------------------------------------------------------------------

/// A canonical absolute Windows path: a prefix and a root, all segments
/// plain names, and the text is exactly their rendering — backslash
/// separators, nothing doubled, nothing trailing.
pub open spec fn canonical(s: Seq<char>) -> bool {
    &&& is_absolute(s)
    &&& segs_wf(segments_w(s), true)
    &&& s == render(prefix_of(s), true, segments_w(s), '\\')
}

/// No-op fast path: a path already in canonical absolute form absolutizes
/// to itself, against any base directory.
pub proof fn lemma_no_op_fast_path(p: Seq<char>, base: Seq<char>)
    requires
        canonical(p),
    ensures
        absolutize_from_spec(p, base) == p,
{
    lemma_prefix_len_bound(p);
    let segs = segments_w(p);
    let sd = seed(p, base, true);
    assert(segs_plain(segs)) by {
        assert(forall|i: int| 0 <= i < segs.len() ==> seg_wf(#[trigger] segs[i], true));
    }
    lemma_fold_plain(Seq::empty(), segs);
    assert(fold_segs(Seq::empty(), segs) =~= segs);
    lemma_plain_no_par(segs);
    assert(render(sd.prefix, sd.rooted, fold_segs(sd.segs, sd.rest), '\\') == p);
}

/// Root floor: an absolute path whose segments are parent markers alone
/// resolves to its own drive's or share's root; `..` never climbs past it.
pub proof fn lemma_root_floor(p: Seq<char>, base: Seq<char>)
    requires
        is_absolute(p),
        segments_w(p).len() > 0,
        forall|i: int| 0 <= i < segments_w(p).len() ==> segments_w(p)[i] == par_tok(),
    ensures
        absolutize_from_spec(p, base) == prefix_of(p) + seq!['\\'],
{
    lemma_prefix_len_bound(p);
    let segs = segments_w(p);
    let sd = seed(p, base, true);
    lemma_fold_pars_floor(segs);
    let r = render(sd.prefix, sd.rooted, fold_segs(sd.segs, sd.rest), '\\');
    assert(r =~= prefix_of(p) + seq!['\\']);
    lemma_contains_par_iff(segs);
    assert(segs[0] == par_tok());
    assert(contains_par(sd.rest));
}

/// Dot resolution of an absolute path pays no regard to the base
/// directory.
pub proof fn lemma_absolute_ignores_base(p: Seq<char>, base1: Seq<char>, base2: Seq<char>)
    requires
        is_absolute(p),
    ensures
        absolutize_from_spec(p, base1) == absolutize_from_spec(p, base2),
{
    lemma_prefix_len_bound(p);
    assert(seed(p, base1, true) == seed(p, base2, true));
}

/// Virtual-root containment: the virtual-root resolution either fails with
/// the input error, or returns a path that the resolved root leads: by its
/// very text where a relative path was joined on, and token by token,
/// compared lowercased, where an absolute path was checked.
pub proof fn lemma_virtually_contained(p: Seq<char>, virtual_root: Seq<char>, base: Seq<char>)
    ensures
        match absolutize_virtually_spec(p, virtual_root, base) {
            Ok(q) => ci_starts_with_spec(absolutize_from_spec(virtual_root, base), q)
                || absolutize_from_spec(virtual_root, base).is_prefix_of(q),
            Err(e) => e == AbsolutizeError::InvalidInput,
        },
{
    let vr = absolutize_from_spec(virtual_root, base);
    let pd = parse_dot_spec(p);
    if has_root(pd) {
    } else {
        let rel = if prefix_len(pd) > 0 {
            body_of(pd)
        } else {
            pd
        };
        let q = join_spec(vr, rel);
        assert(vr.is_prefix_of(q)) by {
            if vr.len() == 0 {
                assert(vr =~= q.subrange(0, 0));
            } else if is_drive(vr) && vr.len() == 2 {
                assert(vr =~= (vr + rel).subrange(0, vr.len() as int));
            } else if is_sep(vr.last(), true) {
                assert(vr =~= (vr + rel).subrange(0, vr.len() as int));
            } else {
                assert(vr =~= (vr + seq!['\\'] + rel).subrange(0, vr.len() as int));
            }
        }
    }
}

/// The characters of the leading run, and what stops it.
pub proof fn lemma_run_len_chars(s: Seq<char>)
    ensures
        forall|k: int| 0 <= k < run_len(s) ==> !is_sep(s[k], true),
        run_len(s) < s.len() ==> is_sep(s[run_len(s)], true),
    decreases s.len(),
{
    lemma_run_len_bound(s);
    if s.len() > 0 && !is_sep(s[0], true) {
        lemma_run_len_chars(s.skip(1));
        assert forall|k: int| 0 <= k < run_len(s) implies !is_sep(s[k], true) by {
            if k > 0 {
                assert(s.skip(1)[k - 1] == s[k]);
            }
        }
        if run_len(s) < s.len() {
            let m = run_len(s.skip(1));
            lemma_run_len_bound(s.skip(1));
            assert(s.skip(1) =~= s.subrange(1, s.len() as int));
            assert(run_len(s.skip(1)) < s.skip(1).len());
            assert(is_sep(s.skip(1)[m], true));
            assert(s.skip(1)[m] == s[m + 1]);
        }
    }
}

/// A prefix cut from one text keeps its length when another rooted tail
/// follows it.
pub proof fn lemma_prefix_reparse(src: Seq<char>, tail: Seq<char>)
    requires
        prefix_len(src) > 0,
        tail.len() > 0,
        is_sep(tail[0], true),
    ensures
        prefix_len(prefix_of(src) + tail) == prefix_len(src),
        is_unc(prefix_of(src) + tail) == is_unc(src),
{
    lemma_prefix_len_bound(src);
    let pl = prefix_len(src);
    let pfx = prefix_of(src);
    let q = pfx + tail;
    assert(forall|k: int| 0 <= k < pl ==> q[k] == src[k]);
    if is_drive(src) {
        assert(is_drive(q));
    } else {
        assert(is_unc(src));
        let server = run_len(src.skip(2));
        let share = run_len(src.skip(3 + server));
        assert(pl == 3 + server + share);
        lemma_run_len_chars(src.skip(2));
        lemma_run_len_chars(src.skip(3 + server));
        assert(!is_ascii_alpha(q[0]));
        assert(!is_drive(q));
        // the server run of the reassembled text
        assert(run_len(q.skip(2)) == server) by {
            assert forall|k: int| 0 <= k < server implies !is_sep(q.skip(2)[k], true) by {
                assert(q.skip(2)[k] == src[k + 2]);
                assert(src.skip(2)[k] == src[k + 2]);
            }
            assert(2 + server < src.len());
            assert(is_sep(src.skip(2)[server], true));
            assert(q.skip(2)[server] == src[2 + server]);
            lemma_run_len_value(q.skip(2), server);
        }
        assert(2 + server < q.len());
        // the share run of the reassembled text
        assert(run_len(q.skip(3 + server)) == share) by {
            assert forall|k: int| 0 <= k < share implies !is_sep(#[trigger] q.skip(3 + server)[k], true) by {
                assert(q.skip(3 + server)[k] == q[3 + server + k]);
                assert(q[3 + server + k] == src[3 + server + k]);
                assert(src.skip(3 + server)[k] == src[3 + server + k]);
            }
            assert(q.skip(3 + server)[share] == q[pl as int]);
            assert(q[pl as int] == tail[0]);
            lemma_run_len_value(q.skip(3 + server), share);
        }
        assert(unc_len(q) == pl);
    }
}

/// Against a canonical base directory, absolutization returns canonical
/// absolute paths, or echoes an input that was already absolute.
pub proof fn lemma_absolutize_canonical(p: Seq<char>, base: Seq<char>)
    requires
        canonical(base),
    ensures
        canonical(absolutize_from_spec(p, base)) || (absolutize_from_spec(p, base) == p
            && is_absolute(p)),
{
    lemma_prefix_len_bound(base);
    lemma_prefix_len_bound(p);
    assert(segs_nocur(segments_w(base)) && segs_plain(segments_w(base))) by {
        assert(forall|i: int|
            0 <= i < segments_w(base).len() ==> seg_wf(#[trigger] segments_w(base)[i], true));
    }
    lemma_drop_dots_id(segments_w(base));
    assert(components_w(base) == segments_w(base));
    if p.len() == 0 {
    } else {
        let sd = seed(p, base, true);
        let ts = fold_segs(sd.segs, sd.rest);
        let r = render(sd.prefix, sd.rooted, ts, '\\');
        let segs = segments_w(p);
        lemma_raw_segments_shaped(body_of(p), true);
        if prefix_len(p) == 0 && !has_root(p) {
            assert(body_of(p) =~= p);
            crate::model::lemma_first_segment(p, true);
        }
        if prefix_len(p) > 0 && !has_root(p) && segs.len() > 0 {
            crate::model::lemma_first_segment(body_of(p), true);
        }
        // the seed always roots the result and keeps a nonempty prefix,
        // with a canonical working list
        assert(sd.rooted && sd.prefix.len() > 0 && (sd.prefix == prefix_of(p) || sd.prefix
            == prefix_of(base)) && segs_wf(sd.segs, true)) by {
            let bs = components_w(base);
            if prefix_len(p) > 0 && !has_root(p) && segs.len() > 0 {
                let first = segs[0];
                if first == cur_tok() {
                } else if first == par_tok() {
                } else if drive_eq(prefix_of(p), prefix_of(base)) {
                    assert forall|i: int|
                        0 <= i < bs.push(first).len() implies seg_wf(
                        #[trigger] bs.push(first)[i],
                        true,
                    ) by {
                        if i < bs.len() {
                            assert(bs.push(first)[i] == bs[i]);
                        } else {
                            assert(bs.push(first)[i] == first);
                        }
                    }
                } else {
                    assert(seq![first][0] == first);
                }
            } else if prefix_len(p) == 0 && !has_root(p) {
                let first = segs[0];
                if first == cur_tok() {
                } else if first == par_tok() {
                } else {
                    assert forall|i: int|
                        0 <= i < bs.push(first).len() implies seg_wf(
                        #[trigger] bs.push(first)[i],
                        true,
                    ) by {
                        if i < bs.len() {
                            assert(bs.push(first)[i] == bs[i]);
                        } else {
                            assert(bs.push(first)[i] == first);
                        }
                    }
                }
            }
            if sd.segs.len() > 0 && bs.len() > 0 {
                assert(forall|i: int|
                    0 <= i < bs.len() - 1 ==> bs.drop_last()[i] == bs[i]);
            }
        }
        assert forall|i: int| 0 <= i < sd.rest.len() implies seg_shape(
            #[trigger] sd.rest[i],
            true,
        ) by {
            if has_root(p) || segs.len() == 0 {
                assert(sd.rest[i] == segs[i]);
            } else {
                assert(sd.rest[i] == segs[i + 1]);
            }
        }
        lemma_fold_wf(sd.segs, sd.rest, true);
        assert(segs_shaped(ts, true)) by {
            assert(forall|i: int| 0 <= i < ts.len() ==> seg_wf(#[trigger] ts[i], true));
        }
        // the rendering is canonical
        assert(canonical(r)) by {
            let tail = seq!['\\'] + join_segments(ts, '\\');
            assert(r =~= sd.prefix + tail);
            assert(is_sep(tail[0], true));
            if sd.prefix == prefix_of(p) {
                lemma_prefix_reparse(p, tail);
            } else {
                lemma_prefix_reparse(base, tail);
            }
            assert(prefix_len(r) == sd.prefix.len());
            assert(prefix_of(r) =~= sd.prefix);
            assert(r[sd.prefix.len() as int] == '\\');
            assert(has_root(r));
            assert(body_of(r) =~= tail);
            lemma_raw_of_render(seq!['\\'], ts, '\\', true);
            assert(tail =~= seq!['\\'] + join_segments(ts, '\\'));
            assert(segments_w(r) == ts);
        }
        if !(sd.changed || contains_par(sd.rest) || r.len() != p.len()) {
            assert(has_root(p) && prefix_len(p) > 0);
        }
    }
}

/// Idempotence: absolutizing what absolutization returned changes nothing,
/// whatever base directory either call uses, as long as the first base is
/// a canonical absolute path — the base-directory invariant, without which
/// the law fails: an un-normalized base passes its own redundancy into the
/// first result, which then resolves further.
pub proof fn lemma_absolutize_idempotent(p: Seq<char>, base: Seq<char>, base2: Seq<char>)
    requires
        canonical(base),
    ensures
        absolutize_from_spec(absolutize_from_spec(p, base), base2) == absolutize_from_spec(
            p,
            base,
        ),
{
    lemma_absolutize_canonical(p, base);
    let r0 = absolutize_from_spec(p, base);
    if canonical(r0) {
        lemma_no_op_fast_path(r0, base2);
    } else {
        // the input was echoed: it is absolute, so the second run repeats
        // the first, and echoes it again
        lemma_absolute_ignores_base(p, base, base2);
    }
}

} // verus!
