//! Rule engine: scans the lines of one file and emits findings.
//!
//! For each line that carries a usable assignment, a bounded window of
//! prior lines is consulted: rule `IdenticalRhs` fires when a prior line
//! computes the same normalized right-hand side, rule `RepeatedLhs` (only
//! evaluated when `IdenticalRhs` did not fire) when a prior line writes
//! the same normalized left-hand side, and rule `SelfAssignment` —
//! independently of the other two — when the trimmed sides agree
//! verbatim.

use vstd::prelude::*;

use crate::pattern::{Pattern, PatternModel, PatternType};
use crate::pattern::{spec_detect, spec_normalize, spec_tokenize, spec_trim_comments};
use crate::pattern::{detect_assignment, normalize_identifiers, trim_comment_tokens};

verus! {

/// A trailing carriage return dropped at a line break.
pub open spec fn chop_cr(s: Seq<char>) -> Seq<char> {
    if s.len() > 0 && s.last() == '\r' {
        s.drop_last()
    } else {
        s
    }
}

/// The lines of `s` read left to right, with `cur` the still-open line:
/// split at `\n` (a carriage return just before it is dropped), the final
/// unterminated piece kept, and no empty line after a final `\n`.
pub open spec fn lines_from(s: Seq<char>, cur: Seq<char>) -> Seq<Seq<char>>
    decreases s.len(),
{
    if s.len() == 0 {
        if cur.len() == 0 {
            Seq::empty()
        } else {
            seq![cur]
        }
    } else if s[0] == '\n' {
        seq![chop_cr(cur)] + lines_from(s.drop_first(), Seq::empty())
    } else {
        lines_from(s.drop_first(), cur.push(s[0]))
    }
}

/// The line sequence of a whole text.
pub open spec fn spec_lines(s: Seq<char>) -> Seq<Seq<char>> {
    lines_from(s, Seq::empty())
}

/// The sides of a line that carries a usable assignment: the detector
/// fired and both sides stay non-empty after comment trimming. The sides
/// come back trimmed, the operator verbatim.
pub open spec fn line_assignment(line: Seq<char>) -> Option<(Seq<Seq<char>>, Seq<char>, Seq<Seq<char>>)> {
    match spec_detect(spec_tokenize(line)) {
        None => None,
        Some(t) => {
            let lc = spec_trim_comments(t.0);
            let rc = spec_trim_comments(t.2);
            if lc.len() == 0 || rc.len() == 0 {
                None
            } else {
                Some((lc, t.1, rc))
            }
        },
    }
}

/// What rule `IdenticalRhs` sees of a prior line: its trimmed right-hand
/// side, provided the line is an assignment and that side is non-empty.
pub open spec fn prior_rhs(line: Seq<char>) -> Option<Seq<Seq<char>>> {
    match spec_detect(spec_tokenize(line)) {
        None => None,
        Some(t) => {
            let rc = spec_trim_comments(t.2);
            if rc.len() == 0 {
                None
            } else {
                Some(rc)
            }
        },
    }
}

/// What rule `RepeatedLhs` sees of a prior line: its trimmed left-hand
/// side, provided the line is an assignment and that side is non-empty.
pub open spec fn prior_lhs(line: Seq<char>) -> Option<Seq<Seq<char>>> {
    match spec_detect(spec_tokenize(line)) {
        None => None,
        Some(t) => {
            let lc = spec_trim_comments(t.0);
            if lc.len() == 0 {
                None
            } else {
                Some(lc)
            }
        },
    }
}

/// Lower edge of the window of prior lines for line `i`: `max(0, i - w)`.
pub open spec fn window_lo(i: int, w: nat) -> int {
    if i - w > 0 {
        i - w
    } else {
        0
    }
}

pub open spec fn r1_matches(line: Seq<char>, nrhs: Seq<Seq<char>>) -> bool {
    prior_rhs(line) is Some && spec_normalize(prior_rhs(line)->Some_0) == nrhs
}

pub open spec fn r2_matches(line: Seq<char>, nlhs: Seq<Seq<char>>) -> bool {
    prior_lhs(line) is Some && spec_normalize(prior_lhs(line)->Some_0) == nlhs
}

/// First index in `[j, i)` whose line matches rule `IdenticalRhs` against
/// the normalized right-hand side `nrhs`, or -1.
pub open spec fn first_r1_match(lines: Seq<Seq<char>>, nrhs: Seq<Seq<char>>, j: int, i: int) -> int
    decreases i - j,
{
    if j < 0 || j >= i {
        -1
    } else if r1_matches(lines[j], nrhs) {
        j
    } else {
        first_r1_match(lines, nrhs, j + 1, i)
    }
}

/// First index in `[j, i)` whose line matches rule `RepeatedLhs` against
/// the normalized left-hand side `nlhs`, or -1.
pub open spec fn first_r2_match(lines: Seq<Seq<char>>, nlhs: Seq<Seq<char>>, j: int, i: int) -> int
    decreases i - j,
{
    if j < 0 || j >= i {
        -1
    } else if r2_matches(lines[j], nlhs) {
        j
    } else {
        first_r2_match(lines, nlhs, j + 1, i)
    }
}

/// The findings emitted for line `i`: at most one of `IdenticalRhs` /
/// `RepeatedLhs` (in that priority), then — independently — at most one
/// `SelfAssignment`. `IdenticalRhs` and `SelfAssignment` report line `i`
/// itself; `RepeatedLhs` reports the matched prior line.
pub open spec fn spec_line_findings(lines: Seq<Seq<char>>, w: nat, i: int) -> Seq<PatternModel> {
    match line_assignment(lines[i]) {
        None => Seq::empty(),
        Some(a) => {
            let lo = window_lo(i, w);
            let j1 = first_r1_match(lines, spec_normalize(a.2), lo, i);
            let j2 = first_r2_match(lines, spec_normalize(a.0), lo, i);
            let head: Seq<PatternModel> = if j1 >= 0 {
                seq![
                    PatternModel {
                        pattern_type: PatternType::IdenticalRhs,
                        line_num: (i + 1) as nat,
                        content: lines[i],
                        lhs: a.0,
                        rhs: a.2,
                        operators: seq![a.1],
                    },
                ]
            } else if j2 >= 0 {
                seq![
                    PatternModel {
                        pattern_type: PatternType::RepeatedLhs,
                        line_num: (j2 + 1) as nat,
                        content: lines[j2],
                        lhs: prior_lhs(lines[j2])->Some_0,
                        rhs: spec_detect(spec_tokenize(lines[j2]))->Some_0.2,
                        operators: seq![spec_detect(spec_tokenize(lines[j2]))->Some_0.1],
                    },
                ]
            } else {
                Seq::empty()
            };
            let tail: Seq<PatternModel> = if a.0 == a.2 {
                seq![
                    PatternModel {
                        pattern_type: PatternType::SelfAssignment,
                        line_num: (i + 1) as nat,
                        content: lines[i],
                        lhs: a.0,
                        rhs: a.2,
                        operators: seq![a.1],
                    },
                ]
            } else {
                Seq::empty()
            };
            head + tail
        },
    }
}

/// All findings for the lines before index `n`, in emission order.
pub open spec fn spec_findings_upto(lines: Seq<Seq<char>>, w: nat, n: int) -> Seq<PatternModel>
    decreases n,
{
    if n <= 0 {
        Seq::empty()
    } else {
        spec_findings_upto(lines, w, n - 1) + spec_line_findings(lines, w, n - 1)
    }
}

/// The full output of the rule engine on one file.
pub open spec fn spec_analyze(lines: Seq<Seq<char>>, w: nat) -> Seq<PatternModel> {
    spec_findings_upto(lines, w, lines.len() as int)
}

/// Split a whole text into its lines, as `spec_lines` describes.
pub fn split_lines(content: &str) -> (r: Vec<String>)
    ensures
        r.deep_view() == spec_lines(content@),
{
    let chars = crate::pattern::chars_of(content);
    let m = chars.len();
    let mut lines: Vec<String> = Vec::new();
    let mut cur: Vec<char> = Vec::new();
    let mut p: usize = 0;
    assert(chars@.skip(0) =~= chars@);
    assert(lines.deep_view() =~= Seq::<Seq<char>>::empty());
    assert(Seq::<Seq<char>>::empty() + lines_from(chars@, Seq::<char>::empty()) =~= lines_from(
        chars@,
        Seq::<char>::empty(),
    ));
    while p < m
        invariant
            p <= m,
            m == chars.len(),
            chars@ == content@,
            lines.deep_view() + lines_from(chars@.skip(p as int), cur@) == spec_lines(content@),
        decreases m - p,
    {
        let c = chars[p];
        let ghost rest = chars@.skip(p as int);
        let ghost rest1 = chars@.skip(p as int + 1);
        let ghost lines0 = lines.deep_view();
        let ghost cur0 = cur@;
        assert(rest[0] == c);
        assert(rest.drop_first() =~= rest1);
        if c == '\n' {
            if cur.len() > 0 && cur[cur.len() - 1] == '\r' {
                cur.pop();
                assert(cur@ =~= chop_cr(cur0));
            } else {
                assert(cur@ == chop_cr(cur0));
            }
            let t = crate::pattern::string_from_chars(&cur);
            lines.push(t);
            cur = Vec::new();
            assert(lines.deep_view() =~= lines0 + seq![chop_cr(cur0)]);
            assert(lines_from(rest, cur0) == seq![chop_cr(cur0)] + lines_from(
                rest1,
                Seq::<char>::empty(),
            ));
            assert((lines0 + seq![chop_cr(cur0)]) + lines_from(rest1, Seq::<char>::empty())
                =~= lines0 + (seq![chop_cr(cur0)] + lines_from(rest1, Seq::<char>::empty())));
        } else {
            cur.push(c);
            assert(cur@ =~= cur0.push(c));
            assert(lines_from(rest, cur0) == lines_from(rest1, cur0.push(c)));
        }
        p = p + 1;
    }
    assert(chars@.skip(m as int) =~= Seq::<char>::empty());
    let ghost lines0 = lines.deep_view();
    let ghost cur0 = cur@;
    if cur.len() > 0 {
        let t = crate::pattern::string_from_chars(&cur);
        lines.push(t);
        assert(lines.deep_view() =~= lines0 + seq![cur0]);
        assert(lines_from(Seq::<char>::empty(), cur0) == seq![cur0]);
    } else {
        assert(cur0 =~= Seq::<char>::empty());
        assert(lines_from(Seq::<char>::empty(), cur0) == Seq::<Seq<char>>::empty());
        assert(lines0 + Seq::<Seq<char>>::empty() =~= lines0);
    }
    lines
}

/// Element-wise clones of a token vector.
fn clone_tokens(v: &Vec<String>) -> (r: Vec<String>)
    ensures
        r.deep_view() == v.deep_view(),
{
    let n = v.len();
    let mut r: Vec<String> = Vec::new();
    let mut i: usize = 0;
    while i < n
        invariant
            i <= n,
            n == v.len(),
            r.deep_view() =~= v.deep_view().take(i as int),
        decreases n - i,
    {
        let ghost r0 = r.deep_view();
        r.push(v[i].clone());
        i = i + 1;
        assert(r.deep_view() =~= r0.push(v.deep_view()[i - 1]));
        assert(r.deep_view() =~= v.deep_view().take(i as int));
    }
    assert(v.deep_view().take(n as int) =~= v.deep_view());
    r
}

/// Element-wise equality of two token vectors.
fn vec_str_eq(a: &Vec<String>, b: &Vec<String>) -> (r: bool)
    ensures
        r == (a.deep_view() == b.deep_view()),
{
    if a.len() != b.len() {
        assert(a.deep_view().len() == a.len() && b.deep_view().len() == b.len());
        return false;
    }
    let n = a.len();
    let mut i: usize = 0;
    while i < n
        invariant
            i <= n,
            n == a.len(),
            n == b.len(),
            forall|k: int| 0 <= k < i ==> a.deep_view()[k] == b.deep_view()[k],
        decreases n - i,
    {
        if !crate::pattern::str_eq(a[i].as_str(), b[i].as_str()) {
            assert(a.deep_view()[i as int] != b.deep_view()[i as int]);
            return false;
        }
        i = i + 1;
    }
    assert(a.deep_view() =~= b.deep_view());
    true
}

/// The usable assignment of one line, sides trimmed: nothing when the
/// detector finds no assignment or a trimmed side comes up empty.
fn line_assignment_exec(line: &str) -> (r: Option<(Vec<String>, String, Vec<String>)>)
    ensures
        ({
            let d = line_assignment(line@);
            match r {
                None => d is None,
                Some(t) => {
                    &&& d is Some
                    &&& t.0.deep_view() == d->Some_0.0
                    &&& t.1@ == d->Some_0.1
                    &&& t.2.deep_view() == d->Some_0.2
                },
            }
        }),
{
    match detect_assignment(line) {
        None => None,
        Some((lhs, op, rhs)) => {
            let lc = trim_comment_tokens(lhs.as_slice());
            let rc = trim_comment_tokens(rhs.as_slice());
            if lc.len() == 0 || rc.len() == 0 {
                None
            } else {
                Some((lc, op, rc))
            }
        },
    }
}

/// The trimmed right-hand side of a prior line, as rule `IdenticalRhs`
/// consults it.
fn prior_rhs_exec(line: &str) -> (r: Option<Vec<String>>)
    ensures
        ({
            let d = prior_rhs(line@);
            match r {
                None => d is None,
                Some(v) => d is Some && v.deep_view() == d->Some_0,
            }
        }),
{
    match detect_assignment(line) {
        None => None,
        Some((_lhs, _op, rhs)) => {
            let rc = trim_comment_tokens(rhs.as_slice());
            if rc.len() == 0 {
                None
            } else {
                Some(rc)
            }
        },
    }
}

/// What rule `RepeatedLhs` keeps of a prior line: its trimmed left-hand
/// side, with the raw operator and right-hand side for the record.
fn prior_r2_exec(line: &str) -> (r: Option<(Vec<String>, String, Vec<String>)>)
    ensures
        ({
            let d = prior_lhs(line@);
            let t = spec_detect(spec_tokenize(line@));
            match r {
                None => d is None,
                Some(x) => {
                    &&& d is Some
                    &&& x.0.deep_view() == d->Some_0
                    &&& x.1@ == t->Some_0.1
                    &&& x.2.deep_view() == t->Some_0.2
                },
            }
        }),
{
    match detect_assignment(line) {
        None => None,
        Some((lhs, op, rhs)) => {
            let lc = trim_comment_tokens(lhs.as_slice());
            if lc.len() == 0 {
                None
            } else {
                Some((lc, op, rhs))
            }
        },
    }
}

/// Scan the window `[lo, i)` for the first prior line whose normalized
/// right-hand side equals `nrhs`.
fn scan_r1(lines: &Vec<String>, lo: usize, i: usize, nrhs: &Vec<String>) -> (r: Option<usize>)
    requires
        lo <= i,
        i < lines.len(),
    ensures
        ({
            let f = first_r1_match(lines.deep_view(), nrhs.deep_view(), lo as int, i as int);
            match r {
                None => f == -1,
                Some(j) => lo <= j < i && f == j,
            }
        }),
{
    let ghost ld = lines.deep_view();
    let ghost nd = nrhs.deep_view();
    let mut j = lo;
    while j < i
        invariant
            lo <= j <= i,
            i < lines.len(),
            ld == lines.deep_view(),
            nd == nrhs.deep_view(),
            first_r1_match(ld, nd, lo as int, i as int) == first_r1_match(ld, nd, j as int, i as int),
        decreases i - j,
    {
        match prior_rhs_exec(lines[j].as_str()) {
            Some(prhs) => {
                let nprhs = normalize_identifiers(prhs.as_slice());
                if vec_str_eq(&nprhs, nrhs) {
                    assert(r1_matches(ld[j as int], nd));
                    assert(first_r1_match(ld, nd, j as int, i as int) == j);
                    return Some(j);
                }
            },
            None => {},
        }
        assert(!r1_matches(ld[j as int], nd));
        assert(first_r1_match(ld, nd, j as int, i as int) == first_r1_match(
            ld,
            nd,
            j as int + 1,
            i as int,
        ));
        j = j + 1;
    }
    assert(first_r1_match(ld, nd, j as int, i as int) == -1);
    None
}

/// Scan the window `[lo, i)` for the first prior line whose normalized
/// left-hand side equals `nlhs`.
fn scan_r2(lines: &Vec<String>, lo: usize, i: usize, nlhs: &Vec<String>) -> (r: Option<usize>)
    requires
        lo <= i,
        i < lines.len(),
    ensures
        ({
            let f = first_r2_match(lines.deep_view(), nlhs.deep_view(), lo as int, i as int);
            match r {
                None => f == -1,
                Some(j) => lo <= j < i && f == j,
            }
        }),
{
    let ghost ld = lines.deep_view();
    let ghost nd = nlhs.deep_view();
    let mut j = lo;
    while j < i
        invariant
            lo <= j <= i,
            i < lines.len(),
            ld == lines.deep_view(),
            nd == nlhs.deep_view(),
            first_r2_match(ld, nd, lo as int, i as int) == first_r2_match(ld, nd, j as int, i as int),
        decreases i - j,
    {
        match prior_r2_exec(lines[j].as_str()) {
            Some(x) => {
                let nplhs = normalize_identifiers(x.0.as_slice());
                if vec_str_eq(&nplhs, nlhs) {
                    assert(r2_matches(ld[j as int], nd));
                    assert(first_r2_match(ld, nd, j as int, i as int) == j);
                    return Some(j);
                }
            },
            None => {},
        }
        assert(!r2_matches(ld[j as int], nd));
        assert(first_r2_match(ld, nd, j as int, i as int) == first_r2_match(
            ld,
            nd,
            j as int + 1,
            i as int,
        ));
        j = j + 1;
    }
    assert(first_r2_match(ld, nd, j as int, i as int) == -1);
    None
}

/// When the scan over `[j0, i)` lands on an index, that index lies in the
/// window and its line matches rule `RepeatedLhs`.
pub proof fn lemma_first_r2_found(lines: Seq<Seq<char>>, nlhs: Seq<Seq<char>>, j0: int, i: int)
    requires
        first_r2_match(lines, nlhs, j0, i) != -1,
    ensures
        j0 <= first_r2_match(lines, nlhs, j0, i) < i,
        r2_matches(lines[first_r2_match(lines, nlhs, j0, i)], nlhs),
    decreases i - j0,
{
    if !(j0 < 0 || j0 >= i) && !r2_matches(lines[j0], nlhs) {
        lemma_first_r2_found(lines, nlhs, j0 + 1, i);
    }
}

/// Window bound: a `RepeatedLhs` finding for line `i` points at a line in
/// the window `[max(0, i-w), i)`; every other finding points at line `i`
/// itself. Line numbers are 1-based.
pub proof fn lemma_window_bound(lines: Seq<Seq<char>>, w: nat, i: int)
    requires
        0 <= i < lines.len(),
    ensures
        forall|k: int|
            0 <= k < spec_line_findings(lines, w, i).len() ==> {
                let f = #[trigger] spec_line_findings(lines, w, i)[k];
                &&& (f.pattern_type == PatternType::RepeatedLhs ==> window_lo(i, w) < f.line_num
                    <= i)
                &&& (f.pattern_type != PatternType::RepeatedLhs ==> f.line_num == i + 1)
            },
{
    if line_assignment(lines[i]) is Some {
        let a = line_assignment(lines[i])->Some_0;
        let lo = window_lo(i, w);
        let j1 = first_r1_match(lines, spec_normalize(a.2), lo, i);
        let j2 = first_r2_match(lines, spec_normalize(a.0), lo, i);
        if j2 >= 0 {
            lemma_first_r2_found(lines, spec_normalize(a.0), lo, i);
        }
        let fs = spec_line_findings(lines, w, i);
        assert forall|k: int| 0 <= k < fs.len() implies {
            let f = #[trigger] fs[k];
            &&& (f.pattern_type == PatternType::RepeatedLhs ==> window_lo(i, w) < f.line_num <= i)
            &&& (f.pattern_type != PatternType::RepeatedLhs ==> f.line_num == i + 1)
        } by {
            if j1 >= 0 {
                if k == 0 {
                    assert(fs[k].pattern_type == PatternType::IdenticalRhs);
                    assert(fs[k].line_num == i + 1);
                } else {
                    assert(fs[k].pattern_type == PatternType::SelfAssignment);
                    assert(fs[k].line_num == i + 1);
                }
            } else if j2 >= 0 {
                if k == 0 {
                    assert(fs[k].pattern_type == PatternType::RepeatedLhs);
                    assert(fs[k].line_num == j2 + 1);
                } else {
                    assert(fs[k].pattern_type == PatternType::SelfAssignment);
                    assert(fs[k].line_num == i + 1);
                }
            } else {
                assert(fs[k].pattern_type == PatternType::SelfAssignment);
                assert(fs[k].line_num == i + 1);
            }
        }
    }
}

/// Exclusion of the two windowed rules: the findings for one line never
/// hold both an `IdenticalRhs` and a `RepeatedLhs` record.
pub proof fn lemma_r1_r2_exclusive(lines: Seq<Seq<char>>, w: nat, i: int)
    requires
        0 <= i < lines.len(),
    ensures
        forall|k1: int, k2: int|
            0 <= k1 < spec_line_findings(lines, w, i).len() && 0 <= k2 < spec_line_findings(
                lines,
                w,
                i,
            ).len() ==> !((#[trigger] spec_line_findings(lines, w, i)[k1]).pattern_type
                == PatternType::IdenticalRhs && (#[trigger] spec_line_findings(lines, w, i)[k2]).pattern_type
                == PatternType::RepeatedLhs),
{
}

/// A `SelfAssignment` finding appears for line `i` exactly when the line
/// carries a usable assignment whose trimmed sides agree verbatim, with
/// no normalization involved.
pub proof fn lemma_self_assignment_iff(lines: Seq<Seq<char>>, w: nat, i: int)
    requires
        0 <= i < lines.len(),
    ensures
        (exists|k: int|
            0 <= k < spec_line_findings(lines, w, i).len() && (#[trigger] spec_line_findings(
                lines,
                w,
                i,
            )[k]).pattern_type == PatternType::SelfAssignment) <==> (line_assignment(lines[i]) is Some
            && line_assignment(lines[i])->Some_0.0 == line_assignment(lines[i])->Some_0.2),
{
    if line_assignment(lines[i]) is Some {
        let a = line_assignment(lines[i])->Some_0;
        if a.0 == a.2 {
            let fs = spec_line_findings(lines, w, i);
            assert(fs[fs.len() - 1].pattern_type == PatternType::SelfAssignment);
        }
    }
}

/// Determinism of the engine: any two results that meet the engine's
/// contract for the same lines and window are equal.
pub proof fn lemma_analyze_deterministic(
    a: Seq<PatternModel>,
    b: Seq<PatternModel>,
    lines: Seq<Seq<char>>,
    w: nat,
)
    requires
        a == spec_analyze(lines, w),
        b == spec_analyze(lines, w),
    ensures
        a == b,
{
}

/// All findings the rules emit for line `i`, in emission order.
fn findings_for_line(lines: &Vec<String>, window: usize, i: usize) -> (r: Vec<Pattern>)
    requires
        i < lines.len(),
    ensures
        r.deep_view() == spec_line_findings(lines.deep_view(), window as nat, i as int),
{
    let ghost ld = lines.deep_view();
    let ghost w = window as nat;
    match line_assignment_exec(lines[i].as_str()) {
        None => {
            let out: Vec<Pattern> = Vec::new();
            assert(out.deep_view() =~= Seq::<PatternModel>::empty());
            assert(spec_line_findings(ld, w, i as int) == Seq::<PatternModel>::empty());
            out
        },
        Some((lc, op, rc)) => {
            let ghost a = line_assignment(ld[i as int])->Some_0;
            let nlhs = normalize_identifiers(lc.as_slice());
            let nrhs = normalize_identifiers(rc.as_slice());
            let lo = if i > window {
                i - window
            } else {
                0
            };
            assert(lo as int == window_lo(i as int, w));
            let ghost j1 = first_r1_match(ld, spec_normalize(a.2), lo as int, i as int);
            let ghost j2 = first_r2_match(ld, spec_normalize(a.0), lo as int, i as int);
            let ghost head_spec: Seq<PatternModel> = if j1 >= 0 {
                seq![
                    PatternModel {
                        pattern_type: PatternType::IdenticalRhs,
                        line_num: (i + 1) as nat,
                        content: ld[i as int],
                        lhs: a.0,
                        rhs: a.2,
                        operators: seq![a.1],
                    },
                ]
            } else if j2 >= 0 {
                seq![
                    PatternModel {
                        pattern_type: PatternType::RepeatedLhs,
                        line_num: (j2 + 1) as nat,
                        content: ld[j2],
                        lhs: prior_lhs(ld[j2])->Some_0,
                        rhs: spec_detect(spec_tokenize(ld[j2]))->Some_0.2,
                        operators: seq![spec_detect(spec_tokenize(ld[j2]))->Some_0.1],
                    },
                ]
            } else {
                Seq::empty()
            };
            let ghost tail_spec: Seq<PatternModel> = if a.0 == a.2 {
                seq![
                    PatternModel {
                        pattern_type: PatternType::SelfAssignment,
                        line_num: (i + 1) as nat,
                        content: ld[i as int],
                        lhs: a.0,
                        rhs: a.2,
                        operators: seq![a.1],
                    },
                ]
            } else {
                Seq::empty()
            };
            assert(spec_line_findings(ld, w, i as int) == head_spec + tail_spec);
            let mut out: Vec<Pattern> = Vec::new();
            assert(out.deep_view() =~= Seq::<PatternModel>::empty());
            match scan_r1(lines, lo, i, &nrhs) {
                Some(_) => {
                    assert(j1 >= 0);
                    let ops = vec![op.clone()];
                    assert(ops.deep_view() =~= seq![a.1]);
                    out.push(
                        Pattern {
                            pattern_type: PatternType::IdenticalRhs,
                            line_num: i + 1,
                            content: lines[i].clone(),
                            lhs: clone_tokens(&lc),
                            rhs: clone_tokens(&rc),
                            operators: ops,
                        },
                    );
                    assert(out.deep_view() =~= head_spec);
                },
                None => {
                    assert(j1 == -1);
                    match scan_r2(lines, lo, i, &nlhs) {
                        Some(j) => {
                            assert(j2 == j);
                            proof {
                                lemma_first_r2_found(ld, spec_normalize(a.0), lo as int, i as int);
                            }
                            match prior_r2_exec(lines[j].as_str()) {
                                Some(x) => {
                                    let ops = vec![x.1];
                                    assert(ops.deep_view() =~= seq![
                                        spec_detect(spec_tokenize(ld[j as int]))->Some_0.1,
                                    ]);
                                    out.push(
                                        Pattern {
                                            pattern_type: PatternType::RepeatedLhs,
                                            line_num: j + 1,
                                            content: lines[j].clone(),
                                            lhs: x.0,
                                            rhs: x.2,
                                            operators: ops,
                                        },
                                    );
                                    assert(out.deep_view() =~= head_spec);
                                },
                                None => {
                                    assert(r2_matches(ld[j as int], spec_normalize(a.0)));
                                    assert(false);
                                },
                            }
                        },
                        None => {
                            assert(j2 == -1);
                            assert(out.deep_view() =~= head_spec);
                        },
                    }
                },
            }
            let ghost head = out.deep_view();
            if vec_str_eq(&lc, &rc) {
                assert(a.0 == a.2);
                let ops = vec![op];
                assert(ops.deep_view() =~= seq![a.1]);
                out.push(
                    Pattern {
                        pattern_type: PatternType::SelfAssignment,
                        line_num: i + 1,
                        content: lines[i].clone(),
                        lhs: lc,
                        rhs: rc,
                        operators: ops,
                    },
                );
                assert(out.deep_view() =~= head + tail_spec);
            } else {
                assert(tail_spec =~= Seq::<PatternModel>::empty());
                assert(head + tail_spec =~= head);
            }
            assert(out.deep_view() == head_spec + tail_spec);
            out
        },
    }
}

/// Run the rule engine over a whole file: split `content` into lines and
/// gather every finding, in line order.
pub fn analyze_file_content(content: &str, window: usize) -> (r: Vec<Pattern>)
    ensures
        r.deep_view() == spec_analyze(spec_lines(content@), window as nat),
{
    let lines = split_lines(content);
    let ghost ld = spec_lines(content@);
    let mut patterns: Vec<Pattern> = Vec::new();
    let mut i: usize = 0;
    assert(patterns.deep_view() =~= Seq::<PatternModel>::empty());
    while i < lines.len()
        invariant
            i <= lines.len(),
            ld == spec_lines(content@),
            lines.deep_view() == ld,
            patterns.deep_view() == spec_findings_upto(ld, window as nat, i as int),
        decreases lines.len() - i,
    {
        let ghost p0 = patterns.deep_view();
        let mut f = findings_for_line(&lines, window, i);
        let ghost f0 = f.deep_view();
        patterns.append(&mut f);
        i = i + 1;
        assert(patterns.deep_view() =~= p0 + f0);
    }
    assert(i as int == ld.len());
    patterns
}

} // verus!
