//! Lexical layer: tokenizer, token normalizer, and assignment detector.
//!
//! A token is a non-empty run of characters cut out of one source line.
//! The tokenizer is deliberately coarse: it drops a trailing `//` comment,
//! splits on whitespace, and keeps `[`, `]` and `,` as single-character
//! tokens; everything else stays glued together.

use vstd::prelude::*;

verus! {

/// The closed set of rules a finding can cite.
#[derive(Debug, Clone, Copy, PartialEq, Eq, Structural)]
pub enum PatternType {
    IdenticalRhs,
    RepeatedLhs,
    SelfAssignment,
}

/// One finding: the rule that fired, the 1-based line number the record
/// points at, the raw content of that line, and the assignment pieces the
/// rule looked at.
#[derive(Debug)]
pub struct Pattern {
    pub pattern_type: PatternType,
    pub line_num: usize,
    pub content: String,
    pub lhs: Vec<String>,
    pub rhs: Vec<String>,
    pub operators: Vec<String>,
}

/// Mathematical image of a `Pattern`.
#[verifier::ext_equal]
pub ghost struct PatternModel {
    pub pattern_type: PatternType,
    pub line_num: nat,
    pub content: Seq<char>,
    pub lhs: Seq<Seq<char>>,
    pub rhs: Seq<Seq<char>>,
    pub operators: Seq<Seq<char>>,
}

impl View for Pattern {
    type V = PatternModel;

    open spec fn view(&self) -> PatternModel {
        PatternModel {
            pattern_type: self.pattern_type,
            line_num: self.line_num as nat,
            content: self.content@,
            lhs: self.lhs.deep_view(),
            rhs: self.rhs.deep_view(),
            operators: self.operators.deep_view(),
        }
    }
}

impl DeepView for Pattern {
    type V = PatternModel;

    open spec fn deep_view(&self) -> PatternModel {
        self.view()
    }
}

/// ASCII whitespace: the separator class the tokenizer discards.
pub open spec fn is_space_char(c: char) -> bool {
    c == ' ' || c == '\t' || c == '\r' || c == '\n' || c == '\u{b}' || c == '\u{c}'
}

/// `[`, `]` and `,` stand alone as single-character tokens.
pub open spec fn is_punct_char(c: char) -> bool {
    c == '[' || c == ']' || c == ','
}

/// The line truncated at the first occurrence of the comment marker `//`.
pub open spec fn strip_line_comment(s: Seq<char>) -> Seq<char>
    decreases s.len(),
{
    if s.len() < 2 {
        s
    } else if s[0] == '/' && s[1] == '/' {
        Seq::empty()
    } else {
        seq![s[0]] + strip_line_comment(s.drop_first())
    }
}

/// Tokens of `s` read left to right, with `cur` the still-open token
/// gathered so far.
pub open spec fn tokens_from(s: Seq<char>, cur: Seq<char>) -> Seq<Seq<char>>
    decreases s.len(),
{
    let flushed: Seq<Seq<char>> = if cur.len() > 0 {
        seq![cur]
    } else {
        Seq::empty()
    };
    if s.len() == 0 {
        flushed
    } else if is_space_char(s[0]) {
        flushed + tokens_from(s.drop_first(), Seq::empty())
    } else if is_punct_char(s[0]) {
        flushed + seq![seq![s[0]]] + tokens_from(s.drop_first(), Seq::empty())
    } else {
        tokens_from(s.drop_first(), cur.push(s[0]))
    }
}

/// The token sequence of one raw source line: comment tail removed, then
/// split on whitespace with `[`, `]` and `,` as single-character tokens.
pub open spec fn spec_tokenize(line: Seq<char>) -> Seq<Seq<char>> {
    tokens_from(strip_line_comment(line), Seq::empty())
}

pub open spec fn is_digit_char(c: char) -> bool {
    '0' <= c && c <= '9'
}

pub open spec fn is_alnum_char(c: char) -> bool {
    is_digit_char(c) || ('a' <= c && c <= 'z') || ('A' <= c && c <= 'Z')
}

/// The digit part of a would-be numeric literal: everything after an
/// optional leading sign.
pub open spec fn numeric_digits(t: Seq<char>) -> Seq<char> {
    if t.len() > 0 && (t[0] == '+' || t[0] == '-') {
        t.drop_first()
    } else {
        t
    }
}

/// A signed decimal integer literal: an optional sign, then digits only,
/// at least one.
pub open spec fn is_numeric_token(t: Seq<char>) -> bool {
    &&& t.len() > 0
    &&& numeric_digits(t).len() > 0
    &&& forall|i: int|
        0 <= i < numeric_digits(t).len() ==> is_digit_char(#[trigger] numeric_digits(t)[i])
}

/// Every character ASCII alphanumeric.
pub open spec fn is_plain_token(t: Seq<char>) -> bool {
    forall|i: int| 0 <= i < t.len() ==> is_alnum_char(#[trigger] t[i])
}

/// Canonical class of one token: numeric literals collapse to `<NUM>`,
/// plain identifiers to `<VAR>`, everything else stays verbatim.
pub open spec fn norm_token(t: Seq<char>) -> Seq<char> {
    if is_numeric_token(t) {
        "<NUM>"@
    } else if is_plain_token(t) {
        "<VAR>"@
    } else {
        t
    }
}

/// Element-wise normalization of a token sequence.
pub open spec fn spec_normalize(ts: Seq<Seq<char>>) -> Seq<Seq<char>> {
    ts.map_values(|t: Seq<char>| norm_token(t))
}

/// The recognized assignment operators, matched exactly against one token.
pub open spec fn is_assign_op(t: Seq<char>) -> bool {
    ||| t == "="@
    ||| t == "+="@
    ||| t == "-="@
    ||| t == "*="@
    ||| t == "/="@
    ||| t == "%="@
    ||| t == "&="@
    ||| t == "|="@
    ||| t == "^="@
    ||| t == "<<="@
    ||| t == ">>="@
    ||| t == "&&="@
}

/// Index of the first assignment-operator token at or after `i`, or -1.
pub open spec fn first_op_at(ts: Seq<Seq<char>>, i: int) -> int
    decreases ts.len() - i,
{
    if i < 0 || i >= ts.len() {
        -1
    } else if is_assign_op(ts[i]) {
        i
    } else {
        first_op_at(ts, i + 1)
    }
}

/// The detector on an already-tokenized line: with fewer than three tokens
/// there is no assignment; otherwise the line splits at the leftmost
/// operator token.
pub open spec fn spec_detect(ts: Seq<Seq<char>>) -> Option<(Seq<Seq<char>>, Seq<char>, Seq<Seq<char>>)> {
    if ts.len() < 3 {
        None
    } else {
        let p = first_op_at(ts, 0);
        if p < 0 {
            None
        } else {
            Some((ts.take(p), ts[p], ts.skip(p + 1)))
        }
    }
}

/// A token that begins an inline comment tail: `#...` or `//...`.
pub open spec fn is_comment_token(t: Seq<char>) -> bool {
    (t.len() >= 1 && t[0] == '#') || (t.len() >= 2 && t[0] == '/' && t[1] == '/')
}

/// Longest prefix of `ts` holding no comment token.
pub open spec fn spec_trim_comments(ts: Seq<Seq<char>>) -> Seq<Seq<char>>
    decreases ts.len(),
{
    if ts.len() == 0 {
        Seq::empty()
    } else if is_comment_token(ts[0]) {
        Seq::empty()
    } else {
        seq![ts[0]] + spec_trim_comments(ts.drop_first())
    }
}

pub(crate) fn is_space_exec(c: char) -> (b: bool)
    ensures
        b == is_space_char(c),
{
    c == ' ' || c == '\t' || c == '\r' || c == '\n' || c == '\u{b}' || c == '\u{c}'
}

fn is_punct_exec(c: char) -> (b: bool)
    ensures
        b == is_punct_char(c),
{
    c == '[' || c == ']' || c == ','
}

/// The characters of `s`, gathered into a vector.
pub(crate) fn chars_of(s: &str) -> (r: Vec<char>)
    ensures
        r@ == s@,
{
    let n = s.unicode_len();
    let mut r: Vec<char> = Vec::new();
    let mut i: usize = 0;
    while i < n
        invariant
            i <= n,
            n == s@.len(),
            r@ == s@.take(i as int),
        decreases n - i,
    {
        r.push(s.get_char(i));
        i = i + 1;
        assert(r@ =~= s@.take(i as int));
    }
    assert(s@.take(n as int) =~= s@);
    r
}

/// Relies on `String`'s `FromIterator<char>` implementation: collecting an
/// iterator over the characters of `v` yields exactly those characters, in
/// order.
#[verifier::external_body]
pub(crate) fn string_from_chars(v: &Vec<char>) -> (r: String)
    ensures
        r@ == v@,
{
    v.iter().collect()
}

/// `strip_line_comment` keeps exactly the prefix before the first `//`
/// pair; `k` names where that pair sits (or the length, when there is
/// none).
proof fn lemma_strip_comment_prefix(s: Seq<char>, k: int)
    requires
        0 <= k <= s.len(),
        forall|j: int| 0 <= j < k && j + 1 < s.len() ==> !(#[trigger] s[j] == '/' && s[j + 1] == '/'),
        k < s.len() ==> k + 1 < s.len() && s[k] == '/' && s[k + 1] == '/',
    ensures
        strip_line_comment(s) == s.take(k),
    decreases s.len(),
{
    if s.len() < 2 {
        assert(k == s.len());
        assert(s.take(k) =~= s);
    } else if s[0] == '/' && s[1] == '/' {
        assert(k == 0);
        assert(s.take(0) =~= Seq::<char>::empty());
    } else {
        assert(k >= 1);
        let t = s.drop_first();
        assert forall|j: int| 0 <= j < k - 1 && j + 1 < t.len() implies !(#[trigger] t[j] == '/'
            && t[j + 1] == '/') by {
            assert(t[j] == s[j + 1]);
            assert(t[j + 1] == s[j + 2]);
        }
        lemma_strip_comment_prefix(t, k - 1);
        assert(seq![s[0]] + t.take(k - 1) =~= s.take(k));
    }
}

/// Split one raw source line into tokens: the part before any `//` is
/// scanned, whitespace separates tokens, `[`, `]` and `,` stand alone, and
/// any other maximal run of characters forms one token.
pub fn tokenize_line(line: &str) -> (r: Vec<String>)
    ensures
        r.deep_view() == spec_tokenize(line@),
{
    let mut chars = chars_of(line);
    let n = chars.len();

    // Truncate at the first `//`.
    let mut cut: usize = n;
    let mut i: usize = 0;
    while i < n && i + 1 < n && cut == n
        invariant
            i <= n,
            n == chars.len(),
            chars@ == line@,
            cut == n || (cut == i && cut + 1 < n && chars@[cut as int] == '/' && chars@[cut as int
                + 1] == '/'),
            forall|j: int|
                0 <= j < i && j + 1 < n ==> !(#[trigger] chars@[j] == '/' && chars@[j + 1] == '/'),
        decreases n - i + (if cut == n { 1int } else { 0int }),
    {
        if chars[i] == '/' && chars[i + 1] == '/' {
            cut = i;
        } else {
            i = i + 1;
        }
    }
    proof {
        lemma_strip_comment_prefix(line@, cut as int);
    }
    chars.truncate(cut);
    assert(chars@ == strip_line_comment(line@));

    // Scan the remainder left to right.
    let m = chars.len();
    let mut toks: Vec<String> = Vec::new();
    let mut cur: Vec<char> = Vec::new();
    let mut p: usize = 0;
    assert(chars@.skip(0) =~= chars@);
    assert(toks.deep_view() =~= Seq::<Seq<char>>::empty());
    assert(Seq::<Seq<char>>::empty() + tokens_from(chars@, Seq::<char>::empty()) =~= tokens_from(
        chars@,
        Seq::<char>::empty(),
    ));
    while p < m
        invariant
            p <= m,
            m == chars.len(),
            chars@ == strip_line_comment(line@),
            toks.deep_view() + tokens_from(chars@.skip(p as int), cur@) == spec_tokenize(line@),
        decreases m - p,
    {
        let c = chars[p];
        let ghost rest = chars@.skip(p as int);
        let ghost rest1 = chars@.skip(p as int + 1);
        let ghost toks0 = toks.deep_view();
        let ghost cur0 = cur@;
        assert(rest[0] == c);
        assert(rest.drop_first() =~= rest1);
        if is_space_exec(c) {
            if cur.len() > 0 {
                let t = string_from_chars(&cur);
                toks.push(t);
                cur = Vec::new();
                assert(toks.deep_view() =~= toks0 + seq![cur0]);
                assert(tokens_from(rest, cur0) == seq![cur0] + tokens_from(
                    rest1,
                    Seq::<char>::empty(),
                ));
                assert((toks0 + seq![cur0]) + tokens_from(rest1, Seq::<char>::empty()) =~= toks0 + (
                seq![cur0] + tokens_from(rest1, Seq::<char>::empty())));
                assert(cur@ =~= Seq::<char>::empty());
            } else {
                assert(cur0 =~= Seq::<char>::empty());
                assert(tokens_from(rest, cur0) == Seq::<Seq<char>>::empty() + tokens_from(
                    rest1,
                    Seq::<char>::empty(),
                ));
                assert(Seq::<Seq<char>>::empty() + tokens_from(rest1, Seq::<char>::empty())
                    =~= tokens_from(rest1, Seq::<char>::empty()));
            }
        } else if is_punct_exec(c) {
            if cur.len() > 0 {
                let t = string_from_chars(&cur);
                toks.push(t);
                assert(toks.deep_view() =~= toks0 + seq![cur0]);
            }
            let ghost toks1 = toks.deep_view();
            let mut single: Vec<char> = Vec::new();
            single.push(c);
            assert(single@ =~= seq![c]);
            let t = string_from_chars(&single);
            toks.push(t);
            cur = Vec::new();
            assert(toks.deep_view() =~= toks1 + seq![seq![c]]);
            proof {
                if cur0.len() > 0 {
                    assert(tokens_from(rest, cur0) == (seq![cur0] + seq![seq![c]]) + tokens_from(
                        rest1,
                        Seq::<char>::empty(),
                    ));
                    assert(((toks0 + seq![cur0]) + seq![seq![c]]) + tokens_from(
                        rest1,
                        Seq::<char>::empty(),
                    ) =~= toks0 + ((seq![cur0] + seq![seq![c]]) + tokens_from(
                        rest1,
                        Seq::<char>::empty(),
                    )));
                } else {
                    assert(tokens_from(rest, cur0) == (Seq::<Seq<char>>::empty() + seq![seq![c]])
                        + tokens_from(rest1, Seq::<char>::empty()));
                    assert((toks0 + seq![seq![c]]) + tokens_from(rest1, Seq::<char>::empty())
                        =~= toks0 + ((Seq::<Seq<char>>::empty() + seq![seq![c]]) + tokens_from(
                        rest1,
                        Seq::<char>::empty(),
                    )));
                }
            }
        } else {
            cur.push(c);
            assert(cur@ =~= cur0.push(c));
            assert(tokens_from(rest, cur0) == tokens_from(rest1, cur0.push(c)));
        }
        p = p + 1;
    }
    assert(chars@.skip(m as int) =~= Seq::<char>::empty());
    let ghost toks0 = toks.deep_view();
    let ghost cur0 = cur@;
    if cur.len() > 0 {
        let t = string_from_chars(&cur);
        toks.push(t);
        assert(toks.deep_view() =~= toks0 + seq![cur0]);
        assert(tokens_from(Seq::<char>::empty(), cur0) == seq![cur0]);
    } else {
        assert(tokens_from(Seq::<char>::empty(), cur0) == Seq::<Seq<char>>::empty());
        assert(toks0 + Seq::<Seq<char>>::empty() =~= toks0);
    }
    toks
}

proof fn lemma_tokens_from_nonempty(s: Seq<char>, cur: Seq<char>)
    ensures
        forall|k: int| 0 <= k < tokens_from(s, cur).len() ==> (#[trigger] tokens_from(s, cur)[k]).len() > 0,
    decreases s.len(),
{
    let flushed: Seq<Seq<char>> = if cur.len() > 0 {
        seq![cur]
    } else {
        Seq::empty()
    };
    assert(forall|k: int| 0 <= k < flushed.len() ==> (#[trigger] flushed[k]).len() > 0);
    if s.len() == 0 {
        assert(tokens_from(s, cur) == flushed);
    } else if is_space_char(s[0]) {
        lemma_tokens_from_nonempty(s.drop_first(), Seq::empty());
        let rest = tokens_from(s.drop_first(), Seq::empty());
        assert forall|k: int| 0 <= k < tokens_from(s, cur).len() implies (#[trigger] tokens_from(
            s,
            cur,
        )[k]).len() > 0 by {
            if k < flushed.len() {
                assert(tokens_from(s, cur)[k] == flushed[k]);
            } else {
                assert(tokens_from(s, cur)[k] == rest[k - flushed.len()]);
            }
        }
    } else if is_punct_char(s[0]) {
        lemma_tokens_from_nonempty(s.drop_first(), Seq::empty());
        let rest = tokens_from(s.drop_first(), Seq::empty());
        let mid = flushed + seq![seq![s[0]]];
        assert forall|k: int| 0 <= k < tokens_from(s, cur).len() implies (#[trigger] tokens_from(
            s,
            cur,
        )[k]).len() > 0 by {
            if k < flushed.len() {
                assert(tokens_from(s, cur)[k] == flushed[k]);
            } else if k < mid.len() {
                assert(tokens_from(s, cur)[k] == seq![s[0]]);
            } else {
                assert(tokens_from(s, cur)[k] == rest[k - mid.len()]);
            }
        }
    } else {
        lemma_tokens_from_nonempty(s.drop_first(), cur.push(s[0]));
        assert(tokens_from(s, cur) == tokens_from(s.drop_first(), cur.push(s[0])));
        assert forall|k: int| 0 <= k < tokens_from(s, cur).len() implies (#[trigger] tokens_from(
            s,
            cur,
        )[k]).len() > 0 by {
            assert(tokens_from(s, cur)[k] == tokens_from(s.drop_first(), cur.push(s[0]))[k]);
        }
    }
}

/// Totality of the tokenizer's shape: every token it yields is non-empty,
/// whatever the input line.
pub proof fn lemma_tokenize_tokens_nonempty(line: Seq<char>)
    ensures
        forall|k: int|
            0 <= k < spec_tokenize(line).len() ==> (#[trigger] spec_tokenize(line)[k]).len() > 0,
{
    lemma_tokens_from_nonempty(strip_line_comment(line), Seq::empty());
}

/// Totality of the normalizer's shape: the output has one token for each
/// input token, whatever the input.
pub proof fn lemma_normalize_len(ts: Seq<Seq<char>>)
    ensures
        spec_normalize(ts).len() == ts.len(),
{
}

proof fn lemma_norm_token_idempotent(t: Seq<char>)
    ensures
        norm_token(norm_token(t)) == norm_token(t),
{
    reveal_strlit("<NUM>");
    reveal_strlit("<VAR>");
    if is_numeric_token(t) {
        assert(numeric_digits("<NUM>"@)[0] == '<');
        assert(!is_digit_char('<'));
        assert(!is_numeric_token("<NUM>"@));
        assert("<NUM>"@[0] == '<');
        assert(!is_alnum_char('<'));
        assert(!is_plain_token("<NUM>"@));
    } else if is_plain_token(t) {
        assert(numeric_digits("<VAR>"@)[0] == '<');
        assert(!is_digit_char('<'));
        assert(!is_numeric_token("<VAR>"@));
        assert("<VAR>"@[0] == '<');
        assert(!is_alnum_char('<'));
        assert(!is_plain_token("<VAR>"@));
    }
}

/// Normalization is idempotent: running the normalizer over its own
/// output changes nothing.
pub proof fn lemma_normalize_idempotent(ts: Seq<Seq<char>>)
    ensures
        spec_normalize(spec_normalize(ts)) == spec_normalize(ts),
{
    assert forall|i: int| 0 <= i < ts.len() implies #[trigger] spec_normalize(spec_normalize(ts))[i]
        == spec_normalize(ts)[i] by {
        lemma_norm_token_idempotent(ts[i]);
    }
    assert(spec_normalize(spec_normalize(ts)) =~= spec_normalize(ts));
}

/// Leftmost pivot: when `p` is the first assignment-operator position in
/// a token sequence of at least three tokens, the detector splits exactly
/// there.
pub proof fn lemma_detect_leftmost_pivot(ts: Seq<Seq<char>>, p: int)
    requires
        ts.len() >= 3,
        0 <= p < ts.len(),
        is_assign_op(ts[p]),
        forall|j: int| 0 <= j < p ==> !is_assign_op(#[trigger] ts[j]),
    ensures
        spec_detect(ts) == Some((ts.take(p), ts[p], ts.skip(p + 1))),
{
    lemma_first_op_from(ts, 0, p);
}

fn is_numeric_exec(t: &str) -> (b: bool)
    ensures
        b == is_numeric_token(t@),
{
    let n = t.unicode_len();
    if n == 0 {
        return false;
    }
    let c0 = t.get_char(0);
    let start: usize = if c0 == '+' || c0 == '-' {
        1
    } else {
        0
    };
    let ghost digits = numeric_digits(t@);
    assert(digits.len() == n - start);
    assert(forall|k: int| 0 <= k < digits.len() ==> digits[k] == t@[k + start]);
    if n == start {
        return false;
    }
    let mut i: usize = start;
    while i < n
        invariant
            start <= i <= n,
            n == t@.len(),
            start == 1 ==> (t@[0] == '+' || t@[0] == '-'),
            start == 0 ==> !(t@[0] == '+' || t@[0] == '-'),
            digits == numeric_digits(t@),
            digits.len() == n - start,
            forall|k: int| 0 <= k < digits.len() ==> digits[k] == t@[k + start],
            forall|k: int| 0 <= k < i - start ==> is_digit_char(#[trigger] digits[k]),
        decreases n - i,
    {
        let c = t.get_char(i);
        if !('0' <= c && c <= '9') {
            assert(digits[i - start] == c);
            assert(!is_digit_char(digits[i - start]));
            assert(!is_numeric_token(t@));
            return false;
        }
        i = i + 1;
    }
    assert(forall|k: int| 0 <= k < digits.len() ==> is_digit_char(#[trigger] digits[k]));
    true
}

fn is_plain_exec(t: &str) -> (b: bool)
    ensures
        b == is_plain_token(t@),
{
    let n = t.unicode_len();
    let mut i: usize = 0;
    while i < n
        invariant
            i <= n,
            n == t@.len(),
            forall|k: int| 0 <= k < i ==> is_alnum_char(#[trigger] t@[k]),
        decreases n - i,
    {
        let c = t.get_char(i);
        let digit = '0' <= c && c <= '9';
        let lower = 'a' <= c && c <= 'z';
        let upper = 'A' <= c && c <= 'Z';
        if !(digit || lower || upper) {
            return false;
        }
        i = i + 1;
    }
    true
}

/// Rewrite each token to its canonical class: `<NUM>` for signed decimal
/// integer literals, `<VAR>` for purely alphanumeric tokens, and the token
/// itself otherwise.
pub fn normalize_identifiers(tokens: &[String]) -> (r: Vec<String>)
    ensures
        r.deep_view() == spec_normalize(tokens.deep_view()),
{
    let n = tokens.len();
    let mut r: Vec<String> = Vec::new();
    let mut i: usize = 0;
    while i < n
        invariant
            i <= n,
            n == tokens.deep_view().len(),
            r.deep_view() =~= spec_normalize(tokens.deep_view()).take(i as int),
        decreases n - i,
    {
        let t = &tokens[i];
        let ghost r0 = r.deep_view();
        if is_numeric_exec(t.as_str()) {
            r.push(String::from_str("<NUM>"));
        } else if is_plain_exec(t.as_str()) {
            r.push(String::from_str("<VAR>"));
        } else {
            r.push(t.clone());
        }
        assert(tokens.deep_view()[i as int] == t@);
        assert(r.deep_view() =~= r0.push(norm_token(t@)));
        i = i + 1;
        assert(r.deep_view() =~= spec_normalize(tokens.deep_view()).take(i as int));
    }
    assert(spec_normalize(tokens.deep_view()).take(n as int) =~= spec_normalize(
        tokens.deep_view(),
    ));
    r
}

/// Character-for-character equality of two string slices.
pub(crate) fn str_eq(a: &str, b: &str) -> (r: bool)
    ensures
        r == (a@ == b@),
{
    let la = a.unicode_len();
    let lb = b.unicode_len();
    if la != lb {
        return false;
    }
    let mut i: usize = 0;
    while i < la
        invariant
            i <= la,
            la == a@.len(),
            la == b@.len(),
            forall|k: int| 0 <= k < i ==> a@[k] == b@[k],
        decreases la - i,
    {
        if a.get_char(i) != b.get_char(i) {
            return false;
        }
        i = i + 1;
    }
    assert(a@ =~= b@);
    true
}

fn is_assign_op_exec(t: &str) -> (b: bool)
    ensures
        b == is_assign_op(t@),
{
    str_eq(t, "=") || str_eq(t, "+=") || str_eq(t, "-=") || str_eq(t, "*=") || str_eq(t, "/=")
        || str_eq(t, "%=") || str_eq(t, "&=") || str_eq(t, "|=") || str_eq(t, "^=") || str_eq(
        t,
        "<<=",
    ) || str_eq(t, ">>=") || str_eq(t, "&&=")
}

/// `first_op_at(ts, 0)` lands on `p` exactly when `p` is the first
/// operator position (or past the end, when there is none).
proof fn lemma_first_op_from(ts: Seq<Seq<char>>, i: int, p: int)
    requires
        0 <= i <= p <= ts.len(),
        forall|j: int| i <= j < p ==> !is_assign_op(#[trigger] ts[j]),
        p < ts.len() ==> is_assign_op(ts[p]),
    ensures
        first_op_at(ts, i) == if p < ts.len() {
            p
        } else {
            -1
        },
    decreases p - i,
{
    if i < p {
        lemma_first_op_from(ts, i + 1, p);
    }
}

/// Tokenize one line and split it at the leftmost assignment-operator
/// token into `(lhs, op, rhs)`; a line with fewer than three tokens or
/// without an operator token yields nothing.
pub fn detect_assignment(line: &str) -> (r: Option<(Vec<String>, String, Vec<String>)>)
    ensures
        ({
            let d = spec_detect(spec_tokenize(line@));
            match r {
                None => d is None,
                Some(t) => {
                    &&& d is Some
                    &&& t.0.deep_view() == d->Some_0.0
                    &&& t.1@ == d->Some_0.1
                    &&& t.2.deep_view() == d->Some_0.2
                },
            }
        }),
{
    let tokens = tokenize_line(line);
    let ghost ts = spec_tokenize(line@);
    let n = tokens.len();
    if n < 3 {
        return None;
    }
    let mut i: usize = 0;
    while i < n
        invariant
            i <= n,
            n == tokens.len(),
            ts == spec_tokenize(line@),
            tokens.deep_view() == ts,
            n >= 3,
            forall|j: int| 0 <= j < i ==> !is_assign_op(#[trigger] ts[j]),
        decreases n - i,
    {
        if is_assign_op_exec(tokens[i].as_str()) {
            assert(is_assign_op(ts[i as int]));
            proof {
                lemma_first_op_from(ts, 0, i as int);
            }
            let mut lhs: Vec<String> = Vec::new();
            let mut j: usize = 0;
            while j < i
                invariant
                    j <= i,
                    i < n,
                    n == tokens.len(),
                    tokens.deep_view() == ts,
                    lhs.deep_view() =~= ts.take(i as int).take(j as int),
                decreases i - j,
            {
                let ghost l0 = lhs.deep_view();
                lhs.push(tokens[j].clone());
                j = j + 1;
                assert(lhs.deep_view() =~= l0.push(ts[j - 1]));
                assert(lhs.deep_view() =~= ts.take(i as int).take(j as int));
            }
            assert(lhs.deep_view() =~= ts.take(i as int));
            let op = tokens[i].clone();
            let mut rhs: Vec<String> = Vec::new();
            let mut k: usize = i + 1;
            while k < n
                invariant
                    i + 1 <= k <= n,
                    n == tokens.len(),
                    tokens.deep_view() == ts,
                    rhs.deep_view() =~= ts.skip(i as int + 1).take(k - i - 1),
                decreases n - k,
            {
                let ghost r0 = rhs.deep_view();
                rhs.push(tokens[k].clone());
                k = k + 1;
                assert(rhs.deep_view() =~= r0.push(ts[k - 1]));
                assert(rhs.deep_view() =~= ts.skip(i as int + 1).take(k - i - 1));
            }
            assert(rhs.deep_view() =~= ts.skip(i as int + 1));
            return Some((lhs, op, rhs));
        }
        i = i + 1;
    }
    proof {
        lemma_first_op_from(ts, 0, n as int);
    }
    None
}

fn is_comment_exec(t: &str) -> (b: bool)
    ensures
        b == is_comment_token(t@),
{
    let n = t.unicode_len();
    if n >= 1 && t.get_char(0) == '#' {
        true
    } else if n >= 2 && t.get_char(0) == '/' && t.get_char(1) == '/' {
        true
    } else {
        false
    }
}

/// `spec_trim_comments` keeps exactly the tokens before index `k`, the
/// first comment token (or the length, when there is none).
proof fn lemma_trim_comments_prefix(ts: Seq<Seq<char>>, k: int)
    requires
        0 <= k <= ts.len(),
        forall|j: int| 0 <= j < k ==> !is_comment_token(#[trigger] ts[j]),
        k < ts.len() ==> is_comment_token(ts[k]),
    ensures
        spec_trim_comments(ts) == ts.take(k),
    decreases ts.len(),
{
    if ts.len() == 0 {
        assert(ts.take(k) =~= Seq::<Seq<char>>::empty());
    } else if is_comment_token(ts[0]) {
        assert(k == 0);
        assert(ts.take(0) =~= Seq::<Seq<char>>::empty());
    } else {
        assert(k >= 1);
        let t = ts.drop_first();
        lemma_trim_comments_prefix(t, k - 1);
        assert(seq![ts[0]] + t.take(k - 1) =~= ts.take(k));
    }
}

/// The prefix of one assignment side up to (and excluding) the first token
/// that begins with `#` or `//`.
pub fn trim_comment_tokens(tokens: &[String]) -> (r: Vec<String>)
    ensures
        r.deep_view() == spec_trim_comments(tokens.deep_view()),
{
    let ghost ts = tokens.deep_view();
    let n = tokens.len();
    let mut r: Vec<String> = Vec::new();
    let mut i: usize = 0;
    while i < n
        invariant
            i <= n,
            n == tokens.len(),
            ts == tokens.deep_view(),
            r.deep_view() =~= ts.take(i as int),
            forall|j: int| 0 <= j < i ==> !is_comment_token(#[trigger] ts[j]),
        decreases n - i,
    {
        if is_comment_exec(tokens[i].as_str()) {
            proof {
                lemma_trim_comments_prefix(ts, i as int);
            }
            return r;
        }
        let ghost r0 = r.deep_view();
        r.push(tokens[i].clone());
        i = i + 1;
        assert(r.deep_view() =~= r0.push(ts[i - 1]));
        assert(r.deep_view() =~= ts.take(i as int));
    }
    proof {
        lemma_trim_comments_prefix(ts, n as int);
    }
    r
}

} // verus!
