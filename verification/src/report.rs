//! Reporter: serializes one finding as a text record or a JSON record.
//!
//! Text mode: `<file>:<line right-aligned in 4>  [<rule>]  <trimmed content>`.
//! JSON mode: one object per line with fields `file`, `line`, `rule` and
//! `code`, the content trimmed.

use vstd::prelude::*;
use vstd::string::StringExecFns;
use vstd::string::StrSliceExecFns;

use crate::pattern::{is_space_char, Pattern, PatternModel, PatternType};

verus! {

/// The rule identifier used in serialized findings.
pub open spec fn spec_rule_id(t: PatternType) -> Seq<char> {
    match t {
        PatternType::IdenticalRhs => "IdenticalRhs"@,
        PatternType::RepeatedLhs => "RepeatedLhs"@,
        PatternType::SelfAssignment => "SelfAssignment"@,
    }
}

pub open spec fn digit_char(d: int) -> char {
    if d == 0 {
        '0'
    } else if d == 1 {
        '1'
    } else if d == 2 {
        '2'
    } else if d == 3 {
        '3'
    } else if d == 4 {
        '4'
    } else if d == 5 {
        '5'
    } else if d == 6 {
        '6'
    } else if d == 7 {
        '7'
    } else if d == 8 {
        '8'
    } else {
        '9'
    }
}

/// The decimal digits of `n`, most significant first.
pub open spec fn spec_decimal(n: nat) -> Seq<char>
    decreases n,
{
    if n < 10 {
        seq![digit_char(n as int)]
    } else {
        spec_decimal(n / 10).push(digit_char((n % 10) as int))
    }
}

/// `s` padded on the left with spaces to at least four characters.
pub open spec fn spec_pad4(s: Seq<char>) -> Seq<char> {
    if s.len() >= 4 {
        s
    } else {
        Seq::new((4 - s.len()) as nat, |k: int| ' ') + s
    }
}

/// Leading whitespace removed.
pub open spec fn trim_start_spec(s: Seq<char>) -> Seq<char>
    decreases s.len(),
{
    if s.len() > 0 && is_space_char(s[0]) {
        trim_start_spec(s.drop_first())
    } else {
        s
    }
}

/// Trailing whitespace removed.
pub open spec fn trim_end_spec(s: Seq<char>) -> Seq<char>
    decreases s.len(),
{
    if s.len() > 0 && is_space_char(s.last()) {
        trim_end_spec(s.drop_last())
    } else {
        s
    }
}

/// Surrounding whitespace removed.
pub open spec fn spec_trim(s: Seq<char>) -> Seq<char> {
    trim_end_spec(trim_start_spec(s))
}

/// The text-mode record for one finding.
pub open spec fn spec_text_record(file: Seq<char>, p: PatternModel) -> Seq<char> {
    file + ":"@ + spec_pad4(spec_decimal(p.line_num)) + "  ["@ + spec_rule_id(p.pattern_type)
        + "]  "@ + spec_trim(p.content)
}

/// The JSON-mode record for one finding.
pub open spec fn spec_json_record(file: Seq<char>, p: PatternModel) -> Seq<char> {
    "{ \"file\": \""@ + file + "\", \"line\": "@ + spec_decimal(p.line_num) + ", \"rule\": \""@
        + spec_rule_id(p.pattern_type) + "\", \"code\": \""@ + spec_trim(p.content) + " \" }"@
}

impl PatternType {
    /// The identifier under which this rule appears in output records.
    pub fn rule_id(&self) -> (r: &'static str)
        ensures
            r@ == spec_rule_id(*self),
    {
        match self {
            PatternType::IdenticalRhs => "IdenticalRhs",
            PatternType::RepeatedLhs => "RepeatedLhs",
            PatternType::SelfAssignment => "SelfAssignment",
        }
    }
}

fn digit_of(d: usize) -> (c: char)
    requires
        d < 10,
    ensures
        c == digit_char(d as int),
{
    match d {
        0 => '0',
        1 => '1',
        2 => '2',
        3 => '3',
        4 => '4',
        5 => '5',
        6 => '6',
        7 => '7',
        8 => '8',
        _ => '9',
    }
}

/// The decimal rendering of `n`.
fn decimal_string(n: usize) -> (r: String)
    ensures
        r@ == spec_decimal(n as nat),
{
    let mut digits: Vec<char> = Vec::new();
    let d0 = digit_of(n % 10);
    digits.push(d0);
    let mut m: usize = n / 10;
    assert(digits@.reverse() =~= seq![d0]);
    while m > 0
        invariant
            digits@.len() > 0,
            spec_decimal(n as nat) == (if m > 0 {
                spec_decimal(m as nat) + digits@.reverse()
            } else {
                digits@.reverse()
            }),
        decreases m,
    {
        let ghost m0 = m as nat;
        let ghost digits0 = digits@;
        let d = digit_of(m % 10);
        digits.push(d);
        m = m / 10;
        assert(digits@.reverse() =~= seq![d] + digits0.reverse());
        proof {
            if m > 0 {
                assert(spec_decimal(m0) == spec_decimal(m as nat).push(d));
                assert(spec_decimal(m as nat).push(d) =~= spec_decimal(m as nat) + seq![d]);
                assert((spec_decimal(m as nat) + seq![d]) + digits0.reverse() =~= spec_decimal(
                    m as nat,
                ) + (seq![d] + digits0.reverse()));
            } else {
                assert(spec_decimal(m0) == seq![d]);
            }
        }
    }
    let len = digits.len();
    let mut out: Vec<char> = Vec::new();
    let mut k: usize = 0;
    while k < len
        invariant
            k <= len,
            len == digits.len(),
            out@.len() == k,
            forall|t: int| 0 <= t < k ==> out@[t] == digits@[len - 1 - t],
        decreases len - k,
    {
        out.push(digits[len - 1 - k]);
        k = k + 1;
    }
    assert(out@ =~= digits@.reverse());
    crate::pattern::string_from_chars(&out)
}

/// `trim_start_spec` drops exactly the leading run of whitespace; `a`
/// names where that run ends.
proof fn lemma_trim_start_skip(s: Seq<char>, a: int)
    requires
        0 <= a <= s.len(),
        forall|k: int| 0 <= k < a ==> is_space_char(#[trigger] s[k]),
        a < s.len() ==> !is_space_char(s[a]),
    ensures
        trim_start_spec(s) == s.skip(a),
    decreases a,
{
    if a == 0 {
        assert(s.skip(0) =~= s);
    } else {
        assert(is_space_char(s[0]));
        let t = s.drop_first();
        assert forall|k: int| 0 <= k < a - 1 implies is_space_char(#[trigger] t[k]) by {
            assert(t[k] == s[k + 1]);
        }
        lemma_trim_start_skip(t, a - 1);
        assert(t.skip(a - 1) =~= s.skip(a));
    }
}

/// `trim_end_spec` drops exactly the trailing run of whitespace; `b`
/// names where that run begins.
proof fn lemma_trim_end_take(s: Seq<char>, b: int)
    requires
        0 <= b <= s.len(),
        forall|k: int| b <= k < s.len() ==> is_space_char(#[trigger] s[k]),
        b > 0 ==> !is_space_char(s[b - 1]),
    ensures
        trim_end_spec(s) == s.take(b),
    decreases s.len(),
{
    if s.len() > 0 && is_space_char(s.last()) {
        assert(b < s.len());
        let t = s.drop_last();
        lemma_trim_end_take(t, b);
        assert(t.take(b) =~= s.take(b));
    } else {
        assert(b == s.len());
        assert(s.take(b) =~= s);
    }
}

/// `s` with surrounding whitespace removed.
pub fn trim_str(s: &str) -> (r: String)
    ensures
        r@ == spec_trim(s@),
{
    let chars = crate::pattern::chars_of(s);
    let n = chars.len();
    let mut a: usize = 0;
    while a < n && crate::pattern::is_space_exec(chars[a])
        invariant
            a <= n,
            n == chars.len(),
            chars@ == s@,
            forall|k: int| 0 <= k < a ==> is_space_char(#[trigger] s@[k]),
        decreases n - a,
    {
        a = a + 1;
    }
    proof {
        lemma_trim_start_skip(s@, a as int);
    }
    let ghost t = s@.skip(a as int);
    let mut b: usize = n;
    while b > a && crate::pattern::is_space_exec(chars[b - 1])
        invariant
            a <= b <= n,
            n == chars.len(),
            chars@ == s@,
            forall|k: int| b <= k < n ==> is_space_char(#[trigger] s@[k]),
        decreases b,
    {
        b = b - 1;
    }
    proof {
        assert forall|k: int| b - a <= k < t.len() implies is_space_char(#[trigger] t[k]) by {
            assert(t[k] == s@[k + a]);
        }
        if b > a {
            assert(t[b - a - 1] == s@[b - 1]);
        }
        lemma_trim_end_take(t, b - a);
    }
    let mut out: Vec<char> = Vec::new();
    let mut k: usize = a;
    while k < b
        invariant
            a <= k <= b <= n,
            n == chars.len(),
            chars@ == s@,
            out@.len() == k - a,
            forall|q: int| 0 <= q < k - a ==> out@[q] == s@[q + a],
        decreases b - k,
    {
        out.push(chars[k]);
        k = k + 1;
    }
    assert(out@ =~= t.take(b - a));
    crate::pattern::string_from_chars(&out)
}

/// Serialize one finding against the file it was found in, as a text
/// record or (with `json`) a JSON record.
pub fn format_finding(file_path: &str, p: &Pattern, json: bool) -> (r: String)
    ensures
        json ==> r@ == spec_json_record(file_path@, p@),
        !json ==> r@ == spec_text_record(file_path@, p@),
{
    let line_str = decimal_string(p.line_num);
    let rule = p.pattern_type.rule_id();
    let trimmed = trim_str(p.content.as_str());
    let mut out = String::new();
    if json {
        out.append("{ \"file\": \"");
        out.append(file_path);
        out.append("\", \"line\": ");
        out.append(line_str.as_str());
        out.append(", \"rule\": \"");
        out.append(rule);
        out.append("\", \"code\": \"");
        out.append(trimmed.as_str());
        out.append(" \" }");
        assert(out@ =~= spec_json_record(file_path@, p@));
    } else {
        out.append(file_path);
        out.append(":");
        let l = line_str.as_str().unicode_len();
        if l == 0 {
            out.append("    ");
            proof {
                reveal_strlit("    ");
                assert(Seq::new((4 - line_str@.len()) as nat, |k: int| ' ') =~= "    "@);
            }
        } else if l == 1 {
            out.append("   ");
            proof {
                reveal_strlit("   ");
                assert(Seq::new((4 - line_str@.len()) as nat, |k: int| ' ') =~= "   "@);
            }
        } else if l == 2 {
            out.append("  ");
            proof {
                reveal_strlit("  ");
                assert(Seq::new((4 - line_str@.len()) as nat, |k: int| ' ') =~= "  "@);
            }
        } else if l == 3 {
            out.append(" ");
            proof {
                reveal_strlit(" ");
                assert(Seq::new((4 - line_str@.len()) as nat, |k: int| ' ') =~= " "@);
            }
        }
        out.append(line_str.as_str());
        out.append("  [");
        out.append(rule);
        out.append("]  ");
        out.append(trimmed.as_str());
        assert(out@ =~= spec_text_record(file_path@, p@));
    }
    out
}

} // verus!
