//! The decisions of the manifest executor that do not depend on numbers
//! read from the context: how a step condition and a choice condition are
//! read, where a choice jumps, and how JSON is found in a model's reply.
use vstd::prelude::*;
use vstd::string::*;
use serde_json::Value;
use crate::decimal::{decimal, push_decimal};
use crate::lexicon::{trim, trim_window};
use crate::bundle::BundleManifestStep;
use crate::ports::TemplateError;
use crate::text::{find_first, lemma_find_first, occurs_at};

verus! {

// ── Choice conditions ────────────────────────────────────────────────────────

/// The field and value around the first `op` in `t`, when both are
/// non-empty after trimming.
pub open spec fn split_at_op(t: Seq<char>, op: Seq<char>) -> Option<(Seq<char>, Seq<char>)> {
    match find_first(t, op) {
        Some(p) => {
            let f = trim(t.take(p));
            let v = trim(t.skip(p + op.len()));
            if f.len() > 0 && v.len() > 0 { Some((f, v)) } else { None }
        },
        None => None,
    }
}

/// A choice condition such as `composite < 0.15`: the first of the
/// operators `<=`, `>=`, `==`, `<`, `>` (tried in that order) that splits
/// the trimmed condition into a non-empty field and value.
pub open spec fn choice_condition(c: Seq<char>) -> Option<(Seq<char>, Seq<char>, Seq<char>)> {
    let t = trim(c);
    match split_at_op(t, "<="@) {
        Some((f, v)) => Some((f, "<="@, v)),
        None => match split_at_op(t, ">="@) {
            Some((f, v)) => Some((f, ">="@, v)),
            None => match split_at_op(t, "=="@) {
                Some((f, v)) => Some((f, "=="@, v)),
                None => match split_at_op(t, "<"@) {
                    Some((f, v)) => Some((f, "<"@, v)),
                    None => match split_at_op(t, ">"@) {
                        Some((f, v)) => Some((f, ">"@, v)),
                        None => None,
                    },
                },
            },
        },
    }
}

/// The field and value windows around the first `op` in the window
/// `[a, b)` of `c`.
fn split_window(c: &Vec<char>, a: usize, b: usize, op: &str) -> (r: Option<((usize, usize), (usize, usize))>)
    requires
        a <= b <= c@.len(),
    ensures
        match split_at_op(c@.subrange(a as int, b as int), op@) {
            Some((f, v)) => r matches Some(((fa, fb), (va, vb))) && fa <= fb <= c@.len() && va <= vb <= c@.len()
                && c@.subrange(fa as int, fb as int) == f && c@.subrange(va as int, vb as int) == v,
            None => r is None,
        },
{
    let ghost t = c@.subrange(a as int, b as int);
    let w = crate::text::sub_chars(c, a, b);
    let pv = crate::text::str_chars(op);
    match crate::text::find_seq(&w, &pv) {
        Some(p) => {
            proof {
                lemma_find_first(t, op@);
                assert(w@ == t);
            }
            let (fa, fb) = trim_window(c, a, a + p);
            let (va, vb) = trim_window(c, a + p + pv.len(), b);
            proof {
                assert(t.take(p as int) =~= c@.subrange(a as int, a + p));
                assert(t.skip(p + op@.len()) =~= c@.subrange(a + p + op@.len(), b as int));
            }
            if fb > fa && vb > va {
                Some(((fa, fb), (va, vb)))
            } else {
                None
            }
        },
        None => None,
    }
}

/// Read a choice condition such as `composite < 0.15` into field, operator
/// and value.
pub fn parse_choice_condition(condition: &str) -> (r: Option<(&str, &'static str, &str)>)
    ensures
        match choice_condition(condition@) {
            Some((f, op, v)) => r matches Some((rf, rop, rv)) && rf@ == f && rop@ == op && rv@ == v,
            None => r is None,
        },
{
    let c = crate::text::str_chars(condition);
    let (a, b) = trim_window(&c, 0, c.len());
    proof {
        assert(c@.subrange(0, c@.len() as int) =~= condition@);
    }
    match split_window(&c, a, b, "<=") {
        Some(((fa, fb), (va, vb))) => {
            return Some((condition.substring_char(fa, fb), "<=", condition.substring_char(va, vb)));
        },
        None => {},
    }
    match split_window(&c, a, b, ">=") {
        Some(((fa, fb), (va, vb))) => {
            return Some((condition.substring_char(fa, fb), ">=", condition.substring_char(va, vb)));
        },
        None => {},
    }
    match split_window(&c, a, b, "==") {
        Some(((fa, fb), (va, vb))) => {
            return Some((condition.substring_char(fa, fb), "==", condition.substring_char(va, vb)));
        },
        None => {},
    }
    match split_window(&c, a, b, "<") {
        Some(((fa, fb), (va, vb))) => {
            return Some((condition.substring_char(fa, fb), "<", condition.substring_char(va, vb)));
        },
        None => {},
    }
    match split_window(&c, a, b, ">") {
        Some(((fa, fb), (va, vb))) => {
            return Some((condition.substring_char(fa, fb), ">", condition.substring_char(va, vb)));
        },
        None => {},
    }
    None
}

// ── Choice actions ───────────────────────────────────────────────────────────

/// The value of a decimal digit.
pub open spec fn digit_value(c: char) -> int {
    (c as u32) - ('0' as u32)
}

/// `s` is made of decimal digits.
pub open spec fn all_digits(s: Seq<char>) -> bool {
    forall|i: int| 0 <= i < s.len() ==> '0' <= #[trigger] s[i] <= '9'
}

/// The number written by the digits `s`.
pub open spec fn digits_value(s: Seq<char>) -> int
    decreases s.len(),
{
    if s.len() == 0 { 0 } else { 10 * digits_value(s.drop_last()) + digit_value(s.last()) }
}

/// The unsigned 32-bit number `s` writes, as Rust reads one: an optional
/// `+`, then at least one decimal digit, the value fitting in 32 bits.
pub open spec fn u32_of(s: Seq<char>) -> Option<u32> {
    let d = if s.len() > 0 && s[0] == '+' { s.drop_first() } else { s };
    if d.len() > 0 && all_digits(d) && digits_value(d) <= u32::MAX {
        Some(digits_value(d) as u32)
    } else {
        None
    }
}

/// Where a choice whose branch matched goes: `continue`, `abort` and
/// `escalate` go on with the next step; anything else names the ordinal of
/// the step to jump to.
pub open spec fn choice_jump(action: Seq<char>) -> Result<Option<u32>, Seq<char>> {
    if action == "continue"@ || action == "abort"@ || action == "escalate"@ {
        Ok(None)
    } else {
        match u32_of(action) {
            Some(n) => Ok(Some(n)),
            None => Err("Choice action '"@ + action + "' is not a valid ordinal"@),
        }
    }
}

proof fn lemma_digits_value_nonneg(s: Seq<char>)
    requires
        all_digits(s),
    ensures
        digits_value(s) >= 0,
    decreases s.len(),
{
    if s.len() > 0 {
        lemma_digits_value_nonneg(s.drop_last());
    }
}

/// Read an unsigned 32-bit number.
fn parse_u32(s: &str) -> (r: Option<u32>)
    ensures
        r == u32_of(s@),
{
    let c = crate::text::str_chars(s);
    let start: usize = if c.len() > 0 && c[0] == '+' { 1 } else { 0 };
    let ghost d = if s@.len() > 0 && s@[0] == '+' { s@.drop_first() } else { s@ };
    proof {
        assert(c@.skip(start as int) =~= d);
    }
    if start >= c.len() {
        return None;
    }
    let mut v: u64 = 0;
    let mut i = start;
    while i < c.len()
        invariant
            start <= i <= c@.len(),
            c@ == s@,
            d == c@.skip(start as int),
            d == (if s@.len() > 0 && s@[0] == '+' { s@.drop_first() } else { s@ }),
            all_digits(c@.subrange(start as int, i as int)),
            v == digits_value(c@.subrange(start as int, i as int)),
            v <= u32::MAX,
        decreases c@.len() - i,
    {
        let ch = c[i];
        let ghost pre = c@.subrange(start as int, i as int);
        let ghost next = c@.subrange(start as int, i + 1);
        proof {
            assert(next.drop_last() =~= pre);
            assert(next.last() == ch);
        }
        if ch < '0' || ch > '9' {
            proof {
                let k = i - start;
                assert(d[k] == ch);
                assert(!('0' <= d[k] && d[k] <= '9'));
                assert(!all_digits(d));
            }
            return None;
        }
        let dv = (ch as u32 - '0' as u32) as u64;
        proof {
            assert forall|k: int| 0 <= k < next.len() implies '0' <= #[trigger] next[k] <= '9' by {
                if k < pre.len() {
                    assert(next[k] == pre[k]);
                }
            }
        }
        if v * 10 + dv > 4294967295 {
            proof {
                if all_digits(d) {
                    lemma_digits_prefix_le(d, i + 1 - start);
                    assert(d.take(i + 1 - start) =~= next);
                }
            }
            return None;
        }
        v = v * 10 + dv;
        i = i + 1;
    }
    proof {
        assert(c@.subrange(start as int, c@.len() as int) =~= d);
    }
    Some(v as u32)
}

/// A prefix of digits writes no more than the whole.
proof fn lemma_digits_prefix_le(s: Seq<char>, k: int)
    requires
        all_digits(s),
        0 <= k <= s.len(),
    ensures
        digits_value(s.take(k)) <= digits_value(s),
    decreases s.len(),
{
    if k < s.len() {
        assert(s.drop_last().take(k) =~= s.take(k));
        assert forall|i: int| 0 <= i < s.drop_last().len() implies '0' <= #[trigger] s.drop_last()[i] <= '9' by {
            assert(s.drop_last()[i] == s[i]);
        }
        lemma_digits_prefix_le(s.drop_last(), k);
        lemma_digits_value_nonneg(s.drop_last());
        assert('0' <= s.last() <= '9');
    } else {
        assert(s.take(k) =~= s);
    }
}

/// Where a choice with the matching branch action `action` goes.
pub fn choice_target(action: &str) -> (r: Result<Option<u32>, TemplateError>)
    ensures
        match choice_jump(action@) {
            Ok(t) => r == Ok::<Option<u32>, TemplateError>(t),
            Err(m) => r matches Err(TemplateError::Manifest(rm)) && rm@ == m,
        },
{
    if crate::text::str_eq(action, "continue") || crate::text::str_eq(action, "abort")
        || crate::text::str_eq(action, "escalate") {
        return Ok(None);
    }
    match parse_u32(action) {
        Some(n) => Ok(Some(n)),
        None => {
            let mut m = String::from_str("Choice action '");
            m.append(action);
            m.append("' is not a valid ordinal");
            Err(TemplateError::Manifest(m))
        },
    }
}

// ── Step conditions ──────────────────────────────────────────────────────────

/// A step condition: a context variable, its negation, or two conditions
/// joined by `AND` or `OR`.
#[derive(Debug)]
pub enum StepCondition {
    All(Box<StepCondition>, Box<StepCondition>),
    Any(Box<StepCondition>, Box<StepCondition>),
    Not(Box<StepCondition>),
    Var(String),
}

/// `p` starts `t`.
pub open spec fn starts(t: Seq<char>, p: Seq<char>) -> bool {
    p.len() <= t.len() && t.take(p.len() as int) == p
}

proof fn lemma_trim_shorter(s: Seq<char>)
    ensures
        trim(s).len() <= s.len(),
{
    lemma_trim_start_shorter(s);
    lemma_trim_end_shorter(crate::lexicon::trim_start(s));
}

proof fn lemma_trim_start_shorter(s: Seq<char>)
    ensures
        crate::lexicon::trim_start(s).len() <= s.len(),
    decreases s.len(),
{
    if s.len() > 0 && crate::lexicon::is_ws(s[0]) {
        lemma_trim_start_shorter(s.drop_first());
    }
}

proof fn lemma_trim_end_shorter(s: Seq<char>)
    ensures
        crate::lexicon::trim_end(s).len() <= s.len(),
    decreases s.len(),
{
    if s.len() > 0 && crate::lexicon::is_ws(s.last()) {
        lemma_trim_end_shorter(s.drop_last());
    }
}

/// `c` is the reading of the condition text `s`: after trimming, a split at
/// the first ` AND `, else at the first ` OR `, else a `NOT ` prefix, else
/// the variable named by the whole text.
pub open spec fn reads_as(c: StepCondition, s: Seq<char>) -> bool
    decreases s.len(),
{
    let t = trim(s);
    if t.len() > s.len() {
        false
    } else {
        match find_first(t, " AND "@) {
            Some(p) => if 0 <= p && p + 5 <= t.len() {
                c matches StepCondition::All(l, r) && reads_as(*l, t.take(p)) && reads_as(*r, t.skip(p + 5))
            } else {
                false
            },
            None => match find_first(t, " OR "@) {
                Some(p) => if 0 <= p && p + 4 <= t.len() {
                    c matches StepCondition::Any(l, r) && reads_as(*l, t.take(p)) && reads_as(*r, t.skip(p + 4))
                } else {
                    false
                },
                None => if 4 <= t.len() && starts(t, "NOT "@) {
                    c matches StepCondition::Not(x) && reads_as(*x, t.skip(4))
                } else {
                    c matches StepCondition::Var(v) && v@ == t
                },
            },
        }
    }
}

/// Read a step condition such as `ready AND NOT step_1_result.blocked`.
pub fn parse_step_condition(condition: &str) -> (r: StepCondition)
    ensures
        reads_as(r, condition@),
    decreases condition@.len(),
{
    let c = crate::text::str_chars(condition);
    let (a, b) = trim_window(&c, 0, c.len());
    let ghost t = c@.subrange(a as int, b as int);
    proof {
        assert(c@.subrange(0, c@.len() as int) =~= condition@);
        lemma_trim_shorter(condition@);
        reveal_strlit(" AND ");
        reveal_strlit(" OR ");
        reveal_strlit("NOT ");
    }
    let w = crate::text::sub_chars(&c, a, b);
    let and_p = crate::text::str_chars(" AND ");
    match crate::text::find_seq(&w, &and_p) {
        Some(p) => {
            proof {
                lemma_find_first(t, " AND "@);
                assert(occurs_at(t, " AND "@, p as int));
            }
            let left = condition.substring_char(a, a + p);
            let right = condition.substring_char(a + p + 5, b);
            proof {
                assert(left@ =~= t.take(p as int));
                assert(right@ =~= t.skip(p + 5));
            }
            let l = parse_step_condition(left);
            let r = parse_step_condition(right);
            return StepCondition::All(Box::new(l), Box::new(r));
        },
        None => {},
    }
    let or_p = crate::text::str_chars(" OR ");
    match crate::text::find_seq(&w, &or_p) {
        Some(p) => {
            proof {
                lemma_find_first(t, " OR "@);
                assert(occurs_at(t, " OR "@, p as int));
            }
            let left = condition.substring_char(a, a + p);
            let right = condition.substring_char(a + p + 4, b);
            proof {
                assert(left@ =~= t.take(p as int));
                assert(right@ =~= t.skip(p + 4));
            }
            let l = parse_step_condition(left);
            let r = parse_step_condition(right);
            return StepCondition::Any(Box::new(l), Box::new(r));
        },
        None => {},
    }
    let not_p = crate::text::str_chars("NOT ");
    if b - a >= 4 && crate::text::matches_at(&w, &not_p, 0) {
        let inner = condition.substring_char(a + 4, b);
        proof {
            assert(occurs_at(w@, "NOT "@, 0));
            assert(t.take(4) =~= w@.subrange(0, 4));
            assert(inner@ =~= t.skip(4));
        }
        let x = parse_step_condition(inner);
        return StepCondition::Not(Box::new(x));
    }
    proof {
        if starts(t, "NOT "@) {
            assert(w@.subrange(0, 4) =~= t.take(4));
        }
    }
    StepCondition::Var(String::from_str(condition.substring_char(a, b)))
}

// ── JSON in model replies ────────────────────────────────────────────────────

/// What `serde_json::from_str` reads from a text: a JSON value, or the text
/// of its error.
pub uninterp spec fn json_of(text: Seq<char>) -> Result<Value, Seq<char>>;

/// Calls `serde_json::from_str::<serde_json::Value>`; an error is given by
/// its text.
#[verifier::external_body]
fn parse_json(text: &str) -> (r: Result<Value, String>)
    ensures
        match r {
            Ok(v) => json_of(text@) == Ok::<Value, Seq<char>>(v),
            Err(e) => json_of(text@) == Err::<Value, Seq<char>>(e@),
        },
{
    serde_json::from_str::<Value>(text).map_err(|e| e.to_string())
}

/// The last position of `c` in `s`.
pub open spec fn last_index(s: Seq<char>, c: char) -> Option<int>
    decreases s.len(),
{
    if s.len() == 0 {
        None
    } else if s.last() == c {
        Some(s.len() - 1)
    } else {
        last_index(s.drop_last(), c)
    }
}

/// The error for JSON that did not parse in the reply to step `n`.
pub open spec fn unparsable(n: u32, e: Seq<char>) -> Seq<char> {
    "Step "@ + decimal(n as nat) + ": Failed to parse JSON response: "@ + e
}

/// The reading of `candidate` in the reply to step `n`.
pub open spec fn read_candidate(candidate: Seq<char>, n: u32) -> Result<Value, Seq<char>> {
    match json_of(candidate) {
        Ok(v) => Ok(v),
        Err(e) => Err(unparsable(n, e)),
    }
}

/// The JSON of the object between the first `{` and the last `}` of `t`.
pub open spec fn braced(t: Seq<char>, n: u32) -> Result<Value, Seq<char>> {
    match (crate::lexicon::first_index(t, '{'), last_index(t, '}')) {
        (Some(s), Some(e)) => read_candidate(t.subrange(s, e + 1), n),
        _ => Err("Step "@ + decimal(n as nat) + ": No JSON found in inference response"@),
    }
}

/// The first `{` of `t`, when both braces are there, stands at most one
/// place after the last `}`, so that the text between them is a window.
pub open spec fn braces_in_order(t: Seq<char>) -> bool {
    match (crate::lexicon::first_index(t, '{'), last_index(t, '}')) {
        (Some(s), Some(e)) => s <= e + 1,
        _ => true,
    }
}

/// The JSON of a model's reply to step `n`: the whole reply, else the text
/// of a ```` ```json ```` fence, else the object between the first `{` and
/// the last `}`.
pub open spec fn json_reply(text: Seq<char>, n: u32) -> Result<Value, Seq<char>> {
    match json_of(text) {
        Ok(v) => Ok(v),
        Err(_) => {
            let t = trim(text);
            match find_first(t, "```json"@) {
                Some(js) => {
                    let after = t.skip(js + 7);
                    match find_first(after, "```"@) {
                        Some(je) => read_candidate(trim(after.take(je)), n),
                        None => braced(t, n),
                    }
                },
                None => braced(t, n),
            }
        },
    }
}

/// The reply reaches the brace rule only with its braces in order: the
/// window between them is empty or runs forward.
pub open spec fn json_reply_ok(text: Seq<char>) -> bool {
    let t = trim(text);
    let fenced = match find_first(t, "```json"@) {
        Some(js) => find_first(t.skip(js + 7), "```"@) is Some,
        None => false,
    };
    json_of(text) is Ok || fenced || braces_in_order(t)
}

/// The first position of `ch` in the window `[a, b)`.
fn first_in(c: &Vec<char>, a: usize, b: usize, ch: char) -> (r: Option<usize>)
    requires
        a <= b <= c@.len(),
    ensures
        r matches Some(k) ==> a <= k < b && crate::lexicon::first_index(c@.subrange(a as int, b as int), ch) == Some(k - a),
        r is None ==> crate::lexicon::first_index(c@.subrange(a as int, b as int), ch) is None,
{
    let mut i = a;
    proof {
        assert(c@.subrange(a as int, b as int) =~= c@.subrange(i as int, b as int));
    }
    while i < b
        invariant
            a <= i <= b,
            b <= c@.len(),
            crate::lexicon::first_index(c@.subrange(a as int, b as int), ch) == match crate::lexicon::first_index(c@.subrange(i as int, b as int), ch) {
                Some(k) => Some(k + (i - a)),
                None => None,
            },
        decreases b - i,
    {
        proof {
            assert(c@.subrange(i as int, b as int).drop_first() =~= c@.subrange(i + 1, b as int));
        }
        if c[i] == ch {
            return Some(i);
        }
        i = i + 1;
    }
    None
}

/// The last position of `ch` in the window `[a, b)`.
fn last_in(c: &Vec<char>, a: usize, b: usize, ch: char) -> (r: Option<usize>)
    requires
        a <= b <= c@.len(),
    ensures
        r matches Some(k) ==> a <= k < b && last_index(c@.subrange(a as int, b as int), ch) == Some(k - a),
        r is None ==> last_index(c@.subrange(a as int, b as int), ch) is None,
{
    let mut j = b;
    while j > a
        invariant
            a <= j <= b,
            b <= c@.len(),
            last_index(c@.subrange(a as int, b as int), ch) == last_index(c@.subrange(a as int, j as int), ch),
        decreases j - a,
    {
        proof {
            assert(c@.subrange(a as int, j as int).drop_last() =~= c@.subrange(a as int, j - 1));
        }
        if c[j - 1] == ch {
            return Some(j - 1);
        }
        j = j - 1;
    }
    None
}

/// Read the candidate window `[a, b)` of the reply `text` to step `n`.
fn read_window(text: &str, a: usize, b: usize, n: u32) -> (r: Result<Value, TemplateError>)
    requires
        a <= b <= text@.len(),
    ensures
        match read_candidate(text@.subrange(a as int, b as int), n) {
            Ok(v) => r == Ok::<Value, TemplateError>(v),
            Err(m) => r matches Err(TemplateError::Manifest(rm)) && rm@ == m,
        },
{
    match parse_json(text.substring_char(a, b)) {
        Ok(v) => Ok(v),
        Err(e) => {
            let mut m = String::from_str("Step ");
            push_decimal(&mut m, n as u64);
            m.append(": Failed to parse JSON response: ");
            m.append(e.as_str());
            Err(TemplateError::Manifest(m))
        },
    }
}

/// The JSON of a model's reply to step `step_ordinal`: the whole reply when
/// it is JSON, else the text of a ```` ```json ```` fence, else the object
/// between the first `{` and the last `}`.
pub fn parse_json_response(text: &str, step_ordinal: u32) -> (r: Result<Value, TemplateError>)
    requires
        json_reply_ok(text@),
    ensures
        match json_reply(text@, step_ordinal) {
            Ok(v) => r == Ok::<Value, TemplateError>(v),
            Err(m) => r matches Err(TemplateError::Manifest(rm)) && rm@ == m,
        },
{
    match parse_json(text) {
        Ok(v) => return Ok(v),
        Err(_) => {},
    }
    let c = crate::text::str_chars(text);
    let (a, b) = trim_window(&c, 0, c.len());
    let ghost t = c@.subrange(a as int, b as int);
    proof {
        assert(c@.subrange(0, c@.len() as int) =~= text@);
        reveal_strlit("```json");
        reveal_strlit("```");
    }
    let w = crate::text::sub_chars(&c, a, b);
    let fence = crate::text::str_chars("```json");
    match crate::text::find_seq(&w, &fence) {
        Some(js) => {
            proof {
                lemma_find_first(t, "```json"@);
                assert(occurs_at(t, "```json"@, js as int));
            }
            let after = crate::text::sub_chars(&c, a + js + 7, b);
            let close = crate::text::str_chars("```");
            proof {
                assert(after@ =~= t.skip(js + 7));
            }
            match crate::text::find_seq(&after, &close) {
                Some(je) => {
                    proof {
                        lemma_find_first(after@, "```"@);
                        assert(occurs_at(after@, "```"@, je as int));
                        assert(after@.take(je as int) =~= c@.subrange(a + js + 7, a + js + 7 + je));
                    }
                    let (ca, cb) = trim_window(&c, a + js + 7, a + js + 7 + je);
                    return read_window(text, ca, cb, step_ordinal);
                },
                None => {},
            }
        },
        None => {},
    }
    let open_brace = first_in(&c, a, b, '{');
    let close_brace = last_in(&c, a, b, '}');
    match (open_brace, close_brace) {
        (Some(s), Some(e)) => {
            proof {
                assert(t.subrange(s - a, e - a + 1) =~= c@.subrange(s as int, e + 1));
            }
            read_window(text, s, e + 1, step_ordinal)
        },
        _ => {
            let mut m = String::from_str("Step ");
            push_decimal(&mut m, step_ordinal as u64);
            m.append(": No JSON found in inference response");
            Err(TemplateError::Manifest(m))
        },
    }
}

/// Whether `parse_json_response` can read `text`: it is JSON, or it has a
/// closed ```` ```json ```` fence, or its braces are in order.
pub fn json_reply_readable(text: &str) -> (r: bool)
    ensures
        r == json_reply_ok(text@),
{
    match parse_json(text) {
        Ok(_) => return true,
        Err(_) => {},
    }
    let c = crate::text::str_chars(text);
    let (a, b) = trim_window(&c, 0, c.len());
    let ghost t = c@.subrange(a as int, b as int);
    proof {
        assert(c@.subrange(0, c@.len() as int) =~= text@);
        reveal_strlit("```json");
        reveal_strlit("```");
    }
    let w = crate::text::sub_chars(&c, a, b);
    let fence = crate::text::str_chars("```json");
    match crate::text::find_seq(&w, &fence) {
        Some(js) => {
            proof {
                lemma_find_first(t, "```json"@);
                assert(occurs_at(t, "```json"@, js as int));
            }
            let after = crate::text::sub_chars(&c, a + js + 7, b);
            let close = crate::text::str_chars("```");
            proof {
                assert(after@ =~= t.skip(js + 7));
            }
            match crate::text::find_seq(&after, &close) {
                Some(_) => {
                    return true;
                },
                None => {},
            }
        },
        None => {},
    }
    let open_brace = first_in(&c, a, b, '{');
    let close_brace = last_in(&c, a, b, '}');
    match (open_brace, close_brace) {
        (Some(s), Some(e)) => s <= e + 1,
        _ => true,
    }
}

/// Read the JSON of a reply to step `step_ordinal` when
/// `parse_json_response` can read it, and give `None` for a reply whose
/// braces are out of order, which it cannot.
pub fn read_json_reply(text: &str, step_ordinal: u32) -> (r: Option<Result<Value, TemplateError>>)
    ensures
        r is None <==> !json_reply_ok(text@),
        r matches Some(x) ==> match json_reply(text@, step_ordinal) {
            Ok(v) => x == Ok::<Value, TemplateError>(v),
            Err(m) => x matches Err(TemplateError::Manifest(rm)) && rm@ == m,
        },
{
    if json_reply_readable(text) {
        Some(parse_json_response(text, step_ordinal))
    } else {
        None
    }
}

// ── Evaluating step conditions ───────────────────────────────────────────────

/// The names of `truthy`.
pub open spec fn names_of(truthy: Seq<String>) -> Seq<Seq<char>> {
    truthy.map_values(|s: String| s@)
}

/// Whether the condition text `s` holds when the variables named in
/// `truthy` are truthy and all others are not: after trimming, a split at
/// the first ` AND ` (both hold), else at the first ` OR ` (either holds),
/// else a `NOT ` prefix (the rest does not hold), else the whole text names
/// a truthy variable.
pub open spec fn condition_holds(s: Seq<char>, truthy: Seq<Seq<char>>) -> bool
    decreases s.len(),
{
    let t = trim(s);
    if t.len() > s.len() {
        false
    } else {
        match find_first(t, " AND "@) {
            Some(p) => if 0 <= p && p + 5 <= t.len() {
                condition_holds(t.take(p), truthy) && condition_holds(t.skip(p + 5), truthy)
            } else {
                false
            },
            None => match find_first(t, " OR "@) {
                Some(p) => if 0 <= p && p + 4 <= t.len() {
                    condition_holds(t.take(p), truthy) || condition_holds(t.skip(p + 4), truthy)
                } else {
                    false
                },
                None => if 4 <= t.len() && starts(t, "NOT "@) {
                    !condition_holds(t.skip(4), truthy)
                } else {
                    truthy.contains(t)
                },
            },
        }
    }
}

/// Whether the read condition `c` holds when the variables named in
/// `truthy` are truthy.
pub open spec fn tree_holds(c: StepCondition, truthy: Seq<Seq<char>>) -> bool
    decreases c,
{
    match c {
        StepCondition::All(l, r) => tree_holds(*l, truthy) && tree_holds(*r, truthy),
        StepCondition::Any(l, r) => tree_holds(*l, truthy) || tree_holds(*r, truthy),
        StepCondition::Not(x) => !tree_holds(*x, truthy),
        StepCondition::Var(v) => truthy.contains(v@),
    }
}

/// A condition read from a text holds exactly when the text holds.
pub proof fn lemma_reading_holds(c: StepCondition, s: Seq<char>, truthy: Seq<Seq<char>>)
    requires
        reads_as(c, s),
    ensures
        tree_holds(c, truthy) == condition_holds(s, truthy),
    decreases s.len(),
{
    let t = trim(s);
    lemma_trim_shorter(s);
    match find_first(t, " AND "@) {
        Some(p) => {
            if let StepCondition::All(l, r) = c {
                lemma_reading_holds(*l, t.take(p), truthy);
                lemma_reading_holds(*r, t.skip(p + 5), truthy);
            }
        },
        None => match find_first(t, " OR "@) {
            Some(p) => {
                if let StepCondition::Any(l, r) = c {
                    lemma_reading_holds(*l, t.take(p), truthy);
                    lemma_reading_holds(*r, t.skip(p + 4), truthy);
                }
            },
            None => {
                if 4 <= t.len() && starts(t, "NOT "@) {
                    if let StepCondition::Not(x) = c {
                        lemma_reading_holds(*x, t.skip(4), truthy);
                    }
                }
            },
        },
    }
}

/// Whether `name` is one of `truthy`.
fn named_in(name: &str, truthy: &Vec<String>) -> (r: bool)
    ensures
        r == names_of(truthy@).contains(name@),
{
    let mut i: usize = 0;
    while i < truthy.len()
        invariant
            i <= truthy@.len(),
            forall|k: int| 0 <= k < i ==> truthy@[k]@ != name@,
        decreases truthy@.len() - i,
    {
        if crate::text::str_eq(truthy[i].as_str(), name) {
            proof {
                assert(names_of(truthy@)[i as int] == name@);
            }
            return true;
        }
        i = i + 1;
    }
    proof {
        if names_of(truthy@).contains(name@) {
            let k = choose|k: int| 0 <= k < names_of(truthy@).len() && names_of(truthy@)[k] == name@;
            assert(truthy@[k]@ == name@);
        }
    }
    false
}

impl StepCondition {
    /// Whether the condition holds when the variables named in `truthy` are
    /// truthy and all others are not.
    pub fn holds(&self, truthy: &Vec<String>) -> (r: bool)
        ensures
            r == tree_holds(*self, names_of(truthy@)),
        decreases *self,
    {
        match self {
            StepCondition::All(l, r) => l.holds(truthy) && r.holds(truthy),
            StepCondition::Any(l, r) => l.holds(truthy) || r.holds(truthy),
            StepCondition::Not(x) => !x.holds(truthy),
            StepCondition::Var(v) => named_in(v.as_str(), truthy),
        }
    }

    /// The variables that the condition reads, left to right.
    pub fn variables(&self) -> (r: Vec<String>)
        ensures
            names_of(r@) == tree_variables(*self),
        decreases *self,
    {
        match self {
            StepCondition::All(l, r) | StepCondition::Any(l, r) => {
                let mut a = l.variables();
                let mut b = r.variables();
                a.append(&mut b);
                proof {
                    assert(names_of(a@) =~= tree_variables(**l) + tree_variables(**r));
                }
                a
            },
            StepCondition::Not(x) => x.variables(),
            StepCondition::Var(v) => {
                let mut a: Vec<String> = Vec::new();
                a.push(String::from_str(v.as_str()));
                proof {
                    assert(names_of(a@) =~= seq![v@]);
                }
                a
            },
        }
    }
}

/// The variables of a read condition, left to right.
pub open spec fn tree_variables(c: StepCondition) -> Seq<Seq<char>>
    decreases c,
{
    match c {
        StepCondition::All(l, r) => tree_variables(*l) + tree_variables(*r),
        StepCondition::Any(l, r) => tree_variables(*l) + tree_variables(*r),
        StepCondition::Not(x) => tree_variables(*x),
        StepCondition::Var(v) => seq![v@],
    }
}

/// Whether the step condition `condition` holds when the variables named
/// in `truthy` are truthy in the context and all others are not.
pub fn evaluate_step_condition(condition: &str, truthy: &Vec<String>) -> (r: bool)
    ensures
        r == condition_holds(condition@, names_of(truthy@)),
{
    let c = parse_step_condition(condition);
    proof {
        lemma_reading_holds(c, condition@, names_of(truthy@));
    }
    c.holds(truthy)
}

// ── Choices ──────────────────────────────────────────────────────────────────

/// One branch of a `choice` step: its condition, its action, and whether
/// the comparison that the condition states holds of the context.
#[derive(Debug, Clone)]
pub struct ChoiceBranch {
    pub condition: String,
    pub action: String,
    pub comparison_holds: bool,
}

/// A branch is taken when its condition is `default` or `else`, or when its
/// comparison holds.
pub open spec fn branch_taken(b: ChoiceBranch) -> bool {
    b.condition@ == "default"@ || b.condition@ == "else"@ || b.comparison_holds
}

/// The first branch taken.
pub open spec fn first_taken(bs: Seq<ChoiceBranch>) -> Option<int>
    decreases bs.len(),
{
    if bs.len() == 0 {
        None
    } else if branch_taken(bs[0]) {
        Some(0)
    } else {
        match first_taken(bs.drop_first()) {
            Some(i) => Some(i + 1),
            None => None,
        }
    }
}

proof fn lemma_first_taken_range(bs: Seq<ChoiceBranch>)
    ensures
        first_taken(bs) matches Some(i) ==> 0 <= i < bs.len(),
    decreases bs.len(),
{
    if bs.len() > 0 && !branch_taken(bs[0]) {
        lemma_first_taken_range(bs.drop_first());
    }
}

/// Where a `choice` step goes: the jump of the first branch taken, or none
/// when no branch is taken.
pub fn select_branch(branches: &Vec<ChoiceBranch>) -> (r: Result<Option<u32>, TemplateError>)
    ensures
        match first_taken(branches@) {
            None => r == Ok::<Option<u32>, TemplateError>(None),
            Some(i) => match choice_jump(branches@[i].action@) {
                Ok(j) => r == Ok::<Option<u32>, TemplateError>(j),
                Err(m) => r matches Err(TemplateError::Manifest(t)) && t@ == m,
            },
        },
{
    let mut i: usize = 0;
    proof {
        assert(branches@.skip(0) =~= branches@);
    }
    while i < branches.len()
        invariant
            i <= branches@.len(),
            first_taken(branches@) == match first_taken(branches@.skip(i as int)) {
                Some(k) => Some(k + i),
                None => None,
            },
        decreases branches@.len() - i,
    {
        proof {
            assert(branches@.skip(i as int).drop_first() =~= branches@.skip(i + 1));
            reveal_strlit("default");
            reveal_strlit("else");
        }
        let b = &branches[i];
        if crate::text::str_eq(b.condition.as_str(), "default") || crate::text::str_eq(b.condition.as_str(), "else")
            || b.comparison_holds {
            return choice_target(b.action.as_str());
        }
        i = i + 1;
    }
    proof {
        assert(branches@.skip(i as int).len() == 0);
    }
    Ok(None)
}

// ── Rendering step templates ─────────────────────────────────────────────────

/// `s` with each occurrence of `p`, scanned left to right without overlap,
/// replaced by `r`.
pub open spec fn replace_all(s: Seq<char>, p: Seq<char>, r: Seq<char>) -> Seq<char>
    decreases s.len(),
{
    if p.len() == 0 {
        s
    } else {
        match find_first(s, p) {
            Some(i) => if 0 <= i && i + p.len() <= s.len() {
                s.take(i) + r + replace_all(s.skip(i + p.len()), p, r)
            } else {
                s
            },
            None => s,
        }
    }
}

/// The placeholder of the variable `key`: `{{key}}`.
pub open spec fn placeholder(key: Seq<char>) -> Seq<char> {
    "{{"@ + key + "}}"@
}

/// `template` with the placeholders of `bindings` replaced by their texts,
/// one binding after the other, in order.
pub open spec fn render_inline(template: Seq<char>, bindings: Seq<(String, String)>) -> Seq<char>
    decreases bindings.len(),
{
    if bindings.len() == 0 {
        template
    } else {
        let b = bindings.last();
        replace_all(render_inline(template, bindings.drop_last()), placeholder(b.0@), b.1@)
    }
}

/// Replace each occurrence of `p` in `s` by `r`.
fn replace_str(s: &str, p: &str, r: &str) -> (out: String)
    requires
        p@.len() > 0,
    ensures
        out@ == replace_all(s@, p@, r@),
{
    let c = crate::text::str_chars(s);
    let pc = crate::text::str_chars(p);
    let mut out = String::new();
    let mut i: usize = 0;
    let n = c.len();
    proof {
        assert(c@.skip(0) =~= c@);
    }
    loop
        invariant
            i <= c@.len(),
            n == c@.len(),
            c@ == s@,
            pc@ == p@,
            p@.len() > 0,
            out@ + replace_all(c@.skip(i as int), p@, r@) == replace_all(s@, p@, r@),
        decreases c@.len() - i,
    {
        proof {
            crate::text::lemma_find_skip(c@, p@, i as int, 0);
            crate::text::lemma_find_from(c@, p@, i as int);
            lemma_find_first(c@.skip(i as int), p@);
        }
        match crate::text::find_seq_from(&c, &pc, i) {
            Some(j) => {
                let ghost rest = c@.skip(i as int);
                proof {
                    assert(find_first(rest, p@) == Some(j - i));
                    assert(rest.take(j - i) =~= c@.subrange(i as int, j as int));
                    assert(rest.skip(j - i + p@.len()) =~= c@.skip(j + p@.len()));
                }
                out.append(s.substring_char(i, j));
                out.append(r);
                proof {
                    assert(out@ + replace_all(c@.skip(j + p@.len()), p@, r@) =~= replace_all(s@, p@, r@));
                }
                i = j + pc.len();
            },
            None => {
                proof {
                    assert(c@.skip(i as int) =~= c@.subrange(i as int, c@.len() as int));
                }
                out.append(s.substring_char(i, c.len()));
                return out;
            },
        }
    }
}

/// Render an inline template by `{{key}}` substitution: each binding, in
/// order, replaces the placeholder of its key by its text.
pub fn render_inline_template(template: &str, bindings: &Vec<(String, String)>) -> (r: String)
    ensures
        r@ == render_inline(template@, bindings@),
{
    let mut out = String::from_str(template);
    let mut i: usize = 0;
    proof {
        reveal_strlit("{{");
        reveal_strlit("}}");
        assert(bindings@.take(0) =~= Seq::<(String, String)>::empty());
    }
    while i < bindings.len()
        invariant
            i <= bindings@.len(),
            out@ == render_inline(template@, bindings@.take(i as int)),
        decreases bindings@.len() - i,
    {
        proof {
            reveal_strlit("{{");
            reveal_strlit("}}");
        }
        let mut ph = String::from_str("{{");
        ph.append(bindings[i].0.as_str());
        ph.append("}}");
        let next = replace_str(out.as_str(), ph.as_str(), bindings[i].1.as_str());
        proof {
            assert(bindings@.take(i + 1).drop_last() =~= bindings@.take(i as int));
            assert(bindings@.take(i + 1).last() == bindings@[i as int]);
        }
        out = next;
        i = i + 1;
    }
    proof {
        assert(bindings@.take(bindings@.len() as int) =~= bindings@);
    }
    out
}

/// The `truncate` filter of step templates: a value of at most `max_len`
/// bytes as it is, else its first `max_len` characters and `...`.
pub open spec fn truncated(value: String, max_len: usize) -> Seq<char> {
    if vstd::utf8::encode_utf8(value@).len() <= max_len {
        value@
    } else if value@.len() <= max_len {
        value@ + "..."@
    } else {
        value@.take(max_len as int) + "..."@
    }
}

/// The `truncate` filter of step templates.
pub fn truncate_filter(value: String, max_len: usize) -> (r: String)
    requires
        vstd::utf8::encode_utf8(value@).len() <= usize::MAX,
    ensures
        r@ == truncated(value, max_len),
{
    let v = value.as_str();
    let bytes = v.len();
    proof {
        assert(v@ == value@);
        assert(bytes == vstd::utf8::encode_utf8(value@).len());
    }
    if bytes <= max_len {
        return value;
    }
    let n = value.as_str().unicode_len();
    let k = if n <= max_len { n } else { max_len };
    let mut t = String::from_str(value.as_str().substring_char(0, k));
    t.append("...");
    proof {
        if n <= max_len {
            assert(value@.subrange(0, k as int) =~= value@);
        }
    }
    t
}

/// What minijinja renders of `template` with `context`, lenient about
/// undefined values and with the `truncate` filter of this crate: the
/// text, or the text of the error and whether the template failed to
/// compile (`true`) or to render (`false`).
pub uninterp spec fn jinja_output(template: Seq<char>, context: Value) -> Result<Seq<char>, (bool, Seq<char>)>;

/// Renders `template` with `context` through `minijinja::Environment`
/// (undefined values lenient, `truncate` as the filter above); the result is
/// the one named by `jinja_output`.
#[verifier::external_body]
fn jinja_render(template: &str, context: &Value) -> (r: Result<String, (bool, String)>)
    ensures
        match r {
            Ok(t) => jinja_output(template@, *context) == Ok::<Seq<char>, (bool, Seq<char>)>(t@),
            Err((b, e)) => jinja_output(template@, *context) == Err::<Seq<char>, (bool, Seq<char>)>((b, e@)),
        },
{
    let mut env = minijinja::Environment::new();
    env.set_undefined_behavior(minijinja::UndefinedBehavior::Lenient);
    env.add_filter("truncate", |value: String, max_len: usize| truncate_filter(value, max_len));
    if let Err(e) = env.add_template("step", template) {
        return Err((true, e.to_string()));
    }
    match env.get_template("step") {
        Ok(t) => t.render(minijinja::Value::from_serialize(context)).map_err(|e| (false, e.to_string())),
        Err(e) => Err((false, e.to_string())),
    }
}

/// The result of a template rendering as this crate reports it: the text,
/// or a render error saying whether the template was invalid or its
/// rendering failed.
pub open spec fn render_result_ok(out: Result<Seq<char>, (bool, Seq<char>)>, r: Result<String, TemplateError>) -> bool {
    match out {
        Ok(t) => r matches Ok(s) && s@ == t,
        Err((true, e)) => r matches Err(TemplateError::Render(m)) && m@ == "Invalid template: "@ + e,
        Err((false, e)) => r matches Err(TemplateError::Render(m)) && m@ == "Template render error: "@ + e,
    }
}

/// Report the outcome of a template rendering.
pub fn render_outcome(out: Result<String, (bool, String)>) -> (r: Result<String, TemplateError>)
    ensures
        render_result_ok(
            match out {
                Ok(t) => Ok::<Seq<char>, (bool, Seq<char>)>(t@),
                Err((b, e)) => Err::<Seq<char>, (bool, Seq<char>)>((b, e@)),
            },
            r,
        ),
{
    match out {
        Ok(t) => Ok(t),
        Err((true, e)) => {
            let mut m = String::from_str("Invalid template: ");
            m.append(e.as_str());
            Err(TemplateError::Render(m))
        },
        Err((false, e)) => {
            let mut m = String::from_str("Template render error: ");
            m.append(e.as_str());
            Err(TemplateError::Render(m))
        },
    }
}

/// Render a minijinja template (full Jinja2 syntax) with the context.
pub fn render_minijinja(template: &str, context: &Value) -> (r: Result<String, TemplateError>)
    ensures
        render_result_ok(jinja_output(template@, *context), r),
{
    let out = jinja_render(template, context);
    render_outcome(out)
}

/// What a step renders: an inline template already rendered, or a
/// minijinja template file to load, by its path under the template root.
#[derive(Debug, Clone)]
pub enum StepTemplate {
    Rendered(String),
    Jinja(String),
}

/// The template of step `o` whose renderer is `renderer` and template
/// reference `template_ref`, with `bindings` for `{{key}}` substitution.
pub open spec fn step_template_ok(
    o: u32,
    renderer: Option<String>,
    template_ref: Option<String>,
    bindings: Seq<(String, String)>,
    r: Result<StepTemplate, TemplateError>,
) -> bool {
    let jinja = renderer matches Some(x) && x@ == "minijinja"@;
    if jinja {
        match template_ref {
            Some(t) => r matches Ok(StepTemplate::Jinja(p)) && p@ == render_inline(t@, bindings),
            None => r matches Err(TemplateError::Manifest(m))
                && m@ == "Step "@ + decimal(o as nat) + " has renderer='minijinja' but no template_ref"@,
        }
    } else {
        match (template_ref, renderer) {
            (Some(t), _) => r matches Ok(StepTemplate::Rendered(x)) && x@ == render_inline(t@, bindings),
            (None, Some(t)) => r matches Ok(StepTemplate::Rendered(x)) && x@ == render_inline(t@, bindings),
            (None, None) => r matches Err(TemplateError::Manifest(m))
                && m@ == "Step "@ + decimal(o as nat) + " has no template_ref or renderer"@,
        }
    }
}

/// The template of a step: with renderer `minijinja`, the file named by its
/// template reference (after substitution); else its template reference, or
/// else its renderer, rendered inline.
pub fn render_step_template(step: &BundleManifestStep, bindings: &Vec<(String, String)>) -> (r: Result<StepTemplate, TemplateError>)
    ensures
        step_template_ok(step.ordinal, step.renderer, step.template_ref, bindings@, r),
{
    let jinja = match &step.renderer {
        Some(x) => crate::text::str_eq(x.as_str(), "minijinja"),
        None => false,
    };
    if jinja {
        match &step.template_ref {
            Some(t) => Ok(StepTemplate::Jinja(render_inline_template(t.as_str(), bindings))),
            None => {
                let mut m = String::from_str("Step ");
                push_decimal(&mut m, step.ordinal as u64);
                m.append(" has renderer='minijinja' but no template_ref");
                Err(TemplateError::Manifest(m))
            },
        }
    } else {
        match (&step.template_ref, &step.renderer) {
            (Some(t), _) => Ok(StepTemplate::Rendered(render_inline_template(t.as_str(), bindings))),
            (None, Some(t)) => Ok(StepTemplate::Rendered(render_inline_template(t.as_str(), bindings))),
            (None, None) => {
                let mut m = String::from_str("Step ");
                push_decimal(&mut m, step.ordinal as u64);
                m.append(" has no template_ref or renderer");
                Err(TemplateError::Manifest(m))
            },
        }
    }
}

/// The tool that an `execute` step invokes: its `mcp` reference with
/// `bindings` substituted.
pub fn mcp_reference(step: &BundleManifestStep, bindings: &Vec<(String, String)>) -> (r: Result<String, TemplateError>)
    ensures
        match step.mcp {
            Some(t) => r matches Ok(x) && x@ == render_inline(t@, bindings@),
            None => r matches Err(TemplateError::Manifest(m))
                && m@ == "Execute step "@ + decimal(step.ordinal as nat) + " has no mcp reference"@,
        },
{
    match &step.mcp {
        Some(t) => Ok(render_inline_template(t.as_str(), bindings)),
        None => {
            let mut m = String::from_str("Execute step ");
            push_decimal(&mut m, step.ordinal as u64);
            m.append(" has no mcp reference");
            Err(TemplateError::Manifest(m))
        },
    }
}

} // verus!
