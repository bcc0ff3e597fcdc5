//! Tree-sitter query rules: text predicates (`#eq?`, `#match?`,
//! `#any-of?` and their negations) are split out of the query and
//! evaluated here; tree-sitter matches the structural pattern.

use vstd::prelude::*;
use crate::language::Language;
use crate::pack::{regex_accepts, regex_is_match, regex_matches, regex_new};
use crate::text::{chars_of, is_whitespace, is_ws, push_char, str_eq, string_from_chars, text_of};
use tree_sitter::StreamingIterator;

verus! {

// ---------- the predicate grammar ----------

/// Characters of a predicate operator: `[a-z?-]`.
pub open spec fn is_op_char(c: char) -> bool {
    ('a' <= c && c <= 'z') || c == '?' || c == '-'
}

/// Characters of a capture name: `[a-zA-Z_0-9]`.
pub open spec fn is_capture_char(c: char) -> bool {
    ('a' <= c && c <= 'z') || ('A' <= c && c <= 'Z') || ('0' <= c && c <= '9') || c == '_'
}

/// First position at or after `i` that is not whitespace.
pub open spec fn skip_ws(t: Seq<char>, i: int) -> int
    decreases t.len() - i,
{
    if 0 <= i < t.len() && is_ws(t[i]) {
        skip_ws(t, i + 1)
    } else {
        i
    }
}

/// End of the run of operator characters from `i`.
pub open spec fn op_run(t: Seq<char>, i: int) -> int
    decreases t.len() - i,
{
    if 0 <= i < t.len() && is_op_char(t[i]) {
        op_run(t, i + 1)
    } else {
        i
    }
}

/// End of the run of capture-name characters from `i`.
pub open spec fn capture_run(t: Seq<char>, i: int) -> int
    decreases t.len() - i,
{
    if 0 <= i < t.len() && is_capture_char(t[i]) {
        capture_run(t, i + 1)
    } else {
        i
    }
}

/// Position just after the closing quote of a string whose contents start
/// at `j`; a backslash escapes the next character (not a line feed).
pub open spec fn string_end(t: Seq<char>, j: int) -> Option<int>
    decreases t.len() - j,
{
    if j < 0 || j >= t.len() {
        None
    } else if t[j] == '"' {
        Some(j + 1)
    } else if t[j] == '\\' {
        if j + 1 < t.len() && t[j + 1] != '\n' {
            string_end(t, j + 2)
        } else {
            None
        }
    } else {
        string_end(t, j + 1)
    }
}

pub proof fn lemma_string_end(t: Seq<char>, j: int)
    ensures
        string_end(t, j) matches Some(e) ==> j < e <= t.len(),
    decreases t.len() - j,
{
    if 0 <= j < t.len() && t[j] != '"' {
        if t[j] == '\\' {
            if j + 1 < t.len() && t[j + 1] != '\n' {
                lemma_string_end(t, j + 2);
            }
        } else {
            lemma_string_end(t, j + 1);
        }
    }
}

pub proof fn lemma_skip_ws(t: Seq<char>, i: int)
    ensures
        i <= skip_ws(t, i),
        0 <= i <= t.len() ==> skip_ws(t, i) <= t.len(),
    decreases t.len() - i,
{
    if 0 <= i < t.len() && is_ws(t[i]) {
        lemma_skip_ws(t, i + 1);
    }
}

/// The quoted values from `i` up to the closing `)` that ends the text:
/// each value follows whitespace; its contents are kept as written.
pub open spec fn values_from(t: Seq<char>, i: int, acc: Seq<Seq<char>>) -> Option<Seq<Seq<char>>>
    decreases t.len() - i,
{
    let k = skip_ws(t, i);
    if i < 0 || i > t.len() {
        None
    } else if k < t.len() && t[k] == '"' && k > i {
        match string_end(t, k + 1) {
            Some(e) => if e > i && e <= t.len() {
                values_from(t, e, acc.push(t.subrange(k + 1, e - 1)))
            } else {
                None
            },
            None => None,
        }
    } else if k < t.len() && t[k] == ')' && k + 1 == t.len() {
        Some(acc)
    } else {
        None
    }
}

/// `(#op @capture "value" ...)`: the raw operator, the capture name and the
/// values, when the text is exactly one predicate.
pub open spec fn parse_predicate_spec(t: Seq<char>) -> Option<(Seq<char>, Seq<char>, Seq<Seq<char>>)> {
    if t.len() == 0 || t[0] != '(' {
        None
    } else {
        let a = skip_ws(t, 1);
        if a >= t.len() || t[a] != '#' {
            None
        } else {
            let oe = op_run(t, a + 1);
            let b = skip_ws(t, oe);
            if oe == a + 1 || b == oe || b >= t.len() || t[b] != '@' {
                None
            } else {
                let ce = capture_run(t, b + 1);
                if ce == b + 1 {
                    None
                } else {
                    match values_from(t, ce, Seq::empty()) {
                        Some(values) => Some((t.subrange(a + 1, oe), t.subrange(b + 1, ce), values)),
                        None => None,
                    }
                }
            }
        }
    }
}

/// Trailing `?`s removed (`trim_end_matches('?')`).
pub open spec fn without_trailing_qm(s: Seq<char>) -> Seq<char>
    decreases s.len(),
{
    if s.len() > 0 && s.last() == '?' {
        without_trailing_qm(s.drop_last())
    } else {
        s
    }
}

/// A text predicate of a query.
#[derive(Debug)]
pub struct Predicate {
    /// `eq`, `not-eq`, `match`, `not-match`, `any-of`, `not-any-of`, ...
    pub operator: String,
    pub capture: String,
    /// The string arguments as written.
    pub values: Vec<String>,
    /// The compiled first value, for `match` and `not-match`.
    pub regex: Option<crate::pack::CompiledRegex>,
}

/// What a parsed predicate says: (operator, capture, values).
pub open spec fn predicate_view(p: Predicate) -> (Seq<char>, Seq<char>, Seq<Seq<char>>) {
    (p.operator@, p.capture@, crate::var_set::names_of(p.values@))
}

/// The regex-evaluated operators.
pub open spec fn is_regex_op(op: Seq<char>) -> bool {
    op == "match"@ || op == "not-match"@
}

fn skip_ws_exec(t: &[char], i: usize) -> (r: usize)
    requires
        i <= t@.len(),
    ensures
        r == skip_ws(t@, i as int),
        i <= r <= t@.len(),
{
    let mut k = i;
    while k < t.len() && is_whitespace(t[k])
        invariant
            i <= k <= t@.len(),
            skip_ws(t@, k as int) == skip_ws(t@, i as int),
        decreases t@.len() - k,
    {
        k = k + 1;
    }
    k
}

fn is_op_char_exec(c: char) -> (r: bool)
    ensures
        r == is_op_char(c),
{
    ('a' <= c && c <= 'z') || c == '?' || c == '-'
}

fn is_capture_char_exec(c: char) -> (r: bool)
    ensures
        r == is_capture_char(c),
{
    ('a' <= c && c <= 'z') || ('A' <= c && c <= 'Z') || ('0' <= c && c <= '9') || c == '_'
}

fn string_end_exec(t: &[char], j: usize) -> (r: Option<usize>)
    requires
        j <= t@.len(),
    ensures
        match r {
            Some(e) => string_end(t@, j as int) == Some(e as int),
            None => string_end(t@, j as int) is None,
        },
{
    let mut k = j;
    while k < t.len()
        invariant
            j <= k,
            k <= t@.len() + 1,
            string_end(t@, k as int) == string_end(t@, j as int),
        decreases t@.len() + 1 - k,
    {
        if t[k] == '"' {
            return Some(k + 1);
        }
        if t[k] == '\\' {
            if k + 1 < t.len() && t[k + 1] != '\n' {
                k = k + 2;
            } else {
                return None;
            }
        } else {
            k = k + 1;
        }
    }
    None
}

/// Parses one predicate text.
pub fn parse_predicate(text: &str) -> (r: Option<Predicate>)
    ensures
        match r {
            Some(p) => parse_predicate_spec(text@) matches Some((op, cap, values)) && p.operator@
                == without_trailing_qm(op) && p.capture@ == cap && crate::var_set::names_of(p.values@) == values
                && (p.regex is Some <==> (is_regex_op(p.operator@) && values.len() > 0 && regex_accepts(
                values[0],
            ))) && (p.regex matches Some(c) ==> values.len() > 0 && c.pattern() == values[0]),
            None => parse_predicate_spec(text@) is None,
        },
{
    let t = chars_of(text);
    let n = t.len();
    if n == 0 || t[0] != '(' {
        return None;
    }
    let a = skip_ws_exec(t.as_slice(), 1);
    if a >= n || t[a] != '#' {
        return None;
    }
    let mut oe = a + 1;
    while oe < n && is_op_char_exec(t[oe])
        invariant
            a + 1 <= oe <= n == t@.len(),
            op_run(t@, oe as int) == op_run(t@, a + 1),
        decreases n - oe,
    {
        oe = oe + 1;
    }
    let b = skip_ws_exec(t.as_slice(), oe);
    if oe == a + 1 || b == oe || b >= n || t[b] != '@' {
        return None;
    }
    let mut ce = b + 1;
    while ce < n && is_capture_char_exec(t[ce])
        invariant
            b + 1 <= ce <= n == t@.len(),
            capture_run(t@, ce as int) == capture_run(t@, b + 1),
        decreases n - ce,
    {
        ce = ce + 1;
    }
    if ce == b + 1 {
        return None;
    }
    let mut values: Vec<String> = Vec::new();
    let mut i = ce;
    let ghost whole = values_from(t@, ce as int, Seq::empty());
    proof {
        assert(crate::var_set::names_of(values@) =~= Seq::<Seq<char>>::empty());
        assert(op_run(t@, oe as int) == oe);
        assert(capture_run(t@, ce as int) == ce);
    }
    let ghost expected = match whole {
        Some(vs) => Some((t@.subrange(a + 1, oe as int), t@.subrange(b + 1, ce as int), vs)),
        None => None,
    };
    assert(parse_predicate_spec(text@) == expected);
    loop
        invariant
            ce <= i <= n == t@.len(),
            t@ == text@,
            values_from(t@, i as int, crate::var_set::names_of(values@)) == whole,
            whole == values_from(t@, ce as int, Seq::empty()),
            parse_predicate_spec(text@) == expected,
            expected == match whole {
                Some(vs) => Some((t@.subrange(a + 1, oe as int), t@.subrange(b + 1, ce as int), vs)),
                None => None,
            },
        ensures
            whole == Some(crate::var_set::names_of(values@)),
        decreases n - i,
    {
        let k = skip_ws_exec(t.as_slice(), i);
        if k < n && t[k] == '"' && k > i {
            match string_end_exec(t.as_slice(), k + 1) {
                Some(e) => {
                    proof {
                        lemma_string_end(t@, k + 1);
                    }
                    let ghost prev = crate::var_set::names_of(values@);
                    values.push(string_from_chars(t.as_slice(), k + 1, e - 1));
                    assert(crate::var_set::names_of(values@) =~= prev.push(t@.subrange(k + 1, e - 1)));
                    i = e;
                },
                None => {
                    return None;
                },
            }
        } else if k < n && t[k] == ')' && k + 1 == n {
            break;
        } else {
            return None;
        }
    }
    let mut oend = oe;
    while oend > a + 1 && t[oend - 1] == '?'
        invariant
            a + 1 <= oend <= oe <= n == t@.len(),
            without_trailing_qm(t@.subrange(a + 1, oe as int)) == without_trailing_qm(t@.subrange(a + 1, oend as int)),
        decreases oend,
    {
        proof {
            let s = t@.subrange(a + 1, oend as int);
            assert(s.drop_last() =~= t@.subrange(a + 1, oend - 1));
        }
        oend = oend - 1;
    }
    proof {
        let s = t@.subrange(a + 1, oend as int);
        if s.len() > 0 {
            assert(s.last() == t@[oend - 1]);
        }
    }
    let operator = string_from_chars(t.as_slice(), a + 1, oend);
    let capture = string_from_chars(t.as_slice(), b + 1, ce);
    let regex_op = str_eq(operator.as_str(), "match") || str_eq(operator.as_str(), "not-match");
    let regex = if regex_op && values.len() > 0 {
        match regex_new(values[0].as_str()) {
            Ok(re) => Some(re),
            Err(_) => None,
        }
    } else {
        None
    };
    proof {
        if values@.len() > 0 {
            assert(crate::var_set::names_of(values@)[0] == values@[0]@);
        }
    }
    Some(Predicate { operator, capture, values, regex })
}

/// Where the predicate scan that reached `end` stops: just past the `)`
/// that balances the opening one, string quotes respected (a backslash in a
/// string skips the next character).
pub open spec fn pred_end(t: Seq<char>, end: int, depth: int, in_quote: bool) -> int
    decreases t.len() - end,
{
    if end < 0 || end >= t.len() {
        end
    } else if in_quote {
        if t[end] == '\\' {
            if end + 2 > t.len() {
                end + 2
            } else {
                pred_end(t, end + 2, depth, true)
            }
        } else if t[end] == '"' {
            pred_end(t, end + 1, depth, false)
        } else {
            pred_end(t, end + 1, depth, true)
        }
    } else if t[end] == '"' {
        pred_end(t, end + 1, depth, true)
    } else if t[end] == '(' {
        pred_end(t, end + 1, depth + 1, false)
    } else if t[end] == ')' {
        if depth - 1 == 0 {
            end + 1
        } else {
            pred_end(t, end + 1, depth - 1, false)
        }
    } else {
        pred_end(t, end + 1, depth, false)
    }
}

pub proof fn lemma_pred_end(t: Seq<char>, end: int, depth: int, in_quote: bool)
    requires
        0 <= end,
    ensures
        pred_end(t, end, depth, in_quote) >= end,
    decreases t.len() - end,
{
    if end < t.len() {
        if in_quote {
            if t[end] == '\\' {
                if end + 2 <= t.len() {
                    lemma_pred_end(t, end + 2, depth, true);
                }
            } else if t[end] == '"' {
                lemma_pred_end(t, end + 1, depth, false);
            } else {
                lemma_pred_end(t, end + 1, depth, true);
            }
        } else if t[end] == '"' {
            lemma_pred_end(t, end + 1, depth, true);
        } else if t[end] == '(' {
            lemma_pred_end(t, end + 1, depth + 1, false);
        } else if t[end] == ')' {
            if depth - 1 != 0 {
                lemma_pred_end(t, end + 1, depth - 1, false);
            }
        } else {
            lemma_pred_end(t, end + 1, depth, false);
        }
    }
}

/// A predicate starts at `i`: `(` directly followed by `#`.
pub open spec fn starts_predicate(t: Seq<char>, i: int) -> bool {
    0 <= i && i + 1 < t.len() && t[i] == '(' && t[i + 1] == '#'
}

/// Every predicate from `i` on closes inside the text.
pub open spec fn predicates_close(t: Seq<char>, i: int) -> bool
    decreases t.len() - i,
{
    if i < 0 || i >= t.len() {
        true
    } else if starts_predicate(t, i) {
        let end = pred_end(t, i, 0, false);
        end <= t.len() && (end > i ==> predicates_close(t, end))
    } else {
        predicates_close(t, i + 1)
    }
}

/// The query with each predicate from `i` on replaced by one space, and the
/// predicates that parse, as (operator, capture, values).
pub open spec fn split_spec(t: Seq<char>, i: int) -> (Seq<char>, Seq<(Seq<char>, Seq<char>, Seq<Seq<char>>)>)
    decreases t.len() - i,
{
    if i < 0 || i >= t.len() {
        (Seq::empty(), Seq::empty())
    } else if starts_predicate(t, i) {
        let end = pred_end(t, i, 0, false);
        if end <= i || end > t.len() {
            (Seq::empty(), Seq::empty())
        } else {
            let rest = split_spec(t, end);
            let own = match parse_predicate_spec(t.subrange(i, end)) {
                Some((op, cap, values)) => seq![(without_trailing_qm(op), cap, values)],
                None => Seq::empty(),
            };
            (seq![' '] + rest.0, own + rest.1)
        }
    } else {
        let rest = split_spec(t, i + 1);
        (seq![t[i]] + rest.0, rest.1)
    }
}

/// A predicate's compiled regex is present exactly for a regex operator
/// whose first value the regex crate accepts.
pub open spec fn regex_compiled(p: Predicate) -> bool {
    &&& p.regex is Some <==> (is_regex_op(p.operator@) && p.values@.len() > 0 && regex_accepts(p.values@[0]@))
    &&& p.regex matches Some(c) ==> p.values@.len() > 0 && c.pattern() == p.values@[0]@
}

fn pred_end_exec(t: &[char], start: usize) -> (r: usize)
    requires
        start + 1 < t@.len(),
        t@[start as int] == '(',
        pred_end(t@, start as int, 0, false) <= t@.len(),
    ensures
        r == pred_end(t@, start as int, 0, false),
{
    let ghost target = pred_end(t@, start as int, 0, false);
    let n = t.len();
    let mut end = start + 1;
    let mut depth: usize = 1;
    let mut in_quote = false;
    while end < t.len()
        invariant
            start < end <= t@.len(),
            1 <= depth <= end,
            target == pred_end(t@, start as int, 0, false),
            target <= t@.len(),
            pred_end(t@, end as int, depth as int, in_quote) == target,
        decreases t@.len() - end,
    {
        let c = t[end];
        if in_quote {
            if c == '\\' {
                end = end + 2;
            } else {
                if c == '"' {
                    in_quote = false;
                }
                end = end + 1;
            }
        } else if c == '"' {
            in_quote = true;
            end = end + 1;
        } else if c == '(' {
            depth = depth + 1;
            end = end + 1;
        } else if c == ')' {
            if depth == 1 {
                return end + 1;
            }
            depth = depth - 1;
            end = end + 1;
        } else {
            end = end + 1;
        }
    }
    end
}

/// Whether every predicate of the query closes inside it.
pub fn predicates_close_exec(query_source: &str) -> (r: bool)
    ensures
        r == predicates_close(query_source@, 0),
{
    let t = chars_of(query_source);
    let n = t.len();
    let mut i: usize = 0;
    while i < n
        invariant
            i <= n == t@.len(),
            t@ == query_source@,
            predicates_close(t@, i as int) == predicates_close(t@, 0),
        decreases n - i,
    {
        if i + 1 < n && t[i] == '(' && t[i + 1] == '#' {
            let mut end = i + 1;
            let mut depth: usize = 1;
            let mut in_quote = false;
            proof {
                lemma_pred_end(t@, i as int, 0, false);
            }
            let mut overrun = false;
            while end < n
                invariant_except_break
                    pred_end(t@, end as int, depth as int, in_quote) == pred_end(t@, i as int, 0, false),
                    !overrun,
                invariant
                    i < end <= n,
                    n == t@.len(),
                    1 <= depth <= end,
                ensures
                    overrun ==> pred_end(t@, i as int, 0, false) > n,
                    !overrun ==> end == pred_end(t@, i as int, 0, false),
                    end <= n,
                decreases n - end,
            {
                let c = t[end];
                if in_quote {
                    if c == '\\' {
                        if end >= n - 1 {
                            overrun = true;
                            break;
                        }
                        end = end + 2;
                    } else {
                        if c == '"' {
                            in_quote = false;
                        }
                        end = end + 1;
                    }
                } else if c == '"' {
                    in_quote = true;
                    end = end + 1;
                } else if c == '(' {
                    depth = depth + 1;
                    end = end + 1;
                } else if c == ')' {
                    if depth == 1 {
                        end = end + 1;
                        break;
                    }
                    depth = depth - 1;
                    end = end + 1;
                } else {
                    end = end + 1;
                }
            }
            if overrun {
                return false;
            }
            i = end;
        } else {
            i = i + 1;
        }
    }
    true
}

/// What the predicates of a query say: (operator, capture, values) each.
pub open spec fn predicates_view(ps: Seq<Predicate>) -> Seq<(Seq<char>, Seq<char>, Seq<Seq<char>>)> {
    ps.map_values(|p: Predicate| predicate_view(p))
}

/// Splits the `(#operator @capture "value" ...)` predicates out of a query:
/// each is replaced by one space, and those that parse are returned in
/// order, with the regular expression of `match`/`not-match` compiled.
pub fn split_predicates(query_source: &str) -> (r: (String, Vec<Predicate>))
    requires
        predicates_close(query_source@, 0),
    ensures
        r.0@ == split_spec(query_source@, 0).0,
        predicates_view(r.1@) == split_spec(query_source@, 0).1,
        forall|k: int| 0 <= k < r.1@.len() ==> regex_compiled(#[trigger] r.1@[k]),
{
    let t = chars_of(query_source);
    let n = t.len();
    let mut stripped = String::new();
    let mut predicates: Vec<Predicate> = Vec::new();
    let mut i: usize = 0;
    proof {
        assert(stripped@ + split_spec(t@, 0).0 =~= split_spec(t@, 0).0);
        assert(predicates_view(predicates@) + split_spec(t@, 0).1 =~= split_spec(t@, 0).1);
    }
    while i < n
        invariant
            i <= n == t@.len(),
            t@ == query_source@,
            predicates_close(t@, i as int),
            stripped@ + split_spec(t@, i as int).0 == split_spec(t@, 0).0,
            predicates_view(predicates@) + split_spec(t@, i as int).1 == split_spec(t@, 0).1,
            forall|k: int| 0 <= k < predicates@.len() ==> regex_compiled(#[trigger] predicates@[k]),
        decreases n - i,
    {
        if i + 1 < n && t[i] == '(' && t[i + 1] == '#' {
            proof {
                assert(pred_end(t@, i as int, 0, false) == pred_end(t@, i + 1, 1, false));
                lemma_pred_end(t@, i + 1, 1, false);
            }
            let end = pred_end_exec(t.as_slice(), i);
            assert(end > i);
            let text = string_from_chars(t.as_slice(), i, end);
            let ghost before = predicates_view(predicates@);
            let ghost own = match parse_predicate_spec(t@.subrange(i as int, end as int)) {
                Some((op, cap, values)) => seq![(without_trailing_qm(op), cap, values)],
                None => Seq::<(Seq<char>, Seq<char>, Seq<Seq<char>>)>::empty(),
            };
            match parse_predicate(text.as_str()) {
                Some(p) => {
                    predicates.push(p);
                    assert(predicates_view(predicates@) =~= before + own);
                },
                None => {
                    assert(predicates_view(predicates@) =~= before + own);
                },
            }
            let ghost s0 = stripped@;
            push_char(&mut stripped, ' ');
            proof {
                assert(stripped@ + split_spec(t@, end as int).0 =~= s0 + (seq![' '] + split_spec(t@, end as int).0));
                assert(predicates_view(predicates@) + split_spec(t@, end as int).1 =~= before + (own + split_spec(
                    t@,
                    end as int,
                ).1));
                assert forall|k: int| 0 <= k < predicates@.len() implies regex_compiled(#[trigger] predicates@[k]) by {
                    if k < predicates@.len() - 1 || own.len() == 0 {
                    }
                }
            }
            i = end;
        } else {
            let ghost s0 = stripped@;
            push_char(&mut stripped, t[i]);
            proof {
                assert(stripped@ + split_spec(t@, i + 1).0 =~= s0 + (seq![t@[i as int]] + split_spec(t@, i + 1).0));
            }
            i = i + 1;
        }
    }
    proof {
        assert(stripped@ =~= stripped@ + split_spec(t@, n as int).0);
        assert(predicates_view(predicates@) =~= predicates_view(predicates@) + split_spec(t@, n as int).1);
    }
    (stripped, predicates)
}

// ---------- evaluating predicates ----------

/// One captured node of a query match: the capture's index in the query's
/// capture names and the node's span.
#[derive(Debug, Clone, Copy, PartialEq, Eq, Structural)]
pub struct Capture {
    pub index: usize,
    pub start_byte: usize,
    pub end_byte: usize,
    pub start_row: usize,
    pub start_column: usize,
    pub end_row: usize,
    pub end_column: usize,
}

/// The source text between two byte offsets, when both fall on character
/// boundaries.
pub open spec fn span_text(src: Seq<u8>, start: usize, end: usize) -> Option<Seq<char>> {
    if start <= end <= src.len() && vstd::utf8::is_char_boundary(src, start as int) && vstd::utf8::is_char_boundary(
        src,
        end as int,
    ) {
        Some(vstd::utf8::decode_utf8(src.subrange(start as int, end as int)))
    } else {
        None
    }
}

/// The name of a capture.
pub open spec fn capture_name(c: Capture, names: Seq<Seq<char>>) -> Option<Seq<char>> {
    if c.index < names.len() {
        Some(names[c.index as int])
    } else {
        None
    }
}

/// The texts of the captures named `capture` (captures whose span is not
/// on character boundaries contribute nothing).
pub open spec fn capture_texts(caps: Seq<Capture>, names: Seq<Seq<char>>, capture: Seq<char>, src: Seq<u8>) -> Seq<Seq<char>>
    decreases caps.len(),
{
    if caps.len() == 0 {
        Seq::empty()
    } else {
        let prev = capture_texts(caps.drop_last(), names, capture, src);
        let c = caps.last();
        if capture_name(c, names) == Some(capture) {
            match span_text(src, c.start_byte, c.end_byte) {
                Some(t) => prev.push(t),
                None => prev,
            }
        } else {
            prev
        }
    }
}

/// Whether a predicate without a regular expression holds of the captured
/// texts; unknown operators hold.
pub open spec fn passes_text_predicate(op: Seq<char>, values: Seq<Seq<char>>, texts: Seq<Seq<char>>) -> bool {
    if op == "eq"@ {
        texts.len() > 0 && forall|k: int| 0 <= k < texts.len() ==> texts[k] == values[0]
    } else if op == "not-eq"@ {
        texts.len() == 0 || forall|k: int| 0 <= k < texts.len() ==> texts[k] != values[0]
    } else if op == "any-of"@ {
        texts.len() > 0 && forall|k: int| 0 <= k < texts.len() ==> values.contains(#[trigger] texts[k])
    } else if op == "not-any-of"@ {
        texts.len() == 0 || forall|k: int| 0 <= k < texts.len() ==> !values.contains(#[trigger] texts[k])
    } else {
        true
    }
}

/// Whether a predicate (operator, capture, values) holds of the captured
/// texts: the text operators as `passes_text_predicate` says; `match`
/// (`not-match`) holds when every text matches (none matches) the first
/// value as a regular expression, and fails when that value is missing or
/// does not compile, unless there is no text (then only `not-match` holds).
pub open spec fn passes_view(p: (Seq<char>, Seq<char>, Seq<Seq<char>>), texts: Seq<Seq<char>>) -> bool {
    if is_regex_op(p.0) {
        let negated = p.0 == "not-match"@;
        if texts.len() == 0 {
            negated
        } else if p.2.len() > 0 && regex_accepts(p.2[0]) {
            forall|m: int| 0 <= m < texts.len() ==> regex_matches(p.2[0], #[trigger] texts[m]) != negated
        } else {
            false
        }
    } else {
        passes_text_predicate(p.0, p.2, texts)
    }
}

/// Every predicate holds of the texts of its capture in one match.
pub open spec fn all_pass(
    preds: Seq<(Seq<char>, Seq<char>, Seq<Seq<char>>)>,
    caps: Seq<Capture>,
    names: Seq<Seq<char>>,
    src: Seq<u8>,
) -> bool {
    forall|k: int| 0 <= k < preds.len() ==> passes_view(#[trigger] preds[k], capture_texts(caps, names, preds[k].1, src))
}

/// `eq` and `not-eq` predicates carry the value they compare with.
pub open spec fn values_present(p: (Seq<char>, Seq<char>, Seq<Seq<char>>)) -> bool {
    (p.0 == "eq"@ || p.0 == "not-eq"@) ==> p.2.len() > 0
}

fn text_list_contains(values: &Vec<String>, text: &str) -> (r: bool)
    ensures
        r == crate::var_set::names_of(values@).contains(text@),
{
    let mut k: usize = 0;
    while k < values.len()
        invariant
            k <= values@.len(),
            forall|j: int| 0 <= j < k ==> values@[j]@ != text@,
        decreases values@.len() - k,
    {
        if str_eq(values[k].as_str(), text) {
            assert(crate::var_set::names_of(values@)[k as int] == text@);
            return true;
        }
        k = k + 1;
    }
    proof {
        if crate::var_set::names_of(values@).contains(text@) {
            let j = crate::var_set::names_of(values@).index_of(text@);
            assert(crate::var_set::names_of(values@)[j] == values@[j]@);
        }
    }
    false
}

/// The texts of the captures named `capture`, in capture order.
fn texts_of<'s>(captures: &Vec<Capture>, names: &Vec<String>, capture: &str, source: &'s str) -> (r: Vec<&'s str>)
    ensures
        r@.map_values(|t: &str| t@) == capture_texts(captures@, crate::var_set::names_of(names@), capture@, crate::text::sbytes(source)),
{
    let ghost nv = crate::var_set::names_of(names@);
    let ghost src = crate::text::sbytes(source);
    let mut out: Vec<&str> = Vec::new();
    let mut k: usize = 0;
    proof {
        assert(captures@.subrange(0, 0) =~= Seq::<Capture>::empty());
        assert(out@.map_values(|t: &str| t@) =~= Seq::<Seq<char>>::empty());
    }
    while k < captures.len()
        invariant
            k <= captures@.len(),
            nv == crate::var_set::names_of(names@),
            src == crate::text::sbytes(source),
            out@.map_values(|t: &str| t@) == capture_texts(captures@.subrange(0, k as int), nv, capture@, src),
        decreases captures@.len() - k,
    {
        let c = captures[k];
        proof {
            let sub = captures@.subrange(0, k + 1);
            assert(sub.drop_last() =~= captures@.subrange(0, k as int));
            assert(sub.last() == c);
        }
        let named = c.index < names.len() && str_eq(names[c.index].as_str(), capture);
        proof {
            if c.index < names@.len() {
                assert(nv[c.index as int] == names@[c.index as int]@);
            }
        }
        if named {
            match text_of(source, c.start_byte, c.end_byte) {
                Some(t) => {
                    let ghost prev = out@.map_values(|t: &str| t@);
                    out.push(t);
                    proof {
                        vstd::utf8::encode_utf8_decode_utf8(t@);
                        assert(out@.map_values(|t: &str| t@) =~= prev.push(t@));
                    }
                },
                None => {},
            }
        }
        k = k + 1;
    }
    assert(captures@.subrange(0, captures@.len() as int) =~= captures@);
    out
}

/// A predicate reached in one match (every predicate before it holds)
/// needs a value it does not carry while its capture has text there, so
/// there is nothing to compare that text with.
pub open spec fn value_missing(
    preds: Seq<(Seq<char>, Seq<char>, Seq<Seq<char>>)>,
    caps: Seq<Capture>,
    names: Seq<Seq<char>>,
    src: Seq<u8>,
) -> bool {
    exists|k: int|
        0 <= k < preds.len() && !values_present(#[trigger] preds[k]) && capture_texts(caps, names, preds[k].1, src).len() > 0
            && forall|j: int| 0 <= j < k ==> passes_view(#[trigger] preds[j], capture_texts(caps, names, preds[j].1, src))
}

/// Evaluates the predicates against one match, in order, stopping at the
/// first that fails: a capture that appears several times must satisfy the
/// predicate at every occurrence, and a predicate whose capture is absent
/// holds for the negated forms. `None` when a reached `eq`/`not-eq`
/// predicate has no value to compare its capture's text with.
pub fn predicates_match(captures: &Vec<Capture>, names: &Vec<String>, predicates: &Vec<Predicate>, source: &str) -> (r: Option<bool>)
    requires
        forall|k: int| 0 <= k < predicates@.len() ==> regex_compiled(#[trigger] predicates@[k]),
    ensures
        r is None <==> value_missing(predicates_view(predicates@), captures@, crate::var_set::names_of(names@), crate::text::sbytes(source)),
        r matches Some(b) ==> b == all_pass(predicates_view(predicates@), captures@, crate::var_set::names_of(names@), crate::text::sbytes(source)),
{
    let ghost pv = predicates_view(predicates@);
    let ghost nv = crate::var_set::names_of(names@);
    let ghost src = crate::text::sbytes(source);
    let mut k: usize = 0;
    while k < predicates.len()
        invariant
            k <= predicates@.len(),
            pv == predicates_view(predicates@),
            nv == crate::var_set::names_of(names@),
            src == crate::text::sbytes(source),
            forall|k: int| 0 <= k < predicates@.len() ==> regex_compiled(#[trigger] predicates@[k]),
            forall|j: int| 0 <= j < k ==> passes_view(#[trigger] pv[j], capture_texts(captures@, nv, pv[j].1, src)),
            forall|j: int| 0 <= j < k ==> values_present(#[trigger] pv[j]) || capture_texts(captures@, nv, pv[j].1, src).len() == 0,
        decreases predicates@.len() - k,
    {
        let p = &predicates[k];
        let texts = texts_of(captures, names, p.capture.as_str(), source);
        let ghost tv = texts@.map_values(|t: &str| t@);
        let ghost vals = crate::var_set::names_of(p.values@);
        let op = p.operator.as_str();
        let passes = if str_eq(op, "eq") || str_eq(op, "not-eq") {
            let negated = str_eq(op, "not-eq");
            if p.values.len() == 0 && texts.len() > 0 {
                proof {
                    assert(pv[k as int] == predicate_view(predicates@[k as int]));
                    assert(tv == capture_texts(captures@, nv, pv[k as int].1, src));
                    assert(!values_present(pv[k as int]));
                    assert(value_missing(pv, captures@, nv, src));
                }
                return None;
            }
            let mut all = true;
            let mut j: usize = 0;
            while j < texts.len()
                invariant
                    j <= texts@.len(),
                    vals.len() > 0 || texts@.len() == 0,
                    vals == crate::var_set::names_of(p.values@),
                    tv == texts@.map_values(|t: &str| t@),
                    all == (forall|m: int| 0 <= m < j ==> (if negated { tv[m] != vals[0] } else { tv[m] == vals[0] })),
                decreases texts@.len() - j,
            {
                let same = str_eq(texts[j], p.values[0].as_str());
                proof {
                    assert(tv[j as int] == texts@[j as int]@);
                    assert(vals[0] == p.values@[0]@);
                }
                let ghost prev_all = all;
                if negated == same {
                    all = false;
                }
                proof {
                    assert forall|m: int| 0 <= m < j + 1 && all implies (if negated { tv[m] != vals[0] } else { tv[m] == vals[0] }) by {
                        if m < j {
                            assert(prev_all);
                        }
                    }
                }
                j = j + 1;
            }
            let result = if negated {
                texts.len() == 0 || all
            } else {
                texts.len() > 0 && all
            };
            proof {
                reveal_strlit("eq");
                reveal_strlit("not-eq");
                reveal_strlit("any-of");
                reveal_strlit("not-any-of");
                assert(tv.len() == texts@.len());
                if negated {
                    assert(p.operator@ == "not-eq"@);
                    assert("not-eq"@ != "eq"@) by {
                        assert("not-eq"@.len() != "eq"@.len());
                    }
                    assert(all == (forall|m: int| 0 <= m < tv.len() ==> tv[m] != vals[0]));
                    assert(passes_text_predicate(p.operator@, vals, tv) == (tv.len() == 0 || forall|m: int| 0 <= m < tv.len() ==> tv[m] != vals[0]));
                } else {
                    assert(p.operator@ == "eq"@);
                    assert(all == (forall|m: int| 0 <= m < tv.len() ==> tv[m] == vals[0]));
                }
                assert(result == passes_text_predicate(p.operator@, vals, tv));
            }
            result
        } else if str_eq(op, "any-of") || str_eq(op, "not-any-of") {
            let negated = str_eq(op, "not-any-of");
            let mut all = true;
            let mut j: usize = 0;
            while j < texts.len()
                invariant
                    j <= texts@.len(),
                    vals == crate::var_set::names_of(p.values@),
                    tv == texts@.map_values(|t: &str| t@),
                    all == (forall|m: int| 0 <= m < j ==> (if negated { !vals.contains(tv[m]) } else { vals.contains(tv[m]) })),
                decreases texts@.len() - j,
            {
                let found = text_list_contains(&p.values, texts[j]);
                proof {
                    assert(tv[j as int] == texts@[j as int]@);
                }
                let ghost prev_all = all;
                if negated == found {
                    all = false;
                }
                proof {
                    assert forall|m: int| 0 <= m < j + 1 && all implies (if negated { !vals.contains(tv[m]) } else { vals.contains(tv[m]) }) by {
                        if m < j {
                            assert(prev_all);
                        }
                    }
                }
                j = j + 1;
            }
            let result = if negated {
                texts.len() == 0 || all
            } else {
                texts.len() > 0 && all
            };
            proof {
                reveal_strlit("eq");
                reveal_strlit("not-eq");
                reveal_strlit("any-of");
                reveal_strlit("not-any-of");
                assert(tv.len() == texts@.len());
                if negated {
                    assert(p.operator@ == "not-any-of"@);
                    assert("not-any-of"@ != "any-of"@) by {
                        assert("not-any-of"@.len() != "any-of"@.len());
                    }
                    assert(all == (forall|m: int| 0 <= m < tv.len() ==> !vals.contains(tv[m])));
                } else {
                    assert(p.operator@ == "any-of"@);
                    assert(all == (forall|m: int| 0 <= m < tv.len() ==> vals.contains(tv[m])));
                }
                assert(result == passes_text_predicate(p.operator@, vals, tv));
            }
            result
        } else if str_eq(op, "match") || str_eq(op, "not-match") {
            let negated = str_eq(op, "not-match");
            proof {
                assert(regex_compiled(predicates@[k as int]));
                assert(vals == crate::var_set::names_of(p.values@));
                if vals.len() > 0 {
                    assert(vals[0] == p.values@[0]@);
                }
            }
            if texts.len() == 0 {
                negated
            } else {
                match &p.regex {
                    None => false,
                    Some(re) => {
                        let mut all = true;
                        let mut j: usize = 0;
                        while j < texts.len()
                            invariant
                                j <= texts@.len(),
                                tv == texts@.map_values(|t: &str| t@),
                                vals.len() > 0 && re.pattern() == vals[0],
                                all == (forall|m: int| 0 <= m < j ==> regex_matches(vals[0], #[trigger] tv[m]) != negated),
                            decreases texts@.len() - j,
                        {
                            let ghost prev_all = all;
                            let hit = regex_is_match(re, texts[j]);
                            proof {
                                assert(tv[j as int] == texts@[j as int]@);
                            }
                            if hit == negated {
                                all = false;
                            }
                            proof {
                                assert forall|m: int| 0 <= m < j + 1 && all implies regex_matches(vals[0], #[trigger] tv[m]) != negated by {
                                    if m < j {
                                        assert(prev_all);
                                    }
                                }
                            }
                            j = j + 1;
                        }
                        all
                    },
                }
            }
        } else {
            proof {
                assert(passes_text_predicate(p.operator@, vals, tv));
            }
            true
        };
        proof {
            reveal_strlit("match");
            reveal_strlit("not-match");
            reveal_strlit("eq");
            reveal_strlit("not-eq");
            reveal_strlit("any-of");
            reveal_strlit("not-any-of");
            assert(vals == crate::var_set::names_of(predicates@[k as int].values@));
            assert(pv[k as int] == predicate_view(predicates@[k as int]));
            assert(tv == capture_texts(captures@, nv, pv[k as int].1, src));
            assert(tv.len() == texts@.len());
            if is_regex_op(p.operator@) {
                assert(p.operator@.len() == 5 || p.operator@.len() == 9);
                assert(p.operator@ != "eq"@ && p.operator@ != "not-eq"@);
                assert(p.operator@ != "any-of"@ && p.operator@ != "not-any-of"@);
                assert("not-match"@ != "match"@) by {
                    assert("not-match"@.len() != "match"@.len());
                }
                assert(regex_compiled(predicates@[k as int]));
            } else {
                assert(passes == passes_text_predicate(p.operator@, vals, tv));
            }
            assert(passes == passes_view(pv[k as int], tv));
            assert(values_present(pv[k as int]) || tv.len() == 0);
        }
        if !passes {
            proof {
                if value_missing(pv, captures@, nv, src) {
                    let w = choose|w: int|
                        0 <= w < pv.len() && !values_present(#[trigger] pv[w]) && capture_texts(captures@, nv, pv[w].1, src).len()
                            > 0 && forall|j: int| 0 <= j < w ==> passes_view(#[trigger] pv[j], capture_texts(captures@, nv, pv[j].1, src));
                    if w > k {
                        assert(passes_view(pv[k as int], capture_texts(captures@, nv, pv[k as int].1, src)));
                    }
                }
            }
            return Some(false);
        }
        k = k + 1;
    }
    proof {
        if value_missing(pv, captures@, nv, src) {
            let w = choose|w: int|
                0 <= w < pv.len() && !values_present(#[trigger] pv[w]) && capture_texts(captures@, nv, pv[w].1, src).len() > 0
                    && forall|j: int| 0 <= j < w ==> passes_view(#[trigger] pv[j], capture_texts(captures@, nv, pv[j].1, src));
            assert(values_present(pv[w]) || capture_texts(captures@, nv, pv[w].1, src).len() == 0);
        }
    }
    Some(true)
}

// ---------- choosing the finding sites ----------

/// Some output capture has the same span as `c`.
pub open spec fn seen_span(out: Seq<Capture>, c: Capture) -> bool {
    exists|k: int| 0 <= k < out.len() && (#[trigger] out[k]).start_byte == c.start_byte && out[k].end_byte == c.end_byte
}

/// Adds a site unless it is excluded or its span was already reported.
pub open spec fn add_site(out: Seq<Capture>, c: Capture, excluded: bool) -> Seq<Capture> {
    if excluded || seen_span(out, c) {
        out
    } else {
        out.push(c)
    }
}

/// Adds the first `n` captures of a match as sites.
pub open spec fn add_sites(out: Seq<Capture>, caps: Seq<Capture>, excluded: Seq<bool>, n: int) -> Seq<Capture>
    decreases n,
{
    if n <= 0 {
        out
    } else {
        add_site(add_sites(out, caps, excluded, n - 1), caps[n - 1], excluded[n - 1])
    }
}

/// Position of the first capture named `anchor` from `j` on, or -1.
pub open spec fn first_named(caps: Seq<Capture>, names: Seq<Seq<char>>, anchor: Seq<char>, j: int) -> int
    decreases caps.len() - j,
{
    if j < 0 || j >= caps.len() {
        -1
    } else if capture_name(caps[j], names) == Some(anchor) {
        j
    } else {
        first_named(caps, names, anchor, j + 1)
    }
}

proof fn lemma_first_named(caps: Seq<Capture>, names: Seq<Seq<char>>, anchor: Seq<char>, j: int)
    ensures
        first_named(caps, names, anchor, j) == -1 || (j <= first_named(caps, names, anchor, j) < caps.len()),
    decreases caps.len() - j,
{
    if 0 <= j < caps.len() && capture_name(caps[j], names) != Some(anchor) {
        lemma_first_named(caps, names, anchor, j + 1);
    }
}

/// The sites one match contributes: the anchored capture only, when there
/// is an anchor (a match without it contributes nothing), else every
/// capture.
pub open spec fn match_sites(out: Seq<Capture>, caps: Seq<Capture>, names: Seq<Seq<char>>, anchor: Option<Seq<char>>, excluded: Seq<bool>) -> Seq<Capture> {
    match anchor {
        Some(a) => {
            let j = first_named(caps, names, a, 0);
            if j < 0 {
                out
            } else {
                add_site(out, caps[j], excluded[j])
            }
        },
        None => add_sites(out, caps, excluded, caps.len() as int),
    }
}

/// The sites of the first `n` matches; a match whose predicates fail
/// contributes nothing.
pub open spec fn all_sites(
    matches: Seq<Seq<Capture>>,
    names: Seq<Seq<char>>,
    anchor: Option<Seq<char>>,
    passing: Seq<bool>,
    excluded: Seq<Seq<bool>>,
    n: int,
) -> Seq<Capture>
    decreases n,
{
    if n <= 0 {
        Seq::empty()
    } else {
        let prev = all_sites(matches, names, anchor, passing, excluded, n - 1);
        if passing[n - 1] {
            match_sites(prev, matches[n - 1], names, anchor, excluded[n - 1])
        } else {
            prev
        }
    }
}

/// Which matches pass the query's predicates.
pub open spec fn passing_of(
    ms: Seq<Seq<Capture>>,
    names: Seq<Seq<char>>,
    preds: Seq<(Seq<char>, Seq<char>, Seq<Seq<char>>)>,
    src: Seq<u8>,
) -> Seq<bool> {
    Seq::new(ms.len(), |i: int| all_pass(preds, ms[i], names, src))
}

/// The text of a capture, or nothing when its span does not fall on
/// character boundaries.
pub open spec fn capture_text(src: Seq<u8>, c: Capture) -> Seq<char> {
    match span_text(src, c.start_byte, c.end_byte) {
        Some(t) => t,
        None => Seq::empty(),
    }
}

/// Which captures the exclusion pattern drops: those whose text it matches.
pub open spec fn excluded_of(ms: Seq<Seq<Capture>>, not_regex: Option<Seq<char>>, src: Seq<u8>) -> Seq<Seq<bool>> {
    Seq::new(
        ms.len(),
        |i: int|
            Seq::new(
                ms[i].len(),
                |j: int|
                    match not_regex {
                        Some(p) => regex_matches(p, capture_text(src, ms[i][j])),
                        None => false,
                    },
            ),
    )
}

fn add_site_exec(out: &mut Vec<Capture>, c: Capture, excluded: bool)
    ensures
        final(out)@ == add_site(old(out)@, c, excluded),
{
    if excluded {
        return;
    }
    let mut k: usize = 0;
    while k < out.len()
        invariant
            k <= out@.len(),
            forall|j: int| 0 <= j < k ==> !((#[trigger] out@[j]).start_byte == c.start_byte && out@[j].end_byte == c.end_byte),
        decreases out@.len() - k,
    {
        if out[k].start_byte == c.start_byte && out[k].end_byte == c.end_byte {
            return;
        }
        k = k + 1;
    }
    out.push(c);
}

/// The option's text.
pub open spec fn opt_str(o: Option<&str>) -> Option<Seq<char>> {
    match o {
        Some(s) => Some(s@),
        None => None,
    }
}

/// Chooses the finding sites of a query's matches: `passing` says which
/// matches satisfy the predicates, `excluded` which captures the
/// exclusion pattern matches. Identical spans are reported once.
pub fn query_sites(
    matches: &Vec<Vec<Capture>>,
    names: &Vec<String>,
    anchor: Option<&str>,
    passing: &Vec<bool>,
    excluded: &Vec<Vec<bool>>,
) -> (r: Vec<Capture>)
    requires
        passing@.len() == matches@.len(),
        excluded@.len() == matches@.len(),
        forall|i: int| 0 <= i < matches@.len() ==> (#[trigger] excluded@[i])@.len() == matches@[i]@.len(),
    ensures
        r@ == all_sites(
            matches@.map_values(|m: Vec<Capture>| m@),
            crate::var_set::names_of(names@),
            opt_str(anchor),
            passing@,
            excluded@.map_values(|e: Vec<bool>| e@),
            matches@.len() as int,
        ),
{
    let ghost ms = matches@.map_values(|m: Vec<Capture>| m@);
    let ghost ex = excluded@.map_values(|e: Vec<bool>| e@);
    let ghost nv = crate::var_set::names_of(names@);
    let mut out: Vec<Capture> = Vec::new();
    let mut i: usize = 0;
    while i < matches.len()
        invariant
            i <= matches@.len(),
            passing@.len() == matches@.len(),
            excluded@.len() == matches@.len(),
            forall|i: int| 0 <= i < matches@.len() ==> (#[trigger] excluded@[i])@.len() == matches@[i]@.len(),
            ms == matches@.map_values(|m: Vec<Capture>| m@),
            ex == excluded@.map_values(|e: Vec<bool>| e@),
            nv == crate::var_set::names_of(names@),
            out@ == all_sites(ms, nv, opt_str(anchor), passing@, ex, i as int),
        decreases matches@.len() - i,
    {
        if passing[i] {
            let caps = &matches[i];
            let flags = &excluded[i];
            assert(ms[i as int] == caps@);
            assert(ex[i as int] == flags@);
            match anchor {
                Some(a) => {
                    let ghost pos = first_named(caps@, nv, a@, 0);
                    proof {
                        lemma_first_named(caps@, nv, a@, 0);
                    }
                    let mut j: usize = 0;
                    let mut found: Option<usize> = None;
                    while j < caps.len() && found.is_none()
                        invariant
                            j <= caps@.len(),
                            nv == crate::var_set::names_of(names@),
                            pos == first_named(caps@, nv, a@, 0),
                            found is None ==> first_named(caps@, nv, a@, j as int) == pos,
                            found matches Some(f) ==> f == pos,
                        decreases caps@.len() - j,
                    {
                        let c = caps[j];
                        let named = c.index < names.len() && str_eq(names[c.index].as_str(), a);
                        proof {
                            if c.index < names@.len() {
                                assert(nv[c.index as int] == names@[c.index as int]@);
                            }
                        }
                        if named {
                            found = Some(j);
                        }
                        j = j + 1;
                    }
                    match found {
                        Some(f) => add_site_exec(&mut out, caps[f], flags[f]),
                        None => {},
                    }
                },
                None => {
                    let ghost start = out@;
                    let mut j: usize = 0;
                    while j < caps.len()
                        invariant
                            j <= caps@.len(),
                            flags@.len() == caps@.len(),
                            out@ == add_sites(start, caps@, flags@, j as int),
                        decreases caps@.len() - j,
                    {
                        add_site_exec(&mut out, caps[j], flags[j]);
                        j = j + 1;
                    }
                },
            }
        }
        i = i + 1;
    }
    out
}

// ---------- running a query ----------

#[verifier::external_type_specification]
#[verifier::external_body]
pub struct ExTsQuery(tree_sitter::Query);

/// Whether tree-sitter accepts `query` for the grammar of `language`.
pub uninterp spec fn query_compiles(language: Language, query: Seq<char>) -> bool;

/// `tree_sitter::Query::new` with the grammar of `language`; the error is
/// rendered as text. Whether it succeeds depends on the grammar and the
/// query text alone; the error text is not stated.
#[verifier::external_body]
fn ts_query_new(language: Language, query: &str) -> (r: Result<tree_sitter::Query, String>)
    requires
        language != Language::Unknown,
    ensures
        r is Ok <==> query_compiles(language, query@),
{
    let grammar = match language {
        Language::Java => tree_sitter_java::LANGUAGE,
        Language::JavaScript => tree_sitter_javascript::LANGUAGE,
        Language::TypeScript => tree_sitter_typescript::LANGUAGE_TYPESCRIPT,
        Language::Python => tree_sitter_python::LANGUAGE,
        Language::Go | Language::Unknown => tree_sitter_go::LANGUAGE,
    };
    tree_sitter::Query::new(&grammar.into(), query).map_err(|error| error.to_string())
}

/// A tree-sitter query together with the grammar and text it was compiled
/// from; only `execute_query` makes one.
pub struct CompiledQuery {
    query: tree_sitter::Query,
    language: Language,
    text: String,
}

/// The capture names, in index order, of the query `query` compiled for
/// `language`.
pub uninterp spec fn capture_names_of(language: Language, query: Seq<char>) -> Seq<Seq<char>>;

/// The matches, each as its captures in order, of the query `query`
/// compiled for `language`, run over the whole tree that parsing `text`
/// with the grammar of `tree_language` gives.
pub uninterp spec fn query_matches(language: Language, query: Seq<char>, tree_language: Language, text: Seq<char>) -> Seq<Seq<Capture>>;

/// `tree_sitter::Query::capture_names`, as owned strings. They depend on
/// the grammar and the query text alone.
#[verifier::external_body]
fn ts_capture_names(query: &CompiledQuery) -> (r: Vec<String>)
    ensures
        crate::var_set::names_of(r@) == capture_names_of(query.language, query.text@),
{
    query.query.capture_names().iter().map(|name| name.to_string()).collect()
}

/// `tree_sitter::QueryCursor::matches` over the whole tree, each match as
/// its captures in order. The tree is run against the very text it was
/// parsed from (a `ParsedSource` is only made that way), so every node range
/// tree-sitter slices for a text predicate lies inside that text. The
/// result depends on the query's grammar and text and on the parsed
/// grammar and text alone.
#[verifier::external_body]
fn ts_query_matches(query: &CompiledQuery, parsed: &crate::syntax::ParsedSource) -> (r: Vec<Vec<Capture>>)
    ensures
        r@.map_values(|m: Vec<Capture>| m@) == query_matches(
            query.language,
            query.text@,
            parsed.language_view(),
            parsed.text_view(),
        ),
{
    let mut cursor = tree_sitter::QueryCursor::new();
    let mut matches = cursor.matches(&query.query, parsed.tree.root_node(), parsed.text.as_bytes());
    let mut out = Vec::new();
    while let Some(m) = matches.next() {
        out.push(m.captures.iter().map(|c| {
            let (start, end) = (c.node.start_position(), c.node.end_position());
            Capture { index: c.index as usize, start_byte: c.node.start_byte(), end_byte: c.node.end_byte(),
                start_row: start.row, start_column: start.column, end_row: end.row, end_column: end.column }
        }).collect());
    }
    out
}

/// The message when a query rule declares no language.
pub open spec fn no_language_message() -> Seq<char> {
    "query rules require a declared language"@
}

/// The sites a query gives over a tree: the query (its predicates split
/// off) is run over the tree-sitter tree when the tree was parsed from
/// `source`, matches failing a predicate are dropped, and the sites are
/// picked from the rest; a tree without a parsed tree of `source` gives
/// none.
pub open spec fn run_sites(
    tree: crate::syntax::SyntaxTree,
    source: Seq<char>,
    query_source: Seq<char>,
    anchor: Option<Seq<char>>,
    not_regex: Option<Seq<char>>,
    language: Language,
) -> Seq<Capture> {
    match tree.raw {
        Some(p) => if p.text_view() == source {
            let clean = split_spec(query_source, 0).0;
            let ms = query_matches(language, clean, p.language_view(), source);
            let names = capture_names_of(language, clean);
            let src = vstd::utf8::encode_utf8(source);
            all_sites(
                ms,
                names,
                anchor,
                passing_of(ms, names, split_spec(query_source, 0).1, src),
                excluded_of(ms, not_regex, src),
                ms.len() as int,
            )
        } else {
            Seq::empty()
        },
        None => Seq::empty(),
    }
}

/// Wherever the query runs over the tree (a supported language, a query
/// and a not-regex that compile, a tree parsed from `source`), no match
/// reaches an `eq`/`not-eq` predicate without a value while that
/// predicate's capture has text.
pub open spec fn values_suffice(
    tree: crate::syntax::SyntaxTree,
    source: Seq<char>,
    query_source: Seq<char>,
    not_regex: Option<Seq<char>>,
    language: Language,
) -> bool {
    match tree.raw {
        Some(p) => {
            let clean = split_spec(query_source, 0).0;
            let ms = query_matches(language, clean, p.language_view(), source);
            let names = capture_names_of(language, clean);
            (language != Language::Unknown && p.text_view() == source && query_compiles(language, clean) && (
            not_regex matches Some(r) ==> regex_accepts(r))) ==> forall|i: int|
                0 <= i < ms.len() ==> !value_missing(
                    split_spec(query_source, 0).1,
                    #[trigger] ms[i],
                    names,
                    vstd::utf8::encode_utf8(source),
                )
        },
        None => true,
    }
}

/// Whether `values_suffice` holds: runs the query over the tree as
/// `execute_query` does and evaluates the predicates of every match.
pub fn query_values_suffice(
    tree: &crate::syntax::SyntaxTree,
    source: &str,
    query_source: &str,
    not_regex: Option<&str>,
    language: Language,
) -> (r: bool)
    requires
        predicates_close(query_source@, 0),
    ensures
        r == values_suffice(*tree, source@, query_source@, opt_str(not_regex), language),
{
    if language == Language::Unknown {
        return true;
    }
    let raw = match &tree.raw {
        Some(t) if str_eq(t.text(), source) => t,
        _ => {
            return true;
        },
    };
    let (clean, predicates) = split_predicates(query_source);
    let query = match ts_query_new(language, clean.as_str()) {
        Ok(q) => CompiledQuery { query: q, language, text: clean },
        Err(_) => {
            return true;
        },
    };
    match not_regex {
        Some(p) => match regex_new(p) {
            Ok(_) => {},
            Err(_) => {
                return true;
            },
        },
        None => {},
    }
    let names = ts_capture_names(&query);
    let matches = ts_query_matches(&query, raw);
    let ghost ms = matches@.map_values(|m: Vec<Capture>| m@);
    let ghost nv = crate::var_set::names_of(names@);
    let ghost src = crate::text::sbytes(source);
    let ghost preds = split_spec(query_source@, 0).1;
    proof {
        assert(tree.raw == Some(*raw));
        assert(raw.text_view() == source@);
        assert(src == vstd::utf8::encode_utf8(source@));
        assert(ms == query_matches(language, split_spec(query_source@, 0).0, raw.language_view(), source@));
    }
    let mut i: usize = 0;
    while i < matches.len()
        invariant
            i <= matches@.len(),
            ms == matches@.map_values(|m: Vec<Capture>| m@),
            nv == crate::var_set::names_of(names@),
            src == crate::text::sbytes(source),
            predicates_view(predicates@) == preds,
            forall|k: int| 0 <= k < predicates@.len() ==> regex_compiled(#[trigger] predicates@[k]),
            forall|m: int| 0 <= m < i ==> !value_missing(preds, #[trigger] ms[m], nv, src),
            language != Language::Unknown,
            tree.raw == Some(*raw),
            raw.text_view() == source@,
            query_compiles(language, split_spec(query_source@, 0).0),
            nv == capture_names_of(language, split_spec(query_source@, 0).0),
            opt_str(not_regex) matches Some(r) ==> regex_accepts(r),
            ms == query_matches(language, split_spec(query_source@, 0).0, raw.language_view(), source@),
            src == vstd::utf8::encode_utf8(source@),
            preds == split_spec(query_source@, 0).1,
        decreases matches@.len() - i,
    {
        assert(ms[i as int] == matches@[i as int]@);
        if predicates_match(&matches[i], &names, &predicates, source).is_none() {
            proof {
                assert(value_missing(preds, ms[i as int], nv, src));
                assert(!(forall|m: int| 0 <= m < ms.len() ==> !value_missing(preds, #[trigger] ms[m], nv, src)));
            }
            return false;
        }
        i = i + 1;
    }
    true
}

/// Runs a tree-sitter query over a parsed tree and returns the finding
/// sites: with `anchor`, each match contributes its anchored capture;
/// without, every capture. Sites whose text matches `not_regex` are
/// dropped, and identical spans are reported once.
pub fn execute_query(
    tree: &crate::syntax::SyntaxTree,
    source: &str,
    query_source: &str,
    anchor: Option<&str>,
    not_regex: Option<&str>,
    language: Option<Language>,
) -> (r: Result<Vec<Capture>, String>)
    requires
        predicates_close(query_source@, 0),
        language matches Some(l) ==> values_suffice(*tree, source@, query_source@, opt_str(not_regex), l),
    ensures
        language is None ==> (r matches Err(m) && m@ == no_language_message()),
        language == Some(Language::Unknown) ==> (r matches Err(m) && m@ == "unsupported language"@),
        language matches Some(l) ==> (l != Language::Unknown ==> (r is Err <==> (!query_compiles(
            l,
            split_spec(query_source@, 0).0,
        ) || (not_regex matches Some(p) && !regex_accepts(p@))))),
        language matches Some(l) ==> (l != Language::Unknown && query_compiles(l, split_spec(query_source@, 0).0) && (
        not_regex matches Some(p) && !regex_accepts(p@)) ==> (r matches Err(m) && m@.len() >= 19 && m@.subrange(0, 19)
            == "invalid not-regex: "@)),
        r matches Ok(sites) ==> (language matches Some(l) && sites@ == run_sites(
            *tree,
            source@,
            query_source@,
            opt_str(anchor),
            opt_str(not_regex),
            l,
        )),
{
    let language = match language {
        None => {
            return Err("query rules require a declared language".to_string());
        },
        Some(l) => l,
    };
    if language == Language::Unknown {
        return Err("unsupported language".to_string());
    }
    let (clean, predicates) = split_predicates(query_source);
    let query = match ts_query_new(language, clean.as_str()) {
        Ok(q) => CompiledQuery { query: q, language, text: clean },
        Err(e) => {
            return Err(e);
        },
    };
    let not_regex_text = not_regex;
    let not_regex = match not_regex_text {
        Some(p) => match regex_new(p) {
            Ok(re) => Some(re),
            Err(e) => {
                let mut message = "invalid not-regex: ".to_string();
                crate::text::push_str(&mut message, e.as_str());
                proof {
                    reveal_strlit("invalid not-regex: ");
                    assert(message@.subrange(0, 19) =~= "invalid not-regex: "@);
                }
                return Err(message);
            },
        },
        None => None,
    };
    let raw = match &tree.raw {
        Some(t) if str_eq(t.text(), source) => t,
        _ => {
            let none: Vec<Capture> = Vec::new();
            assert(none@ =~= run_sites(*tree, source@, query_source@, opt_str(anchor), opt_str(not_regex_text), language));
            return Ok(none);
        },
    };
    let names = ts_capture_names(&query);
    let matches = ts_query_matches(&query, raw);
    let ghost ms = matches@.map_values(|m: Vec<Capture>| m@);
    let ghost nv = crate::var_set::names_of(names@);
    let ghost src = crate::text::sbytes(source);
    let ghost preds = split_spec(query_source@, 0).1;
    let ghost want_pass = passing_of(ms, nv, preds, src);
    let ghost want_ex = excluded_of(ms, opt_str(not_regex_text), src);
    proof {
        assert(tree.raw == Some(*raw));
        assert(raw.text_view() == source@);
        assert(src == vstd::utf8::encode_utf8(source@));
        assert(ms == query_matches(language, split_spec(query_source@, 0).0, raw.language_view(), source@));
    }
    let mut passing: Vec<bool> = Vec::new();
    let mut excluded: Vec<Vec<bool>> = Vec::new();
    let mut i: usize = 0;
    while i < matches.len()
        invariant
            i <= matches@.len(),
            ms == matches@.map_values(|m: Vec<Capture>| m@),
            nv == crate::var_set::names_of(names@),
            src == crate::text::sbytes(source),
            want_pass == passing_of(ms, nv, preds, src),
            want_ex == excluded_of(ms, opt_str(not_regex_text), src),
            passing@.len() == i,
            excluded@.len() == i,
            forall|m: int| 0 <= m < i ==> passing@[m] == want_pass[m],
            forall|m: int| 0 <= m < i ==> (#[trigger] excluded@[m])@ == want_ex[m],
            predicates_view(predicates@) == split_spec(query_source@, 0).1,
            preds == split_spec(query_source@, 0).1,
            forall|k: int| 0 <= k < predicates@.len() ==> regex_compiled(#[trigger] predicates@[k]),
            forall|m: int| 0 <= m < ms.len() ==> !value_missing(preds, #[trigger] ms[m], nv, src),
            match not_regex {
                Some(re) => opt_str(not_regex_text) == Some(re.pattern()),
                None => opt_str(not_regex_text) is None,
            },
        decreases matches@.len() - i,
    {
        assert(ms[i as int] == matches@[i as int]@);
        let pass = match predicates_match(&matches[i], &names, &predicates, source) {
            Some(b) => b,
            None => {
                proof {
                    assert(!value_missing(preds, ms[i as int], nv, src));
                }
                false
            },
        };
        passing.push(pass);
        let caps = &matches[i];
        let mut flags: Vec<bool> = Vec::new();
        let mut j: usize = 0;
        while j < caps.len()
            invariant
                j <= caps@.len(),
                flags@.len() == j,
                caps@ == ms[i as int],
                i < ms.len(),
                src == crate::text::sbytes(source),
                want_ex == excluded_of(ms, opt_str(not_regex_text), src),
                forall|m: int| 0 <= m < j ==> flags@[m] == want_ex[i as int][m],
                match not_regex {
                    Some(re) => opt_str(not_regex_text) == Some(re.pattern()),
                    None => opt_str(not_regex_text) is None,
                },
            decreases caps@.len() - j,
        {
            let found = text_of(source, caps[j].start_byte, caps[j].end_byte);
            let text = match found {
                Some(t) => t,
                None => "",
            };
            proof {
                vstd::utf8::encode_utf8_decode_utf8(text@);
                if found is None {
                    reveal_strlit("");
                }
                assert(text@ == capture_text(src, caps@[j as int]));
            }
            let flag = match &not_regex {
                Some(re) => regex_is_match(re, text),
                None => false,
            };
            flags.push(flag);
            j = j + 1;
        }
        assert(flags@ =~= want_ex[i as int]);
        excluded.push(flags);
        i = i + 1;
    }
    let sites = query_sites(&matches, &names, anchor, &passing, &excluded);
    proof {
        let ex = excluded@.map_values(|e: Vec<bool>| e@);
        assert(passing@ =~= want_pass);
        assert(ex =~= want_ex);
        assert(sites@ == all_sites(ms, nv, opt_str(anchor), want_pass, want_ex, ms.len() as int));
        assert(sites@ == run_sites(*tree, source@, query_source@, opt_str(anchor), opt_str(not_regex_text), language));
    }
    Ok(sites)
}

} // verus!
