//! Text-level building blocks of the taint engine: identifier matching that
//! ignores string data, call-expression parsing and source-line extraction.

use vstd::prelude::*;
use vstd::string::*;
use vstd::utf8::*;
use crate::text::{
    chars_of, find_chars_in, first_from, is_first_occurrence_from, lemma_first_from,
    lemma_first_from_bounds, no_occurrence_from, occurs_at, push_char, sbytes, text_of,
    trim_chars, trim_string, rfind_byte, find_byte_from,
};

pub use crate::taint_walk::{analyze, analyze_java, analyze_with_graph};

verus! {

/// Characters that may appear in an identifier.
pub open spec fn is_ident_char(c: char) -> bool {
    c == '_' || ('0' <= c && c <= '9') || ('a' <= c && c <= 'z') || ('A' <= c && c <= 'Z')
}

/// Whether `character` can be part of an identifier (`_` or ASCII alphanumeric).
pub fn is_identifier_character(character: char) -> (r: bool)
    ensures
        r == is_ident_char(character),
{
    character == '_' || ('0' <= character && character <= '9') || ('a' <= character && character
        <= 'z') || ('A' <= character && character <= 'Z')
}

/// The occurrence of `id` at `p` is not glued to identifier characters.
pub open spec fn bounded_at(t: Seq<char>, id: Seq<char>, p: int) -> bool {
    &&& (p == 0 || !is_ident_char(t[p - 1]))
    &&& (p + id.len() >= t.len() || !is_ident_char(t[p + id.len()]))
}

/// The scan of `contains_identifier` from `offset`: take the next occurrence,
/// accept it when it stands alone as a word, otherwise resume after it.
pub open spec fn ident_scan(t: Seq<char>, id: Seq<char>, offset: int) -> bool
    decreases t.len() - offset,
{
    if id.len() == 0 || offset < 0 {
        false
    } else {
        let p = first_from(t, id, offset);
        proof {
            lemma_first_from_bounds(t, id, offset);
        }
        if p < 0 {
            false
        } else if bounded_at(t, id, p) {
            true
        } else if p + id.len() >= t.len() {
            false
        } else {
            ident_scan(t, id, p + id.len())
        }
    }
}

/// Whether `identifier` occurs in `text` as a whole word.
pub open spec fn spec_contains_identifier(text: Seq<char>, identifier: Seq<char>) -> bool {
    ident_scan(text, identifier, 0)
}

/// Whether `identifier` occurs in `text` delimited by non-identifier
/// characters (or the text's ends).
pub fn contains_identifier(text: &str, identifier: &str) -> (r: bool)
    ensures
        r == spec_contains_identifier(text@, identifier@),
{
    let tc = chars_of(text);
    let ic = chars_of(identifier);
    if ic.len() == 0 {
        return false;
    }
    let n = tc.len();
    let mut offset: usize = 0;
    proof {
        assert(tc@.subrange(0, n as int) =~= tc@);
    }
    while offset <= n
        invariant
            tc@ == text@,
            ic@ == identifier@,
            ic@.len() > 0,
            n == tc@.len(),
            ident_scan(tc@, ic@, offset as int) == spec_contains_identifier(text@, identifier@),
            tc@.subrange(0, n as int) == tc@,
        decreases n + 1 - offset,
    {
        proof {
            lemma_first_from(tc@, ic@, offset as int);
        }
        match find_chars_in(tc.as_slice(), ic.as_slice(), offset, n) {
            None => {
                return false;
            },
            Some(p) => {
                let end = p + ic.len();
                let before_ok = p == 0 || !is_identifier_character(tc[p - 1]);
                let after_ok = end >= n || !is_identifier_character(tc[end]);
                if before_ok && after_ok {
                    return true;
                }
                if end >= n {
                    return false;
                }
                offset = end;
            },
        }
    }
    false
}

/// Where a quoted literal opened before `j` ends: just past its closing
/// quote `q`, or at the end of the text; a backslash escapes the next
/// character.
pub open spec fn quote_end(s: Seq<char>, j: int, q: char) -> int
    decreases s.len() - j,
{
    if j < 0 || j >= s.len() {
        s.len() as int
    } else if s[j] == '\\' {
        if j + 1 >= s.len() {
            s.len() as int
        } else {
            quote_end(s, j + 2, q)
        }
    } else if s[j] == q {
        j + 1
    } else {
        quote_end(s, j + 1, q)
    }
}

/// A template literal read from `j`: what it keeps (the text of `${..}`
/// interpolations, without the `${`) and where it ends (past the closing
/// backtick, or at the end of the text).
pub open spec fn template_scan(s: Seq<char>, j: int, interpolating: bool, depth: nat) -> (Seq<char>, int)
    decreases s.len() - j,
{
    if j < 0 || j >= s.len() {
        (Seq::empty(), s.len() as int)
    } else {
        let c = s[j];
        if interpolating {
            let next = if c == '{' {
                (true, depth + 1)
            } else if c == '}' {
                if depth <= 1 {
                    (false, 0nat)
                } else {
                    (true, (depth - 1) as nat)
                }
            } else {
                (true, depth)
            };
            let rest = template_scan(s, j + 1, next.0, next.1);
            (seq![c] + rest.0, rest.1)
        } else if c == '\\' {
            if j + 1 >= s.len() {
                (Seq::empty(), s.len() as int)
            } else {
                template_scan(s, j + 2, false, depth)
            }
        } else if c == '$' && j + 1 < s.len() && s[j + 1] == '{' {
            template_scan(s, j + 2, true, 1)
        } else if c == '`' {
            (Seq::empty(), j + 1)
        } else {
            template_scan(s, j + 1, false, depth)
        }
    }
}

/// The text from position `i` with string-literal contents blanked: a quoted
/// literal becomes two spaces; a template literal becomes a space, the text
/// of its interpolations, and a space.
pub open spec fn strip_from(s: Seq<char>, i: int) -> Seq<char>
    decreases s.len() - i,
{
    if i < 0 || i >= s.len() {
        Seq::empty()
    } else {
        let c = s[i];
        if c == '"' || c == '\'' {
            let e = quote_end(s, i + 1, c);
            proof {
                lemma_quote_end_bounds(s, i + 1, c);
            }
            seq![' ', ' '] + strip_from(s, e)
        } else if c == '`' {
            let t = template_scan(s, i + 1, false, 0);
            proof {
                lemma_template_bounds(s, i + 1, false, 0);
            }
            seq![' '] + t.0 + seq![' '] + strip_from(s, t.1)
        } else {
            seq![c] + strip_from(s, i + 1)
        }
    }
}

pub proof fn lemma_quote_end_bounds(s: Seq<char>, j: int, q: char)
    ensures
        0 <= j <= s.len() ==> quote_end(s, j, q) >= j,
        quote_end(s, j, q) <= s.len(),
        j >= 0 && j < s.len() ==> quote_end(s, j, q) > j,
    decreases s.len() - j,
{
    if j < 0 || j >= s.len() {
    } else if s[j] == '\\' {
        if j + 1 < s.len() {
            lemma_quote_end_bounds(s, j + 2, q);
        }
    } else if s[j] != q {
        lemma_quote_end_bounds(s, j + 1, q);
    }
}

pub proof fn lemma_template_bounds(s: Seq<char>, j: int, interpolating: bool, depth: nat)
    ensures
        0 <= j <= s.len() ==> template_scan(s, j, interpolating, depth).1 >= j,
        template_scan(s, j, interpolating, depth).1 <= s.len(),
    decreases s.len() - j,
{
    if j < 0 || j >= s.len() {
    } else {
        let c = s[j];
        if interpolating {
            let next = if c == '{' {
                (true, depth + 1)
            } else if c == '}' {
                if depth <= 1 {
                    (false, 0nat)
                } else {
                    (true, (depth - 1) as nat)
                }
            } else {
                (true, depth)
            };
            lemma_template_bounds(s, j + 1, next.0, next.1);
        } else if c == '\\' {
            if j + 1 < s.len() {
                lemma_template_bounds(s, j + 2, false, depth);
            }
        } else if c == '$' && j + 1 < s.len() && s[j + 1] == '{' {
            lemma_template_bounds(s, j + 2, true, 1);
        } else if c == '`' {
        } else {
            lemma_template_bounds(s, j + 1, false, depth);
        }
    }
}

/// The text with string-literal contents blanked.
pub open spec fn spec_strip_string_literals(s: Seq<char>) -> Seq<char> {
    strip_from(s, 0)
}

fn quote_end_exec(cs: &[char], from: usize, q: char) -> (r: usize)
    requires
        from <= cs@.len(),
    ensures
        r == quote_end(cs@, from as int, q),
{
    let n = cs.len();
    let mut j = from;
    while j < n
        invariant
            from <= j <= n == cs@.len(),
            quote_end(cs@, j as int, q) == quote_end(cs@, from as int, q),
        decreases n - j,
    {
        if cs[j] == '\\' {
            if j + 1 >= n {
                return n;
            }
            j = j + 2;
        } else if cs[j] == q {
            return j + 1;
        } else {
            j = j + 1;
        }
    }
    n
}

/// Scans a template literal from `from`, appending what it keeps to `out`.
fn template_exec(cs: &[char], from: usize, out: &mut String) -> (r: usize)
    requires
        from <= cs@.len(),
    ensures
        final(out)@ == old(out)@ + template_scan(cs@, from as int, false, 0).0,
        r == template_scan(cs@, from as int, false, 0).1,
{
    let ghost whole = template_scan(cs@, from as int, false, 0);
    let ghost start = out@;
    let n = cs.len();
    let mut j = from;
    let mut interpolating = false;
    let mut depth: usize = 0;
    proof {
        assert(start + Seq::<char>::empty() =~= start);
    }
    while j < n
        invariant
            from <= j <= n == cs@.len(),
            whole == template_scan(cs@, from as int, false, 0),
            start == old(out)@,
            depth <= j,
            out@ + template_scan(cs@, j as int, interpolating, depth as nat).0 == start + whole.0,
            template_scan(cs@, j as int, interpolating, depth as nat).1 == whole.1,
        decreases n - j,
    {
        let c = cs[j];
        let ghost here = template_scan(cs@, j as int, interpolating, depth as nat);
        if interpolating {
            let ghost before = out@;
            push_char(out, c);
            if c == '{' {
                depth = depth + 1;
            } else if c == '}' {
                if depth <= 1 {
                    interpolating = false;
                    depth = 0;
                } else {
                    depth = depth - 1;
                }
            }
            j = j + 1;
            proof {
                let rest = template_scan(cs@, j as int, interpolating, depth as nat);
                assert(here.0 == seq![c] + rest.0);
                assert(out@ + rest.0 =~= before + here.0);
            }
        } else if c == '\\' {
            if j + 1 >= n {
                proof {
                    assert(!interpolating);
                    assert(cs@[j as int] == '\\');
                    assert(here == (Seq::<char>::empty(), cs@.len() as int));
                    assert(out@ + Seq::<char>::empty() =~= out@);
                }
                return n;
            }
            j = j + 2;
        } else if c == '$' && j + 1 < n && cs[j + 1] == '{' {
            interpolating = true;
            depth = 1;
            j = j + 2;
        } else if c == '`' {
            proof {
                assert(out@ + Seq::<char>::empty() =~= out@);
            }
            return j + 1;
        } else {
            j = j + 1;
        }
    }
    proof {
        assert(out@ + Seq::<char>::empty() =~= out@);
    }
    n
}

/// Replaces string-literal contents with spaces so that words inside string
/// data are never mistaken for variable references; template-literal `${..}`
/// interpolations are kept, since they reference real variables.
pub fn strip_string_literals(text: &str) -> (r: String)
    ensures
        r@ == spec_strip_string_literals(text@),
{
    let cs = chars_of(text);
    let n = cs.len();
    let mut out = String::new();
    let mut i: usize = 0;
    proof {
        assert(out@ + strip_from(cs@, 0) =~= strip_from(cs@, 0));
    }
    while i < n
        invariant
            i <= n == cs@.len(),
            cs@ == text@,
            out@ + strip_from(cs@, i as int) == strip_from(cs@, 0),
        decreases n - i,
    {
        let c = cs[i];
        let ghost before = out@;
        if c == '"' || c == '\'' {
            push_char(&mut out, ' ');
            push_char(&mut out, ' ');
            let e = quote_end_exec(cs.as_slice(), i + 1, c);
            proof {
                lemma_quote_end_bounds(cs@, i + 1, c);
                assert(out@ + strip_from(cs@, e as int) =~= before + (seq![' ', ' '] + strip_from(cs@, e as int)));
            }
            i = e;
        } else if c == '`' {
            push_char(&mut out, ' ');
            let e = template_exec(cs.as_slice(), i + 1, &mut out);
            push_char(&mut out, ' ');
            proof {
                lemma_template_bounds(cs@, i + 1, false, 0);
                let t = template_scan(cs@, i + 1, false, 0);
                assert(out@ + strip_from(cs@, e as int) =~= before + (seq![' '] + t.0 + seq![' '] + strip_from(cs@, t.1)));
            }
            i = e;
        } else {
            push_char(&mut out, c);
            proof {
                assert(out@ + strip_from(cs@, i + 1) =~= before + (seq![c] + strip_from(cs@, i + 1)));
            }
            i = i + 1;
        }
    }
    proof {
        assert(out@ + Seq::<char>::empty() =~= out@);
    }
    out
}

/// Whether `text` mentions one of `tainted_vars` as an identifier, outside
/// string literals.
pub open spec fn spec_is_tainted_text(text: Seq<char>, tainted_vars: Seq<Seq<char>>) -> bool {
    exists|k: int|
        0 <= k < tainted_vars.len() && spec_contains_identifier(
            spec_strip_string_literals(text),
            #[trigger] tainted_vars[k],
        )
}

/// Whether `text` references one of the tainted variables.
pub fn is_tainted_text(text: &str, tainted_vars: &[String]) -> (r: bool)
    ensures
        r == spec_is_tainted_text(text@, tainted_vars@.map_values(|v: String| v@)),
{
    let ghost vs = tainted_vars@.map_values(|v: String| v@);
    if tainted_vars.len() == 0 {
        return false;
    }
    let stripped = strip_string_literals(text);
    let mut k: usize = 0;
    while k < tainted_vars.len()
        invariant
            k <= tainted_vars@.len(),
            vs == tainted_vars@.map_values(|v: String| v@),
            stripped@ == spec_strip_string_literals(text@),
            forall|m: int| 0 <= m < k ==> !spec_contains_identifier(stripped@, #[trigger] vs[m]),
        decreases tainted_vars@.len() - k,
    {
        if contains_identifier(stripped.as_str(), tainted_vars[k].as_str()) {
            assert(vs[k as int] == tainted_vars@[k as int]@);
            return true;
        }
        k = k + 1;
    }
    false
}

/// Every character of `id` is an identifier character.
pub open spec fn all_ident_chars(id: Seq<char>) -> bool {
    forall|k: int| 0 <= k < id.len() ==> is_ident_char(#[trigger] id[k])
}

/// For a true identifier, the scan finds a match exactly when some
/// occurrence at or after `offset` stands alone as a word.
pub proof fn lemma_identifier_scan_is_word_match(t: Seq<char>, id: Seq<char>, offset: int)
    requires
        id.len() > 0,
        all_ident_chars(id),
        0 <= offset,
    ensures
        ident_scan(t, id, offset) <==> exists|q: int|
            offset <= q && occurs_at(t, id, q) && #[trigger] bounded_at(t, id, q),
    decreases t.len() - offset,
{
    lemma_first_from_bounds(t, id, offset);
    let p = first_from(t, id, offset);
    if exists|q: int| offset <= q && occurs_at(t, id, q) && #[trigger] bounded_at(t, id, q) {
        let q = choose|q: int| offset <= q && occurs_at(t, id, q) && #[trigger] bounded_at(t, id, q);
        crate::text::lemma_first_from_is_first(t, id, offset, q);
        if !bounded_at(t, id, p) {
            assert(q != p);
            if q < p + id.len() {
                assert(t.subrange(p, p + id.len())[q - 1 - p] == t[q - 1]);
                assert(is_ident_char(id[q - 1 - p]));
                assert(false);
            }
            if p + id.len() < t.len() {
                lemma_identifier_scan_is_word_match(t, id, p + id.len());
            }
        }
    } else {
        if p >= 0 {
            assert(!bounded_at(t, id, p));
            if p + id.len() < t.len() {
                lemma_identifier_scan_is_word_match(t, id, p + id.len());
            }
        }
    }
}

/// Whether `identifier` occurs in `text` as a whole word, for a real
/// identifier: some occurrence is not glued to identifier characters.
pub proof fn lemma_contains_identifier_is_word_match(text: Seq<char>, identifier: Seq<char>)
    requires
        identifier.len() > 0,
        all_ident_chars(identifier),
    ensures
        spec_contains_identifier(text, identifier) <==> exists|q: int|
            occurs_at(text, identifier, q) && #[trigger] bounded_at(text, identifier, q),
{
    lemma_identifier_scan_is_word_match(text, identifier, 0);
    if exists|q: int| occurs_at(text, identifier, q) && #[trigger] bounded_at(text, identifier, q) {
        let q = choose|q: int| occurs_at(text, identifier, q) && #[trigger] bounded_at(text, identifier, q);
        assert(0 <= q && occurs_at(text, identifier, q) && bounded_at(text, identifier, q));
    }
}

/// Characters of a callee path: ASCII alphanumerics, `_` and `.`.
pub open spec fn is_name_char(c: char) -> bool {
    is_ident_char(c) || c == '.'
}

/// Start of the run of callee-path characters that ends at `end`.
pub open spec fn name_start(s: Seq<char>, end: int) -> int
    decreases end,
{
    if end <= 0 || end > s.len() {
        0
    } else if !is_name_char(s[end - 1]) {
        end
    } else {
        name_start(s, end - 1)
    }
}

/// Position just after the last `.` in `s[a..b]`, or `a` when there is none.
pub open spec fn after_last_dot(s: Seq<char>, a: int, b: int) -> int
    decreases b - a,
{
    if b <= a || b > s.len() {
        a
    } else if s[b - 1] == '.' {
        b
    } else {
        after_last_dot(s, a, b - 1)
    }
}

/// Appends an argument text, trimmed, unless it is blank.
pub open spec fn push_arg(acc: Seq<Seq<char>>, current: Seq<char>) -> Seq<Seq<char>> {
    if trim_chars(current).len() == 0 {
        acc
    } else {
        acc.push(trim_chars(current))
    }
}

/// The top-level arguments from position `j`, inside an argument list whose
/// current argument began at `seg`; `None` when the list is not closed.
pub open spec fn args_scan(s: Seq<char>, j: int, depth: nat, seg: int, acc: Seq<Seq<char>>) -> Option<
    Seq<Seq<char>>,
>
    decreases s.len() - j,
{
    if j < 0 || j >= s.len() {
        None
    } else {
        let c = s[j];
        if c == '(' {
            args_scan(s, j + 1, depth + 1, seg, acc)
        } else if c == ')' {
            if depth == 0 {
                Some(push_arg(acc, s.subrange(seg, j)))
            } else {
                args_scan(s, j + 1, (depth - 1) as nat, seg, acc)
            }
        } else if c == ',' && depth == 0 {
            args_scan(s, j + 1, 0, j + 1, push_arg(acc, s.subrange(seg, j)))
        } else {
            args_scan(s, j + 1, depth, seg, acc)
        }
    }
}

/// `name(args...)` read from an expression text: the last identifier of the
/// callee path and the trimmed top-level argument texts.
pub open spec fn spec_parse_call(s: Seq<char>) -> Option<(Seq<char>, Seq<Seq<char>>)> {
    let open = first_from(s, seq!['('], 0);
    if open < 0 {
        None
    } else {
        let name = trim_chars(s.subrange(after_last_dot(s, name_start(s, open), open), open));
        if name.len() == 0 {
            None
        } else {
            match args_scan(s, open + 1, 0, open + 1, Seq::empty()) {
                Some(args) => Some((name, args)),
                None => None,
            }
        }
    }
}

proof fn lemma_args_scan_shorter(s: Seq<char>, j: int, depth: nat, seg: int, acc: Seq<Seq<char>>)
    requires
        1 <= seg <= j,
        forall|k: int| 0 <= k < acc.len() ==> (#[trigger] acc[k]).len() < s.len(),
    ensures
        args_scan(s, j, depth, seg, acc) matches Some(out) ==> forall|k: int| 0 <= k < out.len() ==> (#[trigger] out[k]).len() < s.len(),
    decreases s.len() - j,
{
    if j < 0 || j >= s.len() {
    } else {
        let c = s[j];
        crate::text::lemma_trim_len(s.subrange(seg, j));
        let pushed = push_arg(acc, s.subrange(seg, j));
        assert forall|k: int| 0 <= k < pushed.len() implies (#[trigger] pushed[k]).len() < s.len() by {
            if k < acc.len() {
                assert(pushed[k] == acc[k]);
            }
        }
        if c == '(' {
            lemma_args_scan_shorter(s, j + 1, depth + 1, seg, acc);
        } else if c == ')' {
            if depth != 0 {
                lemma_args_scan_shorter(s, j + 1, (depth - 1) as nat, seg, acc);
            }
        } else if c == ',' && depth == 0 {
            lemma_args_scan_shorter(s, j + 1, 0, j + 1, pushed);
        } else {
            lemma_args_scan_shorter(s, j + 1, depth, seg, acc);
        }
    }
}

/// Every argument read by `parse_call` is shorter than the call text.
pub proof fn lemma_parse_call_args_shorter(s: Seq<char>, name: Seq<char>, args: Seq<Seq<char>>)
    requires
        spec_parse_call(s) == Some((name, args)),
    ensures
        forall|k: int| 0 <= k < args.len() ==> (#[trigger] args[k]).len() < s.len(),
{
    let open = first_from(s, seq!['('], 0);
    crate::text::lemma_first_from_bounds(s, seq!['('], 0);
    if open >= 0 {
        lemma_args_scan_shorter(s, open + 1, 0, open + 1, Seq::empty());
    }
}

pub open spec fn strings_of(v: Seq<String>) -> Seq<Seq<char>> {
    v.map_values(|x: String| x@)
}

proof fn lemma_name_start_bounds(s: Seq<char>, end: int)
    requires
        0 <= end <= s.len(),
    ensures
        0 <= name_start(s, end) <= end,
    decreases end,
{
    if end > 0 && is_name_char(s[end - 1]) {
        lemma_name_start_bounds(s, end - 1);
    }
}

proof fn lemma_after_last_dot_bounds(s: Seq<char>, a: int, b: int)
    requires
        0 <= a <= b <= s.len(),
    ensures
        a <= after_last_dot(s, a, b) <= b,
    decreases b - a,
{
    if b > a && s[b - 1] != '.' {
        lemma_after_last_dot_bounds(s, a, b - 1);
    }
}

/// Appends the trimmed text of `cs[seg..j]` unless it is blank.
fn push_arg_exec(cs: &[char], seg: usize, j: usize, args: &mut Vec<String>)
    requires
        seg <= j <= cs@.len(),
    ensures
        strings_of(final(args)@) == push_arg(strings_of(old(args)@), cs@.subrange(seg as int, j as int)),
{
    let (a, b) = crate::text::trim_range(cs, seg, j);
    if a < b {
        let ghost prev = args@;
        args.push(crate::text::string_from_chars(cs, a, b));
        assert(strings_of(args@) =~= strings_of(prev).push(cs@.subrange(a as int, b as int)));
    }
}

/// Parses `name(args...)` from an expression text: returns the final callee
/// identifier (after any `receiver.` prefix) and the top-level argument texts.
pub fn parse_call(text: &str) -> (r: Option<(String, Vec<String>)>)
    ensures
        match r {
            Some((name, args)) => spec_parse_call(text@) == Some((name@, strings_of(args@))),
            None => spec_parse_call(text@) is None,
        },
{
    let cs = chars_of(text);
    let n = cs.len();
    let paren = chars_of("(");
    proof {
        reveal_strlit("(");
        assert(paren@ =~= seq!['(']);
        assert(cs@.subrange(0, n as int) =~= cs@);
        lemma_first_from(cs@, seq!['('], 0);
    }
    let open = match find_chars_in(cs.as_slice(), paren.as_slice(), 0, n) {
        Some(o) => o,
        None => {
            return None;
        },
    };
    let mut ns = open;
    while ns > 0 && (is_identifier_character(cs[ns - 1]) || cs[ns - 1] == '.')
        invariant
            ns <= open < n == cs@.len(),
            name_start(cs@, ns as int) == name_start(cs@, open as int),
        decreases ns,
    {
        ns = ns - 1;
    }
    let mut d = open;
    while d > ns && cs[d - 1] != '.'
        invariant
            ns <= d <= open < n == cs@.len(),
            after_last_dot(cs@, ns as int, d as int) == after_last_dot(cs@, ns as int, open as int),
        decreases d,
    {
        d = d - 1;
    }
    let (a, b) = crate::text::trim_range(cs.as_slice(), d, open);
    if a == b {
        return None;
    }
    let name = crate::text::string_from_chars(cs.as_slice(), a, b);
    let mut args: Vec<String> = Vec::new();
    let mut depth: usize = 0;
    let mut seg: usize = open + 1;
    let mut j: usize = open + 1;
    let ghost whole = args_scan(cs@, open + 1, 0, open + 1, Seq::empty());
    proof {
        assert(strings_of(args@) =~= Seq::<Seq<char>>::empty());
    }
    while j < n
        invariant
            open < seg <= j <= n == cs@.len(),
            depth <= j,
            whole == args_scan(cs@, open + 1, 0, open + 1, Seq::empty()),
            cs@ == text@,
            open as int == first_from(cs@, seq!['('], 0),
            name@ == trim_chars(cs@.subrange(after_last_dot(cs@, name_start(cs@, open as int), open as int), open as int)),
            name@.len() > 0,
            args_scan(cs@, j as int, depth as nat, seg as int, strings_of(args@)) == whole,
        decreases n - j,
    {
        let c = cs[j];
        if c == '(' {
            depth = depth + 1;
        } else if c == ')' {
            if depth == 0 {
                push_arg_exec(cs.as_slice(), seg, j, &mut args);
                return Some((name, args));
            }
            depth = depth - 1;
        } else if c == ',' && depth == 0 {
            push_arg_exec(cs.as_slice(), seg, j, &mut args);
            seg = j + 1;
        }
        j = j + 1;
    }
    None
}

/// Start of the line holding byte `k`: just past the last line feed before it.
pub open spec fn line_start(b: Seq<u8>, k: int) -> int
    decreases k,
{
    if k <= 0 || k > b.len() {
        0
    } else if b[k - 1] == 10u8 {
        k
    } else {
        line_start(b, k - 1)
    }
}

/// End of the line holding byte `k`: the next line feed, or the end.
pub open spec fn line_stop(b: Seq<u8>, k: int) -> int
    decreases b.len() - k,
{
    if k < 0 || k >= b.len() {
        b.len() as int
    } else if b[k] == 10u8 {
        k
    } else {
        line_stop(b, k + 1)
    }
}

/// The trimmed text of the source line holding byte `byte` (clamped to the
/// end of the source).
pub open spec fn spec_line_text(source: Seq<u8>, byte: int) -> Seq<char> {
    let k = if byte < source.len() { byte } else { source.len() as int };
    trim_chars(decode_utf8(source.subrange(line_start(source, k), line_stop(source, k))))
}

/// The trimmed source line that contains byte offset `byte`.
pub fn line_text(source: &str, byte: usize) -> (r: String)
    requires
        byte >= sbytes(source).len() || is_char_boundary(sbytes(source), byte as int),
    ensures
        r@ == spec_line_text(sbytes(source), byte as int),
{
    let bytes = source.as_bytes();
    let ghost b = sbytes(source);
    let n = bytes.len();
    let k = if byte < n { byte } else { n };
    let mut start = k;
    while start > 0 && bytes[start - 1] != 10u8
        invariant
            start <= k <= n == b.len(),
            bytes@ == b,
            line_start(b, start as int) == line_start(b, k as int),
        decreases start,
    {
        start = start - 1;
    }
    let mut end = k;
    while end < n && bytes[end] != 10u8
        invariant
            k <= end <= n == b.len(),
            bytes@ == b,
            line_stop(b, end as int) == line_stop(b, k as int),
        decreases n - end,
    {
        end = end + 1;
    }
    proof {
        encode_utf8_valid_utf8(source@);
        is_char_boundary_start_end_of_seq(b);
        if start > 0 {
            crate::text::lemma_ascii_boundaries(b, start - 1);
        }
        if end < n {
            crate::text::lemma_ascii_boundaries(b, end as int);
        }
        if k == n {
            assert(is_char_boundary(b, n as int));
        }
        assert(is_char_boundary(b, start as int)) by {
            if start == k {
            }
        }
        assert(is_char_boundary(b, end as int)) by {
            if end == k {
            }
        }
    }
    match text_of(source, start, end) {
        Some(t) => {
            proof {
                encode_utf8_decode_utf8(t@);
            }
            trim_string(t)
        },
        None => {
            proof {
                assert(false);
            }
            String::new()
        },
    }
}

} // verus!
