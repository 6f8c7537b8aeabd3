//! Script errors and the explanation shown to the user: a location header, a category
//! recognised from the engine's message, and a tip for that category.
use vstd::prelude::*;
use vstd::utf8::encode_utf8;
use crate::canvas::{decimal, decimal_string};

verus! {

/// First position at or after `i` where `pat` occurs in `s`, or -1 when there is none.
pub open spec fn find_from(s: Seq<char>, pat: Seq<char>, i: int) -> int
    decreases s.len() + 1 - i,
{
    if i < 0 || i + pat.len() > s.len() {
        -1
    } else if s.subrange(i, i + pat.len()) == pat {
        i
    } else {
        find_from(s, pat, i + 1)
    }
}

/// `pat` occurs somewhere in `s`.
pub open spec fn contains(s: Seq<char>, pat: Seq<char>) -> bool {
    find_from(s, pat, 0) >= 0
}

/// `s` starts with `pat`.
pub open spec fn has_prefix(s: Seq<char>, pat: Seq<char>) -> bool {
    pat.len() <= s.len() && s.subrange(0, pat.len() as int) == pat
}

/// The text of `s` before the first occurrence of `pat`, or all of `s` when there is none
/// (the first piece of splitting `s` at `pat`).
pub open spec fn before(s: Seq<char>, pat: Seq<char>) -> Seq<char> {
    let i = find_from(s, pat, 0);
    if i >= 0 { s.subrange(0, i) } else { s }
}

/// The second piece of splitting `s` at `pat`: the text between its first and second
/// occurrences (or the end); `None` when `pat` does not occur.
pub open spec fn second_piece(s: Seq<char>, pat: Seq<char>) -> Option<Seq<char>> {
    let i = find_from(s, pat, 0);
    if i < 0 {
        None
    } else {
        let st = i + pat.len();
        let j = find_from(s, pat, st);
        Some(if j >= 0 { s.subrange(st, j) } else { s.subrange(st, s.len() as int) })
    }
}

/// Unicode `White_Space`.
pub open spec fn is_white_space(c: char) -> bool {
    let v = c as u32;
    ||| 0x9 <= v <= 0xd
    ||| v == 0x20
    ||| v == 0x85
    ||| v == 0xa0
    ||| v == 0x1680
    ||| 0x2000 <= v <= 0x200a
    ||| v == 0x2028
    ||| v == 0x2029
    ||| v == 0x202f
    ||| v == 0x205f
    ||| v == 0x3000
}

/// Position of the first non-white-space character at or after `i` (or the length).
pub open spec fn lead_end(s: Seq<char>, i: int) -> int
    decreases s.len() - i,
{
    if i < 0 || i >= s.len() {
        s.len() as int
    } else if is_white_space(s[i]) {
        lead_end(s, i + 1)
    } else {
        i
    }
}

/// One past the last non-white-space character before `j` (or 0).
pub open spec fn trail_end(s: Seq<char>, j: int) -> int
    decreases j,
{
    if j <= 0 || j > s.len() {
        0
    } else if is_white_space(s[j - 1]) {
        trail_end(s, j - 1)
    } else {
        j
    }
}

/// `s` without leading and trailing white space.
pub open spec fn trim(s: Seq<char>) -> Seq<char> {
    let a = lead_end(s, 0);
    let b = trail_end(s, s.len() as int);
    if a < b { s.subrange(a, b) } else { Seq::empty() }
}

/// Name for the Unicode `Lowercase` property of a character, as `char::is_lowercase`
/// reports it.
pub uninterp spec fn lowercase_char(c: char) -> bool;

/// `char::is_lowercase`: whether the character has the Unicode `Lowercase` property. The
/// contract only names the result; it depends on the character alone.
#[verifier::external_body]
fn char_is_lowercase(c: char) -> (r: bool)
    ensures
        r == lowercase_char(c),
{
    c.is_lowercase()
}

/// Every character is lowercase or an underscore.
pub open spec fn lower_or_underscore(s: Seq<char>) -> bool {
    forall|i: int| 0 <= i < s.len() ==> lowercase_char(#[trigger] s[i]) || s[i] == '_'
}

/// The characters of `s`.
pub(crate) fn chars_of(s: &str) -> (v: Vec<char>)
    ensures
        v@ == s@,
{
    let n = s.unicode_len();
    let mut v: Vec<char> = Vec::new();
    let mut i: usize = 0;
    while i < n
        invariant
            n == s@.len(),
            i <= n,
            v@ == s@.subrange(0, i as int),
        decreases n - i,
    {
        v.push(s.get_char(i));
        proof {
            assert(v@ =~= s@.subrange(0, i + 1));
        }
        i += 1;
    }
    proof {
        assert(v@ =~= s@);
    }
    v
}

/// The characters of `s` from `a` up to `b`.
pub(crate) fn sub_chars(s: &Vec<char>, a: usize, b: usize) -> (v: Vec<char>)
    requires
        a <= b <= s@.len(),
    ensures
        v@ == s@.subrange(a as int, b as int),
{
    let mut v: Vec<char> = Vec::new();
    let mut i: usize = a;
    while i < b
        invariant
            a <= i <= b,
            b <= s@.len(),
            v@ == s@.subrange(a as int, i as int),
        decreases b - i,
    {
        v.push(s[i]);
        proof {
            assert(v@ =~= s@.subrange(a as int, i + 1));
        }
        i += 1;
    }
    v
}

/// Whether `pat` occurs in `s` at position `i`.
pub(crate) fn occurs_at(s: &Vec<char>, pat: &Vec<char>, i: usize) -> (r: bool)
    requires
        i + pat@.len() <= s@.len(),
    ensures
        r == (s@.subrange(i as int, i + pat@.len()) == pat@),
{
    let m = pat.len();
    let n = s.len();
    let mut j: usize = 0;
    while j < m
        invariant
            m == pat@.len(),
            n == s@.len(),
            i + m <= s@.len(),
            j <= m,
            forall|k: int| 0 <= k < j ==> s@[i + k] == pat@[k],
        decreases m - j,
    {
        if s[i + j] != pat[j] {
            proof {
                assert(s@.subrange(i as int, i + m)[j as int] != pat@[j as int]);
            }
            return false;
        }
        j += 1;
    }
    proof {
        assert(s@.subrange(i as int, i + m) =~= pat@);
    }
    true
}

/// The first occurrence of `pat` in `s` at or after `from`.
fn find_chars(s: &Vec<char>, pat: &Vec<char>, from: usize) -> (r: Option<usize>)
    ensures
        match r {
            Some(i) => i as int == find_from(s@, pat@, from as int) && from <= i && i + pat@.len() <= s@.len(),
            None => find_from(s@, pat@, from as int) == -1,
        },
{
    let n = s.len();
    let m = pat.len();
    if m > n || from > n - m {
        return None;
    }
    let last = n - m;
    let mut i: usize = from;
    loop
        invariant
            n == s@.len(),
            m == pat@.len(),
            last == n - m,
            from <= i <= last,
            find_from(s@, pat@, from as int) == find_from(s@, pat@, i as int),
        decreases last - i,
    {
        if occurs_at(s, pat, i) {
            return Some(i);
        }
        if i == last {
            proof {
                assert(find_from(s@, pat@, i + 1) == -1);
            }
            return None;
        }
        i += 1;
    }
}

/// Positions `(lo, hi)` with `s[lo..hi]` equal to `trim(s)`.
pub(crate) fn trim_range(s: &Vec<char>) -> (r: (usize, usize))
    ensures
        r.0 <= r.1 <= s@.len(),
        s@.subrange(r.0 as int, r.1 as int) == trim(s@),
{
    let n = s.len();
    let mut lo: usize = 0;
    while lo < n && is_white_space_exec(s[lo])
        invariant
            n == s@.len(),
            lo <= n,
            lead_end(s@, 0) == lead_end(s@, lo as int),
        decreases n - lo,
    {
        lo += 1;
    }
    if lo == n {
        proof {
            assert(s@.subrange(n as int, n as int) =~= Seq::<char>::empty());
            lemma_trail_end_le(s@, n as int);
        }
        return (n, n);
    }
    let mut hi: usize = n;
    while hi > 0 && is_white_space_exec(s[hi - 1])
        invariant
            n == s@.len(),
            hi <= n,
            lo < n,
            !is_white_space(s@[lo as int]),
            lo < hi,
            trail_end(s@, n as int) == trail_end(s@, hi as int),
        decreases hi,
    {
        hi -= 1;
    }
    proof {
        assert(lead_end(s@, lo as int) == lo);
        assert(trail_end(s@, hi as int) == hi);
    }
    (lo, hi)
}

proof fn lemma_trail_end_le(s: Seq<char>, j: int)
    ensures
        trail_end(s, j) <= if j < 0 { 0 } else { j },
    decreases j,
{
    if j > 0 && j <= s.len() && is_white_space(s[j - 1]) {
        lemma_trail_end_le(s, j - 1);
    }
}

/// Exec form of `is_white_space`.
fn is_white_space_exec(c: char) -> (r: bool)
    ensures
        r == is_white_space(c),
{
    let v = c as u32;
    (0x9 <= v && v <= 0xd) || v == 0x20 || v == 0x85 || v == 0xa0 || v == 0x1680
        || (0x2000 <= v && v <= 0x200a) || v == 0x2028 || v == 0x2029 || v == 0x202f
        || v == 0x205f || v == 0x3000
}


/// Byte length of the UTF-8 encoding of one character.
fn utf8_width(c: char) -> (n: usize)
    ensures
        n == vstd::utf8::encode_scalar(c as u32).len(),
{
    let v = c as u32;
    if v <= 0x7f {
        1
    } else if v <= 0x7ff {
        2
    } else if v <= 0xffff {
        3
    } else {
        4
    }
}

/// Whether the UTF-8 encoding of `s` takes at most three bytes.
fn utf8_at_most_3(s: &Vec<char>) -> (r: bool)
    ensures
        r == (encode_utf8(s@).len() <= 3),
{
    let n = s.len();
    let mut i: usize = n;
    let mut acc: usize = 0;
    proof {
        assert(s@.subrange(n as int, n as int) =~= Seq::<char>::empty());
    }
    while i > 0
        invariant
            n == s@.len(),
            i <= n,
            acc <= 4,
            acc == (if encode_utf8(s@.subrange(i as int, n as int)).len() < 4 { encode_utf8(s@.subrange(i as int, n as int)).len() } else { 4 }),
        decreases i,
    {
        i -= 1;
        let wdt = utf8_width(s[i]);
        proof {
            let tail = s@.subrange(i as int, n as int);
            assert(tail[0] == s@[i as int]);
            assert(tail.drop_first() =~= s@.subrange(i + 1, n as int));
        }
        acc = if acc + wdt < 4 { acc + wdt } else { 4 };
    }
    proof {
        assert(s@.subrange(0, n as int) =~= s@);
    }
    acc <= 3
}

/// Whether every character of `s` is lowercase or an underscore.
fn all_lower_or_underscore(s: &Vec<char>) -> (r: bool)
    ensures
        r == lower_or_underscore(s@),
{
    let n = s.len();
    let mut i: usize = 0;
    while i < n
        invariant
            n == s@.len(),
            i <= n,
            forall|k: int| 0 <= k < i ==> lowercase_char(#[trigger] s@[k]) || s@[k] == '_',
        decreases n - i,
    {
        let c = s[i];
        if !(char_is_lowercase(c) || c == '_') {
            return false;
        }
        i += 1;
    }
    true
}

/// Whether `pat` occurs in `s`.
fn has(s: &Vec<char>, pat: &str) -> (r: bool)
    ensures
        r == contains(s@, pat@),
{
    let p = chars_of(pat);
    find_chars(s, &p, 0).is_some()
}

/// Length of the first piece of splitting `s` at `pat`.
fn before_end(s: &Vec<char>, pat: &str) -> (e: usize)
    ensures
        e <= s@.len(),
        s@.subrange(0, e as int) == before(s@, pat@),
{
    let p = chars_of(pat);
    match find_chars(s, &p, 0) {
        Some(i) => i,
        None => {
            proof {
                assert(s@.subrange(0, s@.len() as int) =~= s@);
            }
            s.len()
        },
    }
}

/// The lines of a text, joined with newlines.
pub open spec fn join_lines(lines: Seq<Seq<char>>) -> Seq<char>
    decreases lines.len(),
{
    if lines.len() == 0 {
        Seq::empty()
    } else if lines.len() == 1 {
        lines[0]
    } else {
        join_lines(lines.drop_last()) + "\n"@ + lines.last()
    }
}

proof fn lemma_join_push(lines: Seq<Seq<char>>, l: Seq<char>)
    requires
        lines.len() >= 1,
    ensures
        join_lines(lines.push(l)) == join_lines(lines) + "\n"@ + l,
{
    assert(lines.push(l).drop_last() =~= lines);
}

/// Append a line made of `a`, `b` and `c`.
fn push_line3(out: &mut String, Ghost(lines): Ghost<Seq<Seq<char>>>, a: &str, b: &str, c: &str)
    requires
        lines.len() >= 1,
        old(out)@ == join_lines(lines),
    ensures
        final(out)@ == join_lines(lines.push(a@ + b@ + c@)),
{
    out.append("\n");
    out.append(a);
    out.append(b);
    out.append(c);
    proof {
        lemma_join_push(lines, a@ + b@ + c@);
        assert(out@ =~= join_lines(lines) + "\n"@ + (a@ + b@ + c@));
    }
}

/// Append a line made of `a` and `b`.
fn push_line2(out: &mut String, Ghost(lines): Ghost<Seq<Seq<char>>>, a: &str, b: &str)
    requires
        lines.len() >= 1,
        old(out)@ == join_lines(lines),
    ensures
        final(out)@ == join_lines(lines.push(a@ + b@)),
{
    out.append("\n");
    out.append(a);
    out.append(b);
    proof {
        lemma_join_push(lines, a@ + b@);
        assert(out@ =~= join_lines(lines) + "\n"@ + (a@ + b@));
    }
}

/// Append the line `a`.
fn push_line(out: &mut String, Ghost(lines): Ghost<Seq<Seq<char>>>, a: &str)
    requires
        lines.len() >= 1,
        old(out)@ == join_lines(lines),
    ensures
        final(out)@ == join_lines(lines.push(a@)),
{
    out.append("\n");
    out.append(a);
    proof {
        lemma_join_push(lines, a@);
    }
}

/// Append an empty line.
fn push_empty_line(out: &mut String, Ghost(lines): Ghost<Seq<Seq<char>>>)
    requires
        lines.len() >= 1,
        old(out)@ == join_lines(lines),
    ensures
        final(out)@ == join_lines(lines.push(Seq::empty())),
{
    out.append("\n");
    proof {
        lemma_join_push(lines, Seq::empty());
        assert(out@ =~= join_lines(lines) + "\n"@ + Seq::<char>::empty());
    }
}


/// An error raised while compiling or running a script, with its position when known.
pub struct ScriptError {
    pub message: String,
    pub line: Option<usize>,
    pub column: Option<usize>,
}

/// First line of the explanation: where the error is, as far as it is known.
pub open spec fn header_line(line: Option<usize>, column: Option<usize>) -> Seq<char> {
    match line {
        Some(l) => match column {
            Some(c) => "Error on line "@ + decimal(l as nat) + ", column "@ + decimal(c as nat) + ":"@,
            None => "Error on line "@ + decimal(l as nat) + ":"@,
        },
        None => "Script error:"@,
    }
}

/// The text of an engine message before its position suffix.
pub open spec fn without_position(raw: Seq<char>) -> Seq<char> {
    before(raw, " (line "@)
}

/// Lines for a call of an unknown function; a short or lowercase name is probably a
/// closure called without `.call`, which gets a tip.
pub open spec fn missing_function_lines(raw: Seq<char>) -> Seq<Seq<char>> {
    let desc = before(raw.subrange("Function not found: "@.len() as int, raw.len() as int), " (line "@);
    let name = trim(before(desc, "("@));
    let first = seq!["  Could not find function: "@ + trim(desc)];
    if encode_utf8(name).len() <= 3 || lower_or_underscore(name) {
        first + seq![
            Seq::empty(),
            "  Tip: If this is a closure stored in a variable, use .call() syntax:"@,
            "    let "@ + name + " = |x| { x * 2 };"@,
            "    "@ + name + ".call(42);   // \u{e2}\u{153}\u{201c} correct"@,
            "    "@ + name + "(42);        // \u{e2}\u{153}\u{2014} won't work"@,
        ]
    } else {
        first
    }
}

/// Lines for a use of an undeclared variable, given the text after "Variable not found:".
pub open spec fn missing_variable_lines(part: Seq<char>) -> Seq<Seq<char>> {
    let name = trim(before(part, "("@));
    seq![
        "  Variable '"@ + name + "' is not defined."@,
        Seq::empty(),
        "  Tip: Make sure you declared it with 'let' before using it:"@,
        "    let "@ + name + " = 0;"@,
    ]
}

/// Lines for a syntax error.
pub open spec fn syntax_lines(raw: Seq<char>) -> Seq<Seq<char>> {
    seq![
        "  Syntax error: "@ + without_position(raw),
        Seq::empty(),
        "  Tip: Check for missing semicolons, brackets, or typos near this line."@,
    ]
}

/// Lines for a type mismatch.
pub open spec fn type_lines(raw: Seq<char>) -> Seq<Seq<char>> {
    seq![
        "  Type error: "@ + without_position(raw),
        Seq::empty(),
        "  Tip: Rhai is strict about types. Use .to_float() or .to_int() to convert:"@,
        "    let x = 10;           // int"@,
        "    let y = x.to_float(); // now float"@,
    ]
}

/// Lines for a script stopped by the operation limit.
pub open spec fn limit_lines() -> Seq<Seq<char>> {
    seq![
        "  Script exceeded the maximum operation limit (50 million ops)."@,
        Seq::empty(),
        "  Tip: Your script may have an infinite loop, or is processing"@,
        "  too many pixels. Try processing a smaller region with for_region(),"@,
        "  or use built-in apply_* functions which run natively."@,
    ]
}

/// Lines for an index out of bounds.
pub open spec fn index_lines(raw: Seq<char>) -> Seq<Seq<char>> {
    seq![
        "  "@ + without_position(raw),
        Seq::empty(),
        "  Tip: An array index is out of bounds. Check array lengths"@,
        "  with .len() before accessing elements."@,
    ]
}

/// Lines for an internal failure of the host.
pub open spec fn internal_lines() -> Seq<Seq<char>> {
    seq![
        "  An internal error occurred (this is a bug in PaintFE)."@,
        Seq::empty(),
        "  Please report this issue."@,
    ]
}

/// The explanation lines after the header, chosen by the first category whose words occur
/// in the engine message `raw`.
pub open spec fn detail_lines(raw: Seq<char>) -> Seq<Seq<char>> {
    if contains(raw, "Function not found:"@) {
        if has_prefix(raw, "Function not found: "@) {
            missing_function_lines(raw)
        } else {
            seq!["  "@ + raw]
        }
    } else if contains(raw, "Variable not found:"@) {
        match second_piece(raw, "Variable not found:"@) {
            Some(part) => missing_variable_lines(part),
            None => seq!["  "@ + raw],
        }
    } else if contains(raw, "Syntax error"@) || contains(raw, "Expected"@) {
        syntax_lines(raw)
    } else if contains(raw, "Data type"@) && contains(raw, "not supported"@) {
        type_lines(raw)
    } else if contains(raw, "Too many operations"@) {
        limit_lines()
    } else if contains(raw, "index"@) && contains(raw, "out of"@) {
        index_lines(raw)
    } else if contains(raw, "panicked"@) || contains(raw, "internal error"@) {
        internal_lines()
    } else if contains(raw, "ErrorTerminated"@) || contains(raw, "terminated"@) || contains(raw, "Script execution cancelled"@) {
        seq!["  Script was cancelled."@]
    } else {
        seq!["  "@ + without_position(raw)]
    }
}

/// The full explanation of an error with engine message `raw` at the given position.
pub open spec fn friendly_text(raw: Seq<char>, line: Option<usize>, column: Option<usize>) -> Seq<char> {
    join_lines(seq![header_line(line, column)] + detail_lines(raw))
}

/// The header line as a string.
fn header_text(line: Option<usize>, column: Option<usize>) -> (s: String)
    ensures
        s@ == header_line(line, column),
{
    match line {
        Some(l) => {
            let mut s = String::from_str("Error on line ");
            let ls = decimal_string(l);
            s.append(ls.as_str());
            match column {
                Some(c) => {
                    s.append(", column ");
                    let cs = decimal_string(c);
                    s.append(cs.as_str());
                    s.append(":");
                },
                None => {
                    s.append(":");
                },
            }
            s
        },
        None => String::from_str("Script error:"),
    }
}

/// The engine message without its position suffix, as a slice of `raw`.
fn first_piece<'a>(raw: &'a str, rc: &Vec<char>) -> (p: &'a str)
    requires
        rc@ == raw@,
    ensures
        p@ == without_position(raw@),
{
    let e = before_end(rc, " (line ");
    raw.substring_char(0, e)
}

/// Append the lines of `missing_function_lines`.
fn push_missing_function(out: &mut String, Ghost(head): Ghost<Seq<Seq<char>>>, raw: &str, rc: &Vec<char>)
    requires
        rc@ == raw@,
        has_prefix(raw@, "Function not found: "@),
        head.len() >= 1,
        old(out)@ == join_lines(head),
    ensures
        final(out)@ == join_lines(head + missing_function_lines(raw@)),
{
    let prefix = chars_of("Function not found: ");
    let plen = prefix.len();
    let n = rc.len();
    let part = sub_chars(rc, plen, n);
    let de = before_end(&part, " (line ");
    let desc = sub_chars(&part, 0, de);
    let (ta, tb) = trim_range(&desc);
    let desc_trim = raw.substring_char(plen + ta, plen + tb);
    proof {
        assert(desc_trim@ =~= desc@.subrange(ta as int, tb as int));
    }
    let ghost mut lines = head;
    push_line2(out, Ghost(lines), "  Could not find function: ", desc_trim);
    proof {
        lines = lines.push("  Could not find function: "@ + desc_trim@);
    }
    let ne = before_end(&desc, "(");
    let name_raw = sub_chars(&desc, 0, ne);
    let (na, nb) = trim_range(&name_raw);
    let name_chars = sub_chars(&name_raw, na, nb);
    if utf8_at_most_3(&name_chars) || all_lower_or_underscore(&name_chars) {
        let name = raw.substring_char(plen + na, plen + nb);
        proof {
            assert(name@ =~= name_chars@);
        }
        push_empty_line(out, Ghost(lines));
        proof {
            lines = lines.push(Seq::empty());
        }
        push_line(out, Ghost(lines), "  Tip: If this is a closure stored in a variable, use .call() syntax:");
        proof {
            lines = lines.push("  Tip: If this is a closure stored in a variable, use .call() syntax:"@);
        }
        push_line3(out, Ghost(lines), "    let ", name, " = |x| { x * 2 };");
        proof {
            lines = lines.push("    let "@ + name@ + " = |x| { x * 2 };"@);
        }
        push_line3(out, Ghost(lines), "    ", name, ".call(42);   // \u{e2}\u{153}\u{201c} correct");
        proof {
            lines = lines.push("    "@ + name@ + ".call(42);   // \u{e2}\u{153}\u{201c} correct"@);
        }
        push_line3(out, Ghost(lines), "    ", name, "(42);        // \u{e2}\u{153}\u{2014} won't work");
        proof {
            lines = lines.push("    "@ + name@ + "(42);        // \u{e2}\u{153}\u{2014} won't work"@);
        }
    }
    proof {
        assert(lines =~= head + missing_function_lines(raw@));
    }
}

/// Append the lines of `missing_variable_lines` for the text after the first
/// "Variable not found:".
fn push_missing_variable(out: &mut String, Ghost(head): Ghost<Seq<Seq<char>>>, raw: &str, rc: &Vec<char>)
    requires
        rc@ == raw@,
        contains(raw@, "Variable not found:"@),
        head.len() >= 1,
        old(out)@ == join_lines(head),
    ensures
        second_piece(raw@, "Variable not found:"@) is Some,
        final(out)@ == join_lines(head + missing_variable_lines(second_piece(raw@, "Variable not found:"@)->0)),
{
    let pat = chars_of("Variable not found:");
    let n = rc.len();
    let i = match find_chars(rc, &pat, 0) {
        Some(i) => i,
        None => {
            proof {
                assert(false);
            }
            0
        },
    };
    let st = i + pat.len();
    let end = match find_chars(rc, &pat, st) {
        Some(j) => j,
        None => n,
    };
    let part = sub_chars(rc, st, end);
    let ne = before_end(&part, "(");
    let name_raw = sub_chars(&part, 0, ne);
    let (na, nb) = trim_range(&name_raw);
    let name = raw.substring_char(st + na, st + nb);
    proof {
        assert(name@ =~= name_raw@.subrange(na as int, nb as int));
    }
    let ghost mut lines = head;
    push_line3(out, Ghost(lines), "  Variable '", name, "' is not defined.");
    proof {
        lines = lines.push("  Variable '"@ + name@ + "' is not defined."@);
    }
    push_empty_line(out, Ghost(lines));
    proof {
        lines = lines.push(Seq::empty());
    }
    push_line(out, Ghost(lines), "  Tip: Make sure you declared it with 'let' before using it:");
    proof {
        lines = lines.push("  Tip: Make sure you declared it with 'let' before using it:"@);
    }
    push_line3(out, Ghost(lines), "    let ", name, " = 0;");
    proof {
        lines = lines.push("    let "@ + name@ + " = 0;"@);
        assert(lines =~= head + missing_variable_lines(second_piece(raw@, "Variable not found:"@)->0));
    }
}


/// Append the lines of a category that needs no name from the message: syntax error (0),
/// type error (1), operation limit (2), index out of bounds (3), internal failure (4),
/// cancellation (5), or any other message (6).
fn push_category_lines(out: &mut String, Ghost(head): Ghost<Seq<Seq<char>>>, raw: &str, rc: &Vec<char>, category: u8)
    requires
        rc@ == raw@,
        head.len() >= 1,
        old(out)@ == join_lines(head),
        category < 7,
    ensures
        final(out)@ == join_lines(head + match category {
            0 => syntax_lines(raw@),
            1 => type_lines(raw@),
            2 => limit_lines(),
            3 => index_lines(raw@),
            4 => internal_lines(),
            5 => seq!["  Script was cancelled."@],
            _ => seq!["  "@ + without_position(raw@)],
        }),
{
    let ghost mut lines = head;
    if category == 0 {
        let first = first_piece(raw, rc);
        push_line2(out, Ghost(lines), "  Syntax error: ", first);
        proof { lines = lines.push("  Syntax error: "@ + first@); }
        push_empty_line(out, Ghost(lines));
        proof { lines = lines.push(Seq::empty()); }
        push_line(out, Ghost(lines), "  Tip: Check for missing semicolons, brackets, or typos near this line.");
        proof {
            lines = lines.push("  Tip: Check for missing semicolons, brackets, or typos near this line."@);
            assert(lines =~= head + syntax_lines(raw@));
        }
    } else if category == 1 {
        let first = first_piece(raw, rc);
        push_line2(out, Ghost(lines), "  Type error: ", first);
        proof { lines = lines.push("  Type error: "@ + first@); }
        push_empty_line(out, Ghost(lines));
        proof { lines = lines.push(Seq::empty()); }
        push_line(out, Ghost(lines), "  Tip: Rhai is strict about types. Use .to_float() or .to_int() to convert:");
        proof { lines = lines.push("  Tip: Rhai is strict about types. Use .to_float() or .to_int() to convert:"@); }
        push_line(out, Ghost(lines), "    let x = 10;           // int");
        proof { lines = lines.push("    let x = 10;           // int"@); }
        push_line(out, Ghost(lines), "    let y = x.to_float(); // now float");
        proof {
            lines = lines.push("    let y = x.to_float(); // now float"@);
            assert(lines =~= head + type_lines(raw@));
        }
    } else if category == 2 {
        push_line(out, Ghost(lines), "  Script exceeded the maximum operation limit (50 million ops).");
        proof { lines = lines.push("  Script exceeded the maximum operation limit (50 million ops)."@); }
        push_empty_line(out, Ghost(lines));
        proof { lines = lines.push(Seq::empty()); }
        push_line(out, Ghost(lines), "  Tip: Your script may have an infinite loop, or is processing");
        proof { lines = lines.push("  Tip: Your script may have an infinite loop, or is processing"@); }
        push_line(out, Ghost(lines), "  too many pixels. Try processing a smaller region with for_region(),");
        proof { lines = lines.push("  too many pixels. Try processing a smaller region with for_region(),"@); }
        push_line(out, Ghost(lines), "  or use built-in apply_* functions which run natively.");
        proof {
            lines = lines.push("  or use built-in apply_* functions which run natively."@);
            assert(lines =~= head + limit_lines());
        }
    } else if category == 3 {
        let first = first_piece(raw, rc);
        push_line2(out, Ghost(lines), "  ", first);
        proof { lines = lines.push("  "@ + first@); }
        push_empty_line(out, Ghost(lines));
        proof { lines = lines.push(Seq::empty()); }
        push_line(out, Ghost(lines), "  Tip: An array index is out of bounds. Check array lengths");
        proof { lines = lines.push("  Tip: An array index is out of bounds. Check array lengths"@); }
        push_line(out, Ghost(lines), "  with .len() before accessing elements.");
        proof {
            lines = lines.push("  with .len() before accessing elements."@);
            assert(lines =~= head + index_lines(raw@));
        }
    } else if category == 4 {
        push_line(out, Ghost(lines), "  An internal error occurred (this is a bug in PaintFE).");
        proof { lines = lines.push("  An internal error occurred (this is a bug in PaintFE)."@); }
        push_empty_line(out, Ghost(lines));
        proof { lines = lines.push(Seq::empty()); }
        push_line(out, Ghost(lines), "  Please report this issue.");
        proof {
            lines = lines.push("  Please report this issue."@);
            assert(lines =~= head + internal_lines());
        }
    } else if category == 5 {
        push_line(out, Ghost(lines), "  Script was cancelled.");
        proof {
            lines = lines.push("  Script was cancelled."@);
            assert(lines =~= head + seq!["  Script was cancelled."@]);
        }
    } else {
        let first = first_piece(raw, rc);
        push_line2(out, Ghost(lines), "  ", first);
        proof {
            lines = lines.push("  "@ + first@);
            assert(lines =~= head + seq!["  "@ + without_position(raw@)]);
        }
    }
}

impl ScriptError {
    /// The explanation shown to the user: a header with the line and column when known,
    /// then, by the first category whose words occur in the message, what went wrong and a
    /// tip; lines are joined with newlines.
    pub fn friendly_message(&self) -> (r: String)
        ensures
            r@ == friendly_text(self.message@, self.line, self.column),
    {
        let raw = self.message.as_str();
        let rc = chars_of(raw);
        let mut out = header_text(self.line, self.column);
        let ghost head = seq![header_line(self.line, self.column)];
        proof {
            assert(join_lines(head) == head[0]);
        }
        if has(&rc, "Function not found:") {
            let pc = chars_of("Function not found: ");
            if pc.len() <= rc.len() && occurs_at(&rc, &pc, 0) {
                push_missing_function(&mut out, Ghost(head), raw, &rc);
            } else {
                push_line2(&mut out, Ghost(head), "  ", raw);
                proof {
                    assert(head.push("  "@ + raw@) =~= head + seq!["  "@ + raw@]);
                }
            }
        } else if has(&rc, "Variable not found:") {
            push_missing_variable(&mut out, Ghost(head), raw, &rc);
        } else if has(&rc, "Syntax error") || has(&rc, "Expected") {
            push_category_lines(&mut out, Ghost(head), raw, &rc, 0);
        } else if has(&rc, "Data type") && has(&rc, "not supported") {
            push_category_lines(&mut out, Ghost(head), raw, &rc, 1);
        } else if has(&rc, "Too many operations") {
            push_category_lines(&mut out, Ghost(head), raw, &rc, 2);
        } else if has(&rc, "index") && has(&rc, "out of") {
            push_category_lines(&mut out, Ghost(head), raw, &rc, 3);
        } else if has(&rc, "panicked") || has(&rc, "internal error") {
            push_category_lines(&mut out, Ghost(head), raw, &rc, 4);
        } else if has(&rc, "ErrorTerminated") || has(&rc, "terminated") || has(&rc, "Script execution cancelled") {
            push_category_lines(&mut out, Ghost(head), raw, &rc, 5);
        } else {
            push_category_lines(&mut out, Ghost(head), raw, &rc, 6);
        }
        out
    }
}

} // verus!
