//! The registry file codec: the registry serialized as a pretty-printed
//! JSON array of objects with a `name` and a `path` string, and the parser
//! that reads such a file back.
use vstd::prelude::*;
use crate::apps::{RegisteredApp, AppView, app_views};
use vstd::string::StrSliceExecFns;
use vstd::string::StringExecFns;

verus! {

/// The lowercase hex digit for a value below sixteen.
pub open spec fn hex_digit(n: int) -> char {
    if n < 10 {
        ((48 + n) as u8) as char
    } else {
        ((87 + n) as u8) as char
    }
}

/// How one character stands inside a JSON string literal: itself, a short
/// escape, or a hex escape for the remaining control characters.
pub open spec fn escape_char(c: char) -> Seq<char> {
    if c == '"' {
        seq!['\\', '"']
    } else if c == '\\' {
        seq!['\\', '\\']
    } else if c == '\u{8}' {
        seq!['\\', 'b']
    } else if c == '\u{c}' {
        seq!['\\', 'f']
    } else if c == '\n' {
        seq!['\\', 'n']
    } else if c == '\r' {
        seq!['\\', 'r']
    } else if c == '\t' {
        seq!['\\', 't']
    } else if (c as u32) < 32 {
        seq!['\\', 'u', '0', '0', hex_digit((c as u32 / 16) as int), hex_digit((c as u32 % 16) as int)]
    } else {
        seq![c]
    }
}

pub open spec fn escape_string(s: Seq<char>) -> Seq<char>
    decreases s.len(),
{
    if s.len() == 0 {
        Seq::empty()
    } else {
        escape_char(s[0]) + escape_string(s.drop_first())
    }
}

/// One registry entry as the file holds it, at the array's indent.
pub open spec fn emit_entry(a: AppView) -> Seq<char> {
    "  {\n    \"name\": \""@ + escape_string(a.name) + "\",\n    \"path\": \""@ + escape_string(
        a.path,
    ) + "\"\n  }"@
}

pub open spec fn emit_entries(apps: Seq<AppView>) -> Seq<char>
    decreases apps.len(),
{
    if apps.len() == 0 {
        Seq::empty()
    } else if apps.len() == 1 {
        emit_entry(apps[0])
    } else {
        emit_entries(apps.drop_last()) + ",\n"@ + emit_entry(apps.last())
    }
}

/// The whole registry file: an empty array, or the entries one per block.
pub open spec fn emit_registry(apps: Seq<AppView>) -> Seq<char> {
    if apps.len() == 0 {
        "[]"@
    } else {
        "[\n"@ + emit_entries(apps) + "\n]"@
    }
}

/// Relies on String::push: appends exactly the one character.
#[verifier::external_body]
fn push_char(out: &mut String, c: char)
    ensures
        final(out)@ == old(out)@ + seq![c],
{
    out.push(c);
}

/// Relies on char::from_u32: every value below the surrogate range, and
/// every value between it and the last code point, is a scalar value, and
/// the character returned carries exactly that value.
#[verifier::external_body]
fn char_from_scalar(v: u32) -> (c: char)
    requires
        v < 0xD800 || (0xE000 <= v && v <= 0x10FFFF),
    ensures
        c as u32 == v,
{
    char::from_u32(v).expect("a non-surrogate value in range is a scalar")
}

proof fn lemma_escape_snoc(t: Seq<char>, c: char)
    ensures
        escape_string(t.push(c)) == escape_string(t) + escape_char(c),
    decreases t.len(),
{
    if t.len() == 0 {
        assert(t.push(c)[0] == c);
        assert(t.push(c).drop_first() =~= Seq::<char>::empty());
        assert(escape_string(Seq::<char>::empty()) =~= Seq::<char>::empty());
        assert(escape_string(t.push(c)) == escape_char(c) + escape_string(Seq::<char>::empty()));
        assert(escape_char(c) + Seq::<char>::empty() =~= Seq::<char>::empty() + escape_char(c));
        assert(escape_string(t) == Seq::<char>::empty());
    } else {
        assert(t.push(c)[0] == t[0]);
        assert(t.push(c).drop_first() =~= t.drop_first().push(c));
        lemma_escape_snoc(t.drop_first(), c);
        assert(escape_char(t[0]) + (escape_string(t.drop_first()) + escape_char(c))
            =~= escape_char(t[0]) + escape_string(t.drop_first()) + escape_char(c));
    }
}

fn hex_digit_exec(d: u32) -> (r: char)
    requires
        d < 16,
    ensures
        r == hex_digit(d as int),
{
    if d < 10 {
        ((48 + d as u8)) as char
    } else {
        ((87 + d as u8)) as char
    }
}

/// Appends the string's characters in their escaped form.
fn append_escaped(out: &mut String, s: &str)
    ensures
        final(out)@ == old(out)@ + escape_string(s@),
{
    let n: usize = s.unicode_len();
    let mut i: usize = 0;
    proof {
        assert(s@.take(0) =~= Seq::<char>::empty());
        assert(old(out)@ + escape_string(s@.take(0)) =~= old(out)@);
    }
    while i < n
        invariant
            0 <= i <= n,
            n == s@.len(),
            out@ == old(out)@ + escape_string(s@.take(i as int)),
        decreases n - i,
    {
        let c = s.get_char(i);
        if c == '"' {
            out.append("\\\"");
            proof {
                reveal_strlit("\\\"");
            }
        } else if c == '\\' {
            out.append("\\\\");
            proof {
                reveal_strlit("\\\\");
            }
        } else if c == '\u{8}' {
            out.append("\\b");
            proof {
                reveal_strlit("\\b");
            }
        } else if c == '\u{c}' {
            out.append("\\f");
            proof {
                reveal_strlit("\\f");
            }
        } else if c == '\n' {
            out.append("\\n");
            proof {
                reveal_strlit("\\n");
            }
        } else if c == '\r' {
            out.append("\\r");
            proof {
                reveal_strlit("\\r");
            }
        } else if c == '\t' {
            out.append("\\t");
            proof {
                reveal_strlit("\\t");
            }
        } else if (c as u32) < 32 {
            out.append("\\u00");
            proof {
                reveal_strlit("\\u00");
            }
            let v = c as u32;
            push_char(out, hex_digit_exec(v / 16));
            push_char(out, hex_digit_exec(v % 16));
        } else {
            push_char(out, c);
        }
        proof {
            assert(out@ =~= old(out)@ + (escape_string(s@.take(i as int)) + escape_char(
                s@[i as int],
            )));
            lemma_escape_snoc(s@.take(i as int), s@[i as int]);
            assert(s@.take(i + 1) =~= s@.take(i as int).push(s@[i as int]));
        }
        i = i + 1;
    }
    proof {
        assert(s@.take(n as int) =~= s@);
    }
}

/// The registry serialized for its file: deterministic, human-readable,
/// stable field order.
pub fn registry_to_json(apps: &Vec<RegisteredApp>) -> (r: String)
    ensures
        r@ == emit_registry(app_views(apps@)),
{
    let ghost av = app_views(apps@);
    if apps.len() == 0 {
        return "[]".to_owned();
    }
    let mut out = "[\n".to_owned();
    let mut i: usize = 0;
    while i < apps.len()
        invariant
            0 <= i <= apps.len(),
            av == app_views(apps@),
            av.len() == apps@.len(),
            av.len() > 0,
            out@ == "[\n"@ + emit_entries(av.take(i as int)),
        decreases apps.len() - i,
    {
        if i > 0 {
            out.append(",\n");
        }
        out.append("  {\n    \"name\": \"");
        append_escaped(&mut out, apps[i].name.as_str());
        out.append("\",\n    \"path\": \"");
        append_escaped(&mut out, apps[i].path.as_str());
        out.append("\"\n  }");
        proof {
            assert(av.take(i + 1).last() == av[i as int]);
            assert(av.take(i + 1).drop_last() =~= av.take(i as int));
            if i == 0 {
                assert(av.take(1).len() == 1);
                assert(av.take(1)[0] == av[0]);
                assert(out@ =~= "[\n"@ + emit_entries(av.take(1)));
            } else {
                assert(out@ =~= "[\n"@ + (emit_entries(av.take(i as int)) + ",\n"@ + emit_entry(
                    av[i as int],
                )));
                assert(out@ =~= "[\n"@ + emit_entries(av.take(i + 1)));
            }
        }
        i = i + 1;
    }
    proof {
        assert(av.take(av.len() as int) =~= av);
    }
    out.append("\n]");
    proof {
        assert(out@ =~= emit_registry(av));
    }
    out
}

/// The whitespace the registry file's grammar allows between tokens.
pub open spec fn is_json_ws(c: char) -> bool {
    c == ' ' || c == '\t' || c == '\n' || c == '\r'
}

/// The first position at or after `i` holding no whitespace.
pub open spec fn skip_ws(s: Seq<char>, i: int) -> int
    decreases s.len() - i,
    when 0 <= i <= s.len()
{
    if i < s.len() && is_json_ws(s[i]) {
        skip_ws(s, i + 1)
    } else {
        i
    }
}

/// The value of a hex digit, or -1.
pub open spec fn hex_val(c: char) -> int {
    if '0' <= c && c <= '9' {
        c as int - 48
    } else if 'a' <= c && c <= 'f' {
        c as int - 87
    } else if 'A' <= c && c <= 'F' {
        c as int - 55
    } else {
        -1
    }
}

/// Prepends a decoded character to a string parse's outcome.
pub open spec fn cons_parse(c: char, r: Option<(Seq<char>, int)>) -> Option<(Seq<char>, int)> {
    match r {
        None => None,
        Some((t, j)) => Some((seq![c] + t, j)),
    }
}

/// A string literal's body from position `i` (just after the opening
/// quote) to its closing quote: the decoded content and the position after
/// the quote. Hex escapes are read for any scalar value in the basic
/// plane; surrogate halves (and so supplementary-plane pairs) are not.
pub open spec fn parse_str_body(s: Seq<char>, i: int) -> Option<(Seq<char>, int)>
    decreases s.len() - i,
    when 0 <= i <= s.len()
{
    if i >= s.len() {
        None
    } else if s[i] == '"' {
        Some((Seq::empty(), i + 1))
    } else if s[i] == '\\' {
        if i + 1 >= s.len() {
            None
        } else {
            let e = s[i + 1];
            if e == '"' || e == '\\' || e == '/' {
                cons_parse(e, parse_str_body(s, i + 2))
            } else if e == 'b' {
                cons_parse('\u{8}', parse_str_body(s, i + 2))
            } else if e == 'f' {
                cons_parse('\u{c}', parse_str_body(s, i + 2))
            } else if e == 'n' {
                cons_parse('\n', parse_str_body(s, i + 2))
            } else if e == 'r' {
                cons_parse('\r', parse_str_body(s, i + 2))
            } else if e == 't' {
                cons_parse('\t', parse_str_body(s, i + 2))
            } else if e == 'u' {
                if i + 6 > s.len() {
                    None
                } else {
                    let v = hex_val(s[i + 2]) * 4096 + hex_val(s[i + 3]) * 256 + hex_val(
                        s[i + 4],
                    ) * 16 + hex_val(s[i + 5]);
                    if hex_val(s[i + 2]) < 0 || hex_val(s[i + 3]) < 0 || hex_val(s[i + 4]) < 0
                        || hex_val(s[i + 5]) < 0 || (0xD800 <= v && v < 0xE000) {
                        None
                    } else {
                        cons_parse((v as u32) as char, parse_str_body(s, i + 6))
                    }
                }
            } else {
                None
            }
        }
    } else if (s[i] as u32) < 32 {
        None
    } else {
        cons_parse(s[i], parse_str_body(s, i + 1))
    }
}

/// A quoted string starting at `i`.
pub open spec fn parse_string_at(s: Seq<char>, i: int) -> Option<(Seq<char>, int)> {
    if 0 <= i && i < s.len() && s[i] == '"' {
        parse_str_body(s, i + 1)
    } else {
        None
    }
}

/// One `"key": "value"` member starting at `i`.
pub open spec fn parse_member(s: Seq<char>, i: int) -> Option<((Seq<char>, Seq<char>), int)> {
    match parse_string_at(s, i) {
        None => None,
        Some((k, j)) => {
            let j2 = skip_ws(s, j);
            if j2 < s.len() && s[j2] == ':' {
                let j3 = skip_ws(s, j2 + 1);
                match parse_string_at(s, j3) {
                    None => None,
                    Some((v, j4)) => Some(((k, v), j4)),
                }
            } else {
                None
            }
        },
    }
}

/// One registry object starting at `i`: exactly a `name` and a `path`
/// member, in either order. Members beyond these two are deliberately not
/// read: the registry file holds nothing else.
pub open spec fn parse_obj(s: Seq<char>, i: int) -> Option<(AppView, int)> {
    if !(0 <= i && i < s.len() && s[i] == '{') {
        None
    } else {
        let j = skip_ws(s, i + 1);
        match parse_member(s, j) {
            None => None,
            Some(((k1, v1), j1)) => {
                let j2 = skip_ws(s, j1);
                if j2 < s.len() && s[j2] == ',' {
                    let j3 = skip_ws(s, j2 + 1);
                    match parse_member(s, j3) {
                        None => None,
                        Some(((k2, v2), j4)) => {
                            let j5 = skip_ws(s, j4);
                            if j5 < s.len() && s[j5] == '}' {
                                if k1 == "name"@ && k2 == "path"@ {
                                    Some((AppView { name: v1, path: v2 }, j5 + 1))
                                } else if k1 == "path"@ && k2 == "name"@ {
                                    Some((AppView { name: v2, path: v1 }, j5 + 1))
                                } else {
                                    None
                                }
                            } else {
                                None
                            }
                        },
                    }
                } else {
                    None
                }
            },
        }
    }
}

proof fn lemma_skip_ws_bounds(s: Seq<char>, i: int)
    requires
        0 <= i <= s.len(),
    ensures
        i <= skip_ws(s, i) <= s.len(),
    decreases s.len() - i,
{
    if i < s.len() && is_json_ws(s[i]) {
        lemma_skip_ws_bounds(s, i + 1);
    }
}

proof fn lemma_str_body_bounds(s: Seq<char>, i: int)
    requires
        0 <= i <= s.len(),
    ensures
        parse_str_body(s, i) matches Some(r) ==> i < r.1 <= s.len(),
    decreases s.len() - i,
{
    if i >= s.len() {
    } else if s[i] == '"' {
    } else if s[i] == '\\' {
        if i + 2 <= s.len() {
            lemma_str_body_bounds(s, i + 2);
        }
        if i + 6 <= s.len() {
            lemma_str_body_bounds(s, i + 6);
        }
    } else {
        lemma_str_body_bounds(s, i + 1);
    }
}

proof fn lemma_member_bounds(s: Seq<char>, i: int)
    requires
        0 <= i <= s.len(),
    ensures
        parse_member(s, i) matches Some(r) ==> i < r.1 <= s.len(),
{
    match parse_string_at(s, i) {
        Some((k, j)) => {
            lemma_str_body_bounds(s, i + 1);
            lemma_skip_ws_bounds(s, j);
            let j2 = skip_ws(s, j);
            if j2 < s.len() && s[j2] == ':' {
                lemma_skip_ws_bounds(s, j2 + 1);
                let j3 = skip_ws(s, j2 + 1);
                if j3 < s.len() && s[j3] == '"' {
                    lemma_str_body_bounds(s, j3 + 1);
                }
            }
        },
        None => {},
    }
}

proof fn lemma_obj_bounds(s: Seq<char>, i: int)
    requires
        0 <= i <= s.len(),
    ensures
        parse_obj(s, i) matches Some(r) ==> i < r.1 <= s.len(),
{
    if 0 <= i && i < s.len() && s[i] == '{' {
        lemma_skip_ws_bounds(s, i + 1);
        let j = skip_ws(s, i + 1);
        lemma_member_bounds(s, j);
        match parse_member(s, j) {
            Some(((k1, v1), j1)) => {
                lemma_skip_ws_bounds(s, j1);
                let j2 = skip_ws(s, j1);
                if j2 < s.len() && s[j2] == ',' {
                    lemma_skip_ws_bounds(s, j2 + 1);
                    let j3 = skip_ws(s, j2 + 1);
                    lemma_member_bounds(s, j3);
                    match parse_member(s, j3) {
                        Some(((k2, v2), j4)) => {
                            lemma_skip_ws_bounds(s, j4);
                        },
                        None => {},
                    }
                }
            },
            None => {},
        }
    }
}

/// One or more comma-separated registry objects starting at `i`.
pub open spec fn parse_items(s: Seq<char>, i: int) -> Option<(Seq<AppView>, int)>
    decreases s.len() - i,
    when 0 <= i <= s.len()
    via parse_items_decreases
{
    match parse_obj(s, i) {
        None => None,
        Some((a, j)) => {
            let j2 = skip_ws(s, j);
            if j2 < s.len() && s[j2] == ',' {
                let j3 = skip_ws(s, j2 + 1);
                match parse_items(s, j3) {
                    None => None,
                    Some((rest, j4)) => Some((seq![a] + rest, j4)),
                }
            } else {
                Some((seq![a], j))
            }
        },
    }
}

#[via_fn]
proof fn parse_items_decreases(s: Seq<char>, i: int) {
    lemma_obj_bounds(s, i);
    match parse_obj(s, i) {
        Some((a, j)) => {
            lemma_skip_ws_bounds(s, j);
            let j2 = skip_ws(s, j);
            if j2 < s.len() && s[j2] == ',' {
                lemma_skip_ws_bounds(s, j2 + 1);
            }
        },
        None => {},
    }
}

fn is_json_ws_exec(c: char) -> (r: bool)
    ensures
        r == is_json_ws(c),
{
    c == ' ' || c == '\t' || c == '\n' || c == '\r'
}

fn skip_ws_exec(s: &str, i: usize, n: usize) -> (r: usize)
    requires
        i <= n,
        n == s@.len(),
    ensures
        r as int == skip_ws(s@, i as int),
        i <= r <= n,
{
    let mut cur: usize = i;
    while cur < n && is_json_ws_exec(s.get_char(cur))
        invariant
            i <= cur <= n,
            n == s@.len(),
            skip_ws(s@, i as int) == skip_ws(s@, cur as int),
        decreases n - cur,
    {
        cur = cur + 1;
    }
    cur
}

fn hex_val_exec(c: char) -> (r: i8)
    ensures
        r as int == hex_val(c),
        -1 <= r < 16,
{
    if '0' <= c && c <= '9' {
        ((c as u8) - 48) as i8
    } else if 'a' <= c && c <= 'f' {
        ((c as u8) - 87) as i8
    } else if 'A' <= c && c <= 'F' {
        ((c as u8) - 55) as i8
    } else {
        -1
    }
}

proof fn lemma_body_step(s: Seq<char>, b: int, cur: int, d: char, nxt: int, buf_old: Seq<char>)
    requires
        parse_str_body(s, cur) == cons_parse(d, parse_str_body(s, nxt)),
        match parse_str_body(s, cur) {
            Some((t, j)) => parse_str_body(s, b) == Some((buf_old + t, j)),
            None => parse_str_body(s, b) is None,
        },
    ensures
        match parse_str_body(s, nxt) {
            Some((t, j)) => parse_str_body(s, b) == Some(((buf_old + seq![d]) + t, j)),
            None => parse_str_body(s, b) is None,
        },
{
    match parse_str_body(s, nxt) {
        Some((t, j)) => {
            assert(buf_old + (seq![d] + t) =~= (buf_old + seq![d]) + t);
        },
        None => {},
    }
}

fn parse_string_exec(s: &str, i: usize, n: usize) -> (r: Option<(String, usize)>)
    requires
        i <= n,
        n == s@.len(),
    ensures
        match parse_string_at(s@, i as int) {
            Some((t, j)) => (r matches Some(p) && p.0@ == t && p.1 as int == j && p.1 <= n),
            None => r is None,
        },
{
    if !(i < n && s.get_char(i) == '"') {
        return None;
    }
    let b: usize = i + 1;
    let mut cur: usize = b;
    let mut buf = String::new();
    proof {
        match parse_str_body(s@, b as int) {
            Some((t, j)) => {
                assert(buf@ + t =~= t);
            },
            None => {},
        }
    }
    loop
        invariant
            b <= cur <= n,
            n == s@.len(),
            b == i + 1,
            i < n,
            s@[i as int] == '"',
            match parse_str_body(s@, cur as int) {
                Some((t, j)) => parse_str_body(s@, b as int) == Some((buf@ + t, j)),
                None => parse_str_body(s@, b as int) is None,
            },
        decreases n - cur,
    {
        if cur >= n {
            assert(parse_str_body(s@, cur as int) is None);
            return None;
        }
        let c = s.get_char(cur);
        if c == '"' {
            proof {
                assert(parse_str_body(s@, cur as int) == Some((
                    Seq::<char>::empty(),
                    cur + 1 as int,
                )));
                assert(buf@ + Seq::<char>::empty() =~= buf@);
                lemma_str_body_bounds(s@, b as int);
            }
            return Some((buf, cur + 1));
        }
        if c == '\\' {
            if cur + 1 >= n {
                assert(parse_str_body(s@, cur as int) is None);
                return None;
            }
            let e = s.get_char(cur + 1);
            let ghost buf_old = buf@;
            if e == '"' || e == '\\' || e == '/' {
                push_char(&mut buf, e);
                proof {
                    lemma_body_step(s@, b as int, cur as int, e, cur + 2 as int, buf_old);
                }
                cur = cur + 2;
            } else if e == 'b' {
                push_char(&mut buf, '\u{8}');
                proof {
                    lemma_body_step(s@, b as int, cur as int, '\u{8}', cur + 2 as int, buf_old);
                }
                cur = cur + 2;
            } else if e == 'f' {
                push_char(&mut buf, '\u{c}');
                proof {
                    lemma_body_step(s@, b as int, cur as int, '\u{c}', cur + 2 as int, buf_old);
                }
                cur = cur + 2;
            } else if e == 'n' {
                push_char(&mut buf, '\n');
                proof {
                    lemma_body_step(s@, b as int, cur as int, '\n', cur + 2 as int, buf_old);
                }
                cur = cur + 2;
            } else if e == 'r' {
                push_char(&mut buf, '\r');
                proof {
                    lemma_body_step(s@, b as int, cur as int, '\r', cur + 2 as int, buf_old);
                }
                cur = cur + 2;
            } else if e == 't' {
                push_char(&mut buf, '\t');
                proof {
                    lemma_body_step(s@, b as int, cur as int, '\t', cur + 2 as int, buf_old);
                }
                cur = cur + 2;
            } else if e == 'u' {
                if n - cur < 6 {
                    assert(parse_str_body(s@, cur as int) is None);
                    return None;
                }
                let h1 = hex_val_exec(s.get_char(cur + 2));
                let h2 = hex_val_exec(s.get_char(cur + 3));
                let h3 = hex_val_exec(s.get_char(cur + 4));
                let h4 = hex_val_exec(s.get_char(cur + 5));
                if h1 < 0 || h2 < 0 || h3 < 0 || h4 < 0 {
                    assert(parse_str_body(s@, cur as int) is None);
                    return None;
                }
                let v: i32 = (h1 as i32) * 4096 + (h2 as i32) * 256 + (h3 as i32) * 16 + (
                h4 as i32);
                if 0xD800 <= v && v < 0xE000 {
                    assert(parse_str_body(s@, cur as int) is None);
                    return None;
                }
                let d = char_from_scalar(v as u32);
                proof {
                    vstd::utf8::char_u32_cast(d, v as u32);
                    assert(d == ((v as u32) as char));
                }
                push_char(&mut buf, d);
                proof {
                    lemma_body_step(s@, b as int, cur as int, d, cur + 6 as int, buf_old);
                }
                cur = cur + 6;
            } else {
                assert(parse_str_body(s@, cur as int) is None);
                return None;
            }
        } else if (c as u32) < 32 {
            assert(parse_str_body(s@, cur as int) is None);
            return None;
        } else {
            let ghost buf_old = buf@;
            push_char(&mut buf, c);
            proof {
                lemma_body_step(s@, b as int, cur as int, c, cur + 1 as int, buf_old);
            }
            cur = cur + 1;
        }
    }
}

fn parse_member_exec(s: &str, i: usize, n: usize) -> (r: Option<(String, String, usize)>)
    requires
        i <= n,
        n == s@.len(),
    ensures
        match parse_member(s@, i as int) {
            Some(((k, v), j)) => (r matches Some(p) && p.0@ == k && p.1@ == v && p.2 as int == j
                && p.2 <= n),
            None => r is None,
        },
{
    match parse_string_exec(s, i, n) {
        None => None,
        Some((k, j)) => {
            let j2 = skip_ws_exec(s, j, n);
            if !(j2 < n && s.get_char(j2) == ':') {
                return None;
            }
            let j3 = skip_ws_exec(s, j2 + 1, n);
            match parse_string_exec(s, j3, n) {
                None => None,
                Some((v, j4)) => Some((k, v, j4)),
            }
        },
    }
}

fn parse_obj_exec(s: &str, i: usize, n: usize) -> (r: Option<(RegisteredApp, usize)>)
    requires
        i <= n,
        n == s@.len(),
    ensures
        match parse_obj(s@, i as int) {
            Some((a, j)) => (r matches Some(p) && p.0@ == a && p.1 as int == j && p.1 <= n),
            None => r is None,
        },
{
    if !(i < n && s.get_char(i) == '{') {
        return None;
    }
    let j = skip_ws_exec(s, i + 1, n);
    match parse_member_exec(s, j, n) {
        None => None,
        Some((k1, v1, j1)) => {
            let j2 = skip_ws_exec(s, j1, n);
            if !(j2 < n && s.get_char(j2) == ',') {
                return None;
            }
            let j3 = skip_ws_exec(s, j2 + 1, n);
            match parse_member_exec(s, j3, n) {
                None => None,
                Some((k2, v2, j4)) => {
                    let j5 = skip_ws_exec(s, j4, n);
                    if !(j5 < n && s.get_char(j5) == '}') {
                        return None;
                    }
                    if crate::text::str_eq(k1.as_str(), "name") && crate::text::str_eq(
                        k2.as_str(),
                        "path",
                    ) {
                        Some((RegisteredApp { name: v1, path: v2 }, j5 + 1))
                    } else if crate::text::str_eq(k1.as_str(), "path") && crate::text::str_eq(
                        k2.as_str(),
                        "name",
                    ) {
                        Some((RegisteredApp { name: v2, path: v1 }, j5 + 1))
                    } else {
                        None
                    }
                },
            }
        },
    }
}

/// Parses the registry file's text back into its entries; anything outside
/// the file grammar — including objects with members beyond `name` and
/// `path`, or supplementary-plane hex escapes — yields nothing.
pub fn parse_registry_json(s: &str) -> (r: Option<Vec<RegisteredApp>>)
    ensures
        match parse_registry_text(s@) {
            Some(views) => (r matches Some(v) && app_views(v@) == views),
            None => r is None,
        },
{
    let n: usize = s.unicode_len();
    let i = skip_ws_exec(s, 0, n);
    if !(i < n && s.get_char(i) == '[') {
        return None;
    }
    let j = skip_ws_exec(s, i + 1, n);
    if j < n && s.get_char(j) == ']' {
        if skip_ws_exec(s, j + 1, n) == n {
            let out: Vec<RegisteredApp> = Vec::new();
            assert(app_views(out@) =~= Seq::<AppView>::empty());
            return Some(out);
        }
        return None;
    }
    let mut acc: Vec<RegisteredApp> = Vec::new();
    let mut cur: usize = j;
    let ghost start = j as int;
    proof {
        match parse_items(s@, start) {
            Some((rest, jj)) => {
                assert(app_views(acc@) + rest =~= rest);
            },
            None => {},
        }
    }
    loop
        invariant
            cur <= n,
            n == s@.len(),
            i < n,
            i as int == skip_ws(s@, 0),
            s@[i as int] == '[',
            j as int == skip_ws(s@, i + 1),
            !(j < n && s@[j as int] == ']'),
            start == j as int,
            match parse_items(s@, cur as int) {
                Some((rest, jj)) => parse_items(s@, start) == Some((app_views(acc@) + rest, jj)),
                None => parse_items(s@, start) is None,
            },
        decreases n - cur,
    {
        let ghost cur0 = cur as int;
        match parse_obj_exec(s, cur, n) {
            None => {
                assert(parse_items(s@, cur0) is None);
                return None;
            },
            Some((app, jj)) => {
                proof {
                    lemma_obj_bounds(s@, cur0);
                }
                let j2 = skip_ws_exec(s, jj, n);
                if j2 < n && s.get_char(j2) == ',' {
                    let j3 = skip_ws_exec(s, j2 + 1, n);
                    let ghost oldv = app_views(acc@);
                    acc.push(app);
                    proof {
                        assert(app_views(acc@) =~= oldv.push(app@));
                        match parse_items(s@, j3 as int) {
                            Some((rest2, j4)) => {
                                assert(parse_items(s@, cur0) == Some((seq![app@] + rest2, j4)));
                                assert(oldv + (seq![app@] + rest2) =~= app_views(acc@) + rest2);
                            },
                            None => {
                                assert(parse_items(s@, cur0) is None);
                            },
                        }
                    }
                    assert(j3 > cur);
                    cur = j3;
                } else {
                    let ghost oldv = app_views(acc@);
                    acc.push(app);
                    proof {
                        assert(app_views(acc@) =~= oldv.push(app@));
                        assert(parse_items(s@, cur0) == Some((seq![app@], jj as int)));
                        assert(oldv + seq![app@] =~= app_views(acc@));
                        assert(parse_items(s@, start) == Some((app_views(acc@), jj as int)));
                    }
                    let j5 = skip_ws_exec(s, jj, n);
                    if j5 < n && s.get_char(j5) == ']' {
                        if skip_ws_exec(s, j5 + 1, n) == n {
                            return Some(acc);
                        }
                    }
                    return None;
                }
            },
        }
    }
}

/// The whole registry file: a JSON array of registry objects, with
/// whitespace where the grammar allows it and nothing after the close.
pub open spec fn parse_registry_text(s: Seq<char>) -> Option<Seq<AppView>> {
    let i = skip_ws(s, 0);
    if !(i < s.len() && s[i] == '[') {
        None
    } else {
        let j = skip_ws(s, i + 1);
        if j < s.len() && s[j] == ']' {
            if skip_ws(s, j + 1) == s.len() {
                Some(Seq::empty())
            } else {
                None
            }
        } else {
            match parse_items(s, j) {
                None => None,
                Some((items, j2)) => {
                    let j3 = skip_ws(s, j2);
                    if j3 < s.len() && s[j3] == ']' {
                        if skip_ws(s, j3 + 1) == s.len() {
                            Some(items)
                        } else {
                            None
                        }
                    } else {
                        None
                    }
                },
            }
        }
    }
}

proof fn lemma_skip_ws_run(s: Seq<char>, a: int, b: int)
    requires
        0 <= a <= b <= s.len(),
        forall|k: int| a <= k < b ==> is_json_ws(s[k]),
        b == s.len() || !is_json_ws(s[b]),
    ensures
        skip_ws(s, a) == b,
    decreases b - a,
{
    if a < b {
        assert(is_json_ws(s[a]));
        lemma_skip_ws_run(s, a + 1, b);
    }
}

/// Characters that stand for themselves inside a string literal.
pub open spec fn plain_char(c: char) -> bool {
    c != '"' && c != '\\' && c as u32 >= 32
}

proof fn lemma_escape_plain(xs: Seq<char>)
    requires
        forall|j: int| 0 <= j < xs.len() ==> plain_char(xs[j]),
    ensures
        escape_string(xs) == xs,
    decreases xs.len(),
{
    if xs.len() == 0 {
        assert(escape_string(xs) =~= xs);
    } else {
        assert(plain_char(xs[0]));
        assert(escape_char(xs[0]) == seq![xs[0]]);
        lemma_escape_plain(xs.drop_first());
        assert(seq![xs[0]] + xs.drop_first() =~= xs);
    }
}

proof fn lemma_hex_digit_val(d: int)
    requires
        0 <= d < 16,
    ensures
        hex_val(hex_digit(d)) == d,
        plain_char(hex_digit(d)),
{
}

proof fn lemma_split_concat(s: Seq<char>, i: int, j: int, x: Seq<char>, y: Seq<char>)
    requires
        0 <= i <= j <= s.len(),
        s.subrange(i, j) == x + y,
    ensures
        s.subrange(i, i + x.len()) == x,
        s.subrange(i + x.len(), j) == y,
{
    assert(s.subrange(i, j).len() == j - i);
    assert((x + y).len() == x.len() + y.len());
    assert(j - i == x.len() + y.len());
    assert forall|k: int| 0 <= k < x.len() implies s.subrange(i, i + x.len() as int)[k] == x[
        k
    ] by {
        assert(s.subrange(i, j)[k] == (x + y)[k]);
        assert(s.subrange(i, j)[k] == s[i + k]);
        assert(s.subrange(i, i + x.len() as int)[k] == s[i + k]);
    }
    assert(s.subrange(i, i + x.len() as int) =~= x);
    assert forall|k: int| 0 <= k < y.len() implies s.subrange(i + x.len() as int, j)[k] == y[
        k
    ] by {
        assert(s.subrange(i, j)[x.len() + k] == (x + y)[x.len() + k]);
        assert(s.subrange(i, j)[x.len() + k] == s[i + x.len() + k]);
        assert(s.subrange(i + x.len() as int, j)[k] == s[i + x.len() + k]);
    }
    assert(s.subrange(i + x.len() as int, j) =~= y);
}

proof fn lemma_char_at(s: Seq<char>, a: int, b: int, part: Seq<char>, k: int)
    requires
        0 <= a <= b <= s.len(),
        s.subrange(a, b) == part,
        0 <= k < part.len(),
    ensures
        s[a + k] == part[k],
{
    assert(s.subrange(a, b)[k] == s[a + k]);
}

/// Stepping the string parser over an escaped body: what the writer
/// escaped, the parser decodes, ending just past the closing quote.
#[verifier::rlimit(100)]
proof fn lemma_parse_escaped(s: Seq<char>, i: int, x: Seq<char>, j: int)
    requires
        0 <= i <= j < s.len(),
        s.subrange(i, j) == escape_string(x),
        s[j] == '"',
    ensures
        parse_str_body(s, i) == Some((x, j + 1)),
    decreases x.len(),
{
    if x.len() == 0 {
        assert(escape_string(x).len() == 0);
        assert(j == i);
    } else {
        let e = escape_char(x[0]);
        let rest = escape_string(x.drop_first());
        assert(escape_string(x) == e + rest);
        lemma_split_concat(s, i, j, e, rest);
        let i2 = i + e.len() as int;
        lemma_parse_escaped(s, i2, x.drop_first(), j);
        assert(seq![x[0]] + x.drop_first() =~= x);
        let c = x[0];
        if c == '"' || c == '\\' {
            lemma_char_at(s, i, i2, e, 0);
            lemma_char_at(s, i, i2, e, 1);
            assert(s[i] == '\\' && s[i + 1] == c);
            assert(parse_str_body(s, i) == cons_parse(c, parse_str_body(s, i + 2)));
        } else if c == '\u{8}' || c == '\u{c}' || c == '\n' || c == '\r' || c == '\t' {
            lemma_char_at(s, i, i2, e, 0);
            lemma_char_at(s, i, i2, e, 1);
            assert(s[i] == '\\');
            assert(parse_str_body(s, i) == cons_parse(c, parse_str_body(s, i + 2)));
        } else if (c as u32) < 32 {
            let cu = c as u32;
            let hi = (cu / 16) as int;
            let lo = (cu % 16) as int;
            assert(0 <= hi < 16 && 0 <= lo < 16);
            assert(e =~= seq!['\\', 'u', '0', '0', hex_digit(hi), hex_digit(lo)]);
            lemma_char_at(s, i, i2, e, 0);
            lemma_char_at(s, i, i2, e, 1);
            lemma_char_at(s, i, i2, e, 2);
            lemma_char_at(s, i, i2, e, 3);
            lemma_char_at(s, i, i2, e, 4);
            lemma_char_at(s, i, i2, e, 5);
            assert(s[i] == '\\' && s[i + 1] == 'u' && s[i + 2] == '0' && s[i + 3] == '0');
            assert(s[i + 4] == hex_digit(hi) && s[i + 5] == hex_digit(lo));
            lemma_hex_digit_val(hi);
            lemma_hex_digit_val(lo);
            assert(hex_val('0') == 0);
            let v = hex_val(s[i + 2]) * 4096 + hex_val(s[i + 3]) * 256 + hex_val(s[i + 4]) * 16
                + hex_val(s[i + 5]);
            assert(v == hi * 16 + lo);
            assert(v == cu as int);
            assert(!(0xD800 <= v && v < 0xE000));
            assert((v as u32) == cu);
            vstd::utf8::char_u32_cast(c, cu);
            assert(((v as u32) as char) == c);
            assert(parse_str_body(s, i) == cons_parse(c, parse_str_body(s, i + 6)));
        } else {
            assert(e == seq![c]);
            lemma_char_at(s, i, i2, e, 0);
            assert(s[i] == c);
            assert(parse_str_body(s, i) == cons_parse(c, parse_str_body(s, i + 1)));
        }
    }
}

proof fn lemma_keys_plain()
    ensures
        escape_string("name"@) == "name"@,
        escape_string("path"@) == "path"@,
        "name"@.len() == 4,
        "path"@.len() == 4,
{
    reveal_strlit("name");
    reveal_strlit("path");
    assert forall|j: int| 0 <= j < "name"@.len() implies plain_char("name"@[j]) by {
        if j == 0 {
        } else if j == 1 {
        } else if j == 2 {
        } else {
            assert(j == 3);
        }
    }
    assert forall|j: int| 0 <= j < "path"@.len() implies plain_char("path"@[j]) by {
        if j == 0 {
        } else if j == 1 {
        } else if j == 2 {
        } else {
            assert(j == 3);
        }
    }
    lemma_escape_plain("name"@);
    lemma_escape_plain("path"@);
}

/// Stepping the object parser over one written entry: the entry starts two
/// characters into its block (after the item indent) and ends at its
/// closing brace.
#[verifier::rlimit(100)]
proof fn lemma_parse_entry(s: Seq<char>, i: int, a: AppView, j: int)
    requires
        0 <= i <= j <= s.len(),
        s.subrange(i, j) == emit_entry(a),
    ensures
        parse_obj(s, i + 2) == Some((a, j)),
{
    let m1 = "  {\n    \"name\": \""@;
    let m2 = "\",\n    \"path\": \""@;
    let m3 = "\"\n  }"@;
    reveal_strlit("  {\n    \"name\": \"");
    reveal_strlit("\",\n    \"path\": \"");
    reveal_strlit("\"\n  }");
    lemma_keys_plain();
    reveal_strlit("name");
    reveal_strlit("path");
    assert(m1.len() == 17);
    assert(m2.len() == 16);
    assert(m3.len() == 5);
    let en = escape_string(a.name);
    let ep = escape_string(a.path);
    let q1 = i + 17 + en.len() as int;
    let q2 = q1 + 16 + ep.len() as int;
    assert(emit_entry(a) == m1 + en + m2 + ep + m3);
    assert(j - i == emit_entry(a).len());
    assert(j == q2 + 5);
    lemma_split_concat(s, i, j, m1 + en + m2 + ep, m3);
    lemma_split_concat(s, i, q2, m1 + en + m2, ep);
    lemma_split_concat(s, i, q1 + 16, m1 + en, m2);
    lemma_split_concat(s, i, q1, m1, en);
    // the braces, quotes and separators stand where the writer put them
    lemma_char_at(s, i, i + 17, m1, 2);
    lemma_char_at(s, i, i + 17, m1, 3);
    lemma_char_at(s, i, i + 17, m1, 4);
    lemma_char_at(s, i, i + 17, m1, 5);
    lemma_char_at(s, i, i + 17, m1, 6);
    lemma_char_at(s, i, i + 17, m1, 7);
    lemma_char_at(s, i, i + 17, m1, 8);
    lemma_char_at(s, i, i + 17, m1, 13);
    lemma_char_at(s, i, i + 17, m1, 14);
    lemma_char_at(s, i, i + 17, m1, 15);
    lemma_char_at(s, i, i + 17, m1, 16);
    assert(s[i + 2] == '{');
    lemma_skip_ws_run(s, i + 3, i + 8);
    // the name key: its characters stand between the quotes
    assert(s.subrange(i + 9, i + 13) =~= "name"@) by {
        assert forall|k: int| 0 <= k < 4 implies s.subrange(i + 9, i + 13)[k] == "name"@[k] by {
            lemma_char_at(s, i, i + 17, m1, 9 + k);
            assert(s.subrange(i + 9, i + 13)[k] == s[i + 9 + k]);
        }
    }
    lemma_parse_escaped(s, i + 9, "name"@, i + 13);
    assert(parse_string_at(s, i + 8) == Some(("name"@, i + 14)));
    lemma_skip_ws_run(s, i + 14, i + 14);
    lemma_skip_ws_run(s, i + 15, i + 16);
    // the name value
    lemma_char_at(s, q1, q1 + 16, m2, 0);
    lemma_parse_escaped(s, i + 17, a.name, q1);
    assert(parse_string_at(s, i + 16) == Some((a.name, q1 + 1)));
    assert(parse_member(s, i + 8) == Some((("name"@, a.name), q1 + 1)));
    // the separating comma and the path member
    lemma_char_at(s, q1, q1 + 16, m2, 1);
    lemma_char_at(s, q1, q1 + 16, m2, 2);
    lemma_char_at(s, q1, q1 + 16, m2, 3);
    lemma_char_at(s, q1, q1 + 16, m2, 4);
    lemma_char_at(s, q1, q1 + 16, m2, 5);
    lemma_char_at(s, q1, q1 + 16, m2, 6);
    lemma_char_at(s, q1, q1 + 16, m2, 7);
    lemma_char_at(s, q1, q1 + 16, m2, 12);
    lemma_char_at(s, q1, q1 + 16, m2, 13);
    lemma_char_at(s, q1, q1 + 16, m2, 14);
    lemma_char_at(s, q1, q1 + 16, m2, 15);
    assert(s[q1 + 1] == ',');
    lemma_skip_ws_run(s, q1 + 1, q1 + 1);
    lemma_skip_ws_run(s, q1 + 2, q1 + 7);
    assert(s.subrange(q1 + 8, q1 + 12) =~= "path"@) by {
        assert forall|k: int| 0 <= k < 4 implies s.subrange(q1 + 8, q1 + 12)[k] == "path"@[
            k
        ] by {
            lemma_char_at(s, q1, q1 + 16, m2, 8 + k);
            assert(s.subrange(q1 + 8, q1 + 12)[k] == s[q1 + 8 + k]);
        }
    }
    lemma_parse_escaped(s, q1 + 8, "path"@, q1 + 12);
    assert(parse_string_at(s, q1 + 7) == Some(("path"@, q1 + 13)));
    lemma_skip_ws_run(s, q1 + 13, q1 + 13);
    lemma_skip_ws_run(s, q1 + 14, q1 + 15);
    // the path value and the closing brace
    lemma_char_at(s, q2, j, m3, 0);
    lemma_parse_escaped(s, q1 + 16, a.path, q2);
    assert(parse_string_at(s, q1 + 15) == Some((a.path, q2 + 1)));
    assert(parse_member(s, q1 + 7) == Some((("path"@, a.path), q2 + 1)));
    lemma_char_at(s, q2, j, m3, 1);
    lemma_char_at(s, q2, j, m3, 2);
    lemma_char_at(s, q2, j, m3, 3);
    lemma_char_at(s, q2, j, m3, 4);
    lemma_skip_ws_run(s, q2 + 1, q2 + 4);
    assert(s[q2 + 4] == '}');
    assert(AppView { name: a.name, path: a.path } =~= a);
    assert(parse_obj(s, i + 2) == Some((a, q2 + 5)));
}

proof fn lemma_emit_entries_front(apps: Seq<AppView>)
    requires
        apps.len() >= 1,
    ensures
        apps.len() == 1 ==> emit_entries(apps) == emit_entry(apps[0]),
        apps.len() > 1 ==> emit_entries(apps) == emit_entry(apps[0]) + ",\n"@ + emit_entries(
            apps.drop_first(),
        ),
    decreases apps.len(),
{
    if apps.len() > 1 {
        lemma_emit_entries_front(apps.drop_last());
        assert(apps.drop_last()[0] == apps[0]);
        if apps.len() == 2 {
            assert(apps.drop_last() =~= seq![apps[0]]);
            assert(apps.drop_first() =~= seq![apps[1]]);
            assert(apps.drop_first()[0] == apps[1]);
            assert(emit_entries(apps.drop_first()) == emit_entry(apps[1]));
            assert(emit_entries(apps) == emit_entry(apps[0]) + ",\n"@ + emit_entry(apps[1]));
        } else {
            assert(apps.drop_last().drop_first() =~= apps.drop_first().drop_last());
            assert(apps.drop_first().last() == apps.last());
            assert(emit_entries(apps) == (emit_entry(apps[0]) + ",\n"@ + emit_entries(
                apps.drop_last().drop_first(),
            )) + ",\n"@ + emit_entry(apps.last()));
            assert(emit_entries(apps.drop_first()) == emit_entries(apps.drop_first().drop_last())
                + ",\n"@ + emit_entry(apps.drop_first().last()));
            assert(emit_entries(apps) =~= emit_entry(apps[0]) + ",\n"@ + emit_entries(
                apps.drop_first(),
            ));
        }
    }
}

proof fn lemma_entries_opening(apps: Seq<AppView>)
    requires
        apps.len() >= 1,
    ensures
        emit_entries(apps).len() >= 17,
        emit_entries(apps)[0] == ' ',
        emit_entries(apps)[1] == ' ',
        emit_entries(apps)[2] == '{',
{
    lemma_emit_entries_front(apps);
    lemma_entry_opening(apps[0]);
    if apps.len() > 1 {
        let e0 = emit_entry(apps[0]);
        let rest = emit_entries(apps.drop_first());
        assert((e0 + ",\n"@)[0] == e0[0]);
        assert((e0 + ",\n"@ + rest)[0] == (e0 + ",\n"@)[0]);
        assert((e0 + ",\n"@)[1] == e0[1]);
        assert((e0 + ",\n"@ + rest)[1] == (e0 + ",\n"@)[1]);
        assert((e0 + ",\n"@)[2] == e0[2]);
        assert((e0 + ",\n"@ + rest)[2] == (e0 + ",\n"@)[2]);
    }
}

proof fn lemma_entry_opening(a: AppView)
    ensures
        emit_entry(a).len() >= 17,
        emit_entry(a)[0] == ' ',
        emit_entry(a)[1] == ' ',
        emit_entry(a)[2] == '{',
{
    let m1 = "  {\n    \"name\": \""@;
    reveal_strlit("  {\n    \"name\": \"");
    let e = emit_entry(a);
    let en = escape_string(a.name);
    let ep = escape_string(a.path);
    assert(e[0] == m1[0]) by {
        assert((m1 + en)[0] == m1[0]);
        assert((m1 + en + "\",\n    \"path\": \""@)[0] == (m1 + en)[0]);
        assert((m1 + en + "\",\n    \"path\": \""@ + ep)[0] == (m1 + en + "\",\n    \"path\": \""@)[0]);
        assert(e[0] == (m1 + en + "\",\n    \"path\": \""@ + ep)[0]);
    }
    assert(e[1] == m1[1]) by {
        assert((m1 + en)[1] == m1[1]);
        assert((m1 + en + "\",\n    \"path\": \""@)[1] == (m1 + en)[1]);
        assert((m1 + en + "\",\n    \"path\": \""@ + ep)[1] == (m1 + en + "\",\n    \"path\": \""@)[1]);
        assert(e[1] == (m1 + en + "\",\n    \"path\": \""@ + ep)[1]);
    }
    assert(e[2] == m1[2]) by {
        assert((m1 + en)[2] == m1[2]);
        assert((m1 + en + "\",\n    \"path\": \""@)[2] == (m1 + en)[2]);
        assert((m1 + en + "\",\n    \"path\": \""@ + ep)[2] == (m1 + en + "\",\n    \"path\": \""@)[2]);
        assert(e[2] == (m1 + en + "\",\n    \"path\": \""@ + ep)[2]);
    }
}

/// Stepping the item parser over the written entry list: the list starts
/// two characters into the first entry's block and ends at the last
/// entry's closing brace, where the array's closing line follows.
#[verifier::rlimit(100)]
proof fn lemma_parse_entries(s: Seq<char>, i: int, apps: Seq<AppView>, j: int)
    requires
        apps.len() >= 1,
        0 <= i <= j,
        j + 2 <= s.len(),
        s.subrange(i, j) == emit_entries(apps),
        s[j] == '\n',
        s[j + 1] == ']',
    ensures
        parse_items(s, i + 2) == Some((apps, j)),
    decreases apps.len(),
{
    lemma_emit_entries_front(apps);
    reveal_strlit(",\n");
    if apps.len() == 1 {
        lemma_parse_entry(s, i, apps[0], j);
        assert(!is_json_ws(s[j + 1]));
        lemma_skip_ws_run(s, j, j + 1);
        assert(skip_ws(s, j) == j + 1);
        assert(s[j + 1] != ',');
        assert(parse_items(s, i + 2) == Some((seq![apps[0]], j)));
        assert(seq![apps[0]] =~= apps);
    } else {
        let e0 = emit_entry(apps[0]);
        let j0 = i + e0.len() as int;
        let i1 = j0 + 2;
        assert(emit_entries(apps) == e0 + ",\n"@ + emit_entries(apps.drop_first()));
        assert((",\n"@).len() == 2);
        assert(s.subrange(i, j).len() == j - i);
        assert(j - i == e0.len() + 2 + emit_entries(apps.drop_first()).len());
        assert((e0 + ",\n"@).len() == e0.len() + 2);
        assert(i1 <= j);
        lemma_split_concat(s, i, j, e0 + ",\n"@, emit_entries(apps.drop_first()));
        assert(i + (e0 + ",\n"@).len() == i1);
        lemma_split_concat(s, i, i1, e0, ",\n"@);
        lemma_parse_entry(s, i, apps[0], j0);
        lemma_char_at(s, j0, i1, ",\n"@, 0);
        lemma_char_at(s, j0, i1, ",\n"@, 1);
        assert(s[j0] == ',');
        assert(s[j0 + 1] == '\n');
        lemma_skip_ws_run(s, j0, j0);
        lemma_parse_entries(s, i1, apps.drop_first(), j);
        // the next entry opens with its two-space indent, then its brace
        lemma_entries_opening(apps.drop_first());
        lemma_char_at(s, i1, j, emit_entries(apps.drop_first()), 0);
        lemma_char_at(s, i1, j, emit_entries(apps.drop_first()), 1);
        lemma_char_at(s, i1, j, emit_entries(apps.drop_first()), 2);
        assert(s[i1] == ' ' && s[i1 + 1] == ' ' && s[i1 + 2] == '{');
        lemma_skip_ws_run(s, j0 + 1, i1 + 2);
        assert(parse_items(s, i1 + 2) == Some((apps.drop_first(), j)));
        assert(parse_items(s, i + 2) == Some((seq![apps[0]] + apps.drop_first(), j)));
        assert(seq![apps[0]] + apps.drop_first() =~= apps);
    }
}

#[verifier::rlimit(100)]
proof fn lemma_doc_shape(apps: Seq<AppView>)
    requires
        apps.len() >= 1,
    ensures
        ({
            let s = emit_registry(apps);
            let jb = 2 + emit_entries(apps).len() as int;
            &&& s.len() == jb + 2
            &&& s[0] == '[' && s[1] == '\n'
            &&& s[2] == ' ' && s[3] == ' ' && s[4] == '{'
            &&& s[jb] == '\n' && s[jb + 1] == ']'
            &&& s.subrange(2, jb) == emit_entries(apps)
        }),
{
    let s = emit_registry(apps);
    reveal_strlit("[\n");
    reveal_strlit("\n]");
    let body = emit_entries(apps);
    assert(s == "[\n"@ + body + "\n]"@);
    let jb = 2 + body.len() as int;
    assert(s.len() == jb + 2);
    assert(s.subrange(0, s.len() as int) =~= s);
    lemma_split_concat(s, 0, s.len() as int, "[\n"@ + body, "\n]"@);
    lemma_split_concat(s, 0, jb, "[\n"@, body);
    lemma_char_at(s, 0, 2, "[\n"@, 0);
    lemma_char_at(s, 0, 2, "[\n"@, 1);
    lemma_char_at(s, jb, s.len() as int, "\n]"@, 0);
    lemma_char_at(s, jb, s.len() as int, "\n]"@, 1);
    lemma_entries_opening(apps);
    lemma_char_at(s, 2, jb, body, 0);
    lemma_char_at(s, 2, jb, body, 1);
    lemma_char_at(s, 2, jb, body, 2);
}

proof fn lemma_assemble_doc(s: Seq<char>, apps: Seq<AppView>, jb: int)
    requires
        4 < jb,
        jb + 2 == s.len(),
        skip_ws(s, 0) == 0,
        s[0] == '[',
        skip_ws(s, 1) == 4,
        s[4] == '{',
        parse_items(s, 4) == Some((apps, jb)),
        skip_ws(s, jb) == jb + 1,
        s[jb + 1] == ']',
        skip_ws(s, jb + 2) == s.len(),
    ensures
        parse_registry_text(s) == Some(apps),
{
}

proof fn lemma_round_trip_steps(s: Seq<char>, apps: Seq<AppView>, jb: int)
    requires
        apps.len() >= 1,
        4 < jb,
        jb + 2 == s.len(),
        s[0] == '[',
        s[1] == '\n',
        s[2] == ' ',
        s[3] == ' ',
        s[4] == '{',
        s[jb] == '\n',
        s[jb + 1] == ']',
        s.subrange(2, jb) == emit_entries(apps),
    ensures
        parse_registry_text(s) == Some(apps),
{
    lemma_skip_ws_run(s, 0, 0);
    lemma_skip_ws_run(s, 1, 4);
    lemma_parse_entries(s, 2, apps, jb);
    lemma_skip_ws_run(s, jb, jb + 1);
    lemma_skip_ws_run(s, jb + 2, jb + 2);
    lemma_assemble_doc(s, apps, jb);
}

#[verifier::rlimit(100)]
proof fn lemma_round_trip_nonempty(apps: Seq<AppView>)
    requires
        apps.len() >= 1,
    ensures
        parse_registry_text(emit_registry(apps)) == Some(apps),
{
    lemma_doc_shape(apps);
    lemma_entries_opening(apps);
    lemma_round_trip_steps(
        emit_registry(apps),
        apps,
        2 + emit_entries(apps).len() as int,
    );
}

/// Saving what was loaded rewrites the very same state: a normalized
/// registry's file text re-parses to the identical entries, and
/// re-normalizing them changes nothing, so the next save emits the same
/// bytes.
pub proof fn lemma_save_after_load_stable(entries: Seq<AppView>)
    ensures
        parse_registry_text(emit_registry(crate::apps::normalize(entries))) == Some(
            crate::apps::normalize(entries),
        ),
        crate::apps::normalize(crate::apps::normalize(entries)) == crate::apps::normalize(entries),
{
    lemma_registry_round_trip(crate::apps::normalize(entries));
    crate::apps::lemma_normalize_idempotent(entries);
}

/// The round trip of the registry file: what the writer emits, the parser
/// reads back unchanged, whatever the entries hold.
pub proof fn lemma_registry_round_trip(apps: Seq<AppView>)
    ensures
        parse_registry_text(emit_registry(apps)) == Some(apps),
{
    let s = emit_registry(apps);
    if apps.len() == 0 {
        reveal_strlit("[]");
        assert(s.len() == 2);
        assert(s[0] == '[' && s[1] == ']');
        lemma_skip_ws_run(s, 0, 0);
        lemma_skip_ws_run(s, 1, 1);
        lemma_skip_ws_run(s, 2, 2);
        assert(parse_registry_text(s) == Some(Seq::<AppView>::empty()));
        assert(Seq::<AppView>::empty() =~= apps);
    } else {
        lemma_round_trip_nonempty(apps);
    }
}

} // verus!
