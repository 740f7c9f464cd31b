//! The wire format of the secret blob: a JSON object whose values are all
//! strings. `encode_object` produces the canonical compact text; the parser
//! accepts any such object with JSON whitespace and the standard string
//! escapes, surrogate pairs included. A second grammar, the record object,
//! additionally admits members whose values are JSON values of other kinds,
//! walking them without keeping them.

use vstd::prelude::*;
use vstd::string::StrSliceExecFns;

verus! {

/// One JSON hexadecimal digit, lower case, for `n < 16`.
pub open spec fn hex_digit(n: u32) -> char
    recommends
        n < 16,
{
    if n < 10 {
        (((n + 48) as u8) as char)
    } else {
        (((n + 87) as u8) as char)
    }
}

/// How one character appears inside a JSON string literal: quote and
/// backslash are escaped, control characters take the `\u00XX` form, and
/// everything else stands for itself.
pub open spec fn escape_char(c: char) -> Seq<char> {
    if c == '"' {
        seq!['\\', '"']
    } else if c == '\\' {
        seq!['\\', '\\']
    } else if (c as u32) < 0x20 {
        seq!['\\', 'u', '0', '0', hex_digit((c as u32) / 16), hex_digit((c as u32) % 16)]
    } else {
        seq![c]
    }
}

/// The body of a JSON string literal for the character sequence `s`.
pub open spec fn escape_str(s: Seq<char>) -> Seq<char>
    decreases s.len(),
{
    if s.len() == 0 {
        Seq::empty()
    } else {
        escape_char(s[0]) + escape_str(s.drop_first())
    }
}

/// The full JSON string literal for `s`, quotes included.
pub open spec fn quoted(s: Seq<char>) -> Seq<char> {
    seq!['"'] + escape_str(s) + seq!['"']
}

/// The canonical text of one member: `"key":"value"`.
pub open spec fn encode_entry(e: (Seq<char>, Seq<char>)) -> Seq<char> {
    quoted(e.0) + seq![':'] + quoted(e.1)
}

/// The canonical comma-separated member list.
pub open spec fn encode_entries(es: Seq<(Seq<char>, Seq<char>)>) -> Seq<char>
    decreases es.len(),
{
    if es.len() == 0 {
        Seq::empty()
    } else if es.len() == 1 {
        encode_entry(es[0])
    } else {
        encode_entry(es[0]) + seq![','] + encode_entries(es.drop_first())
    }
}

/// The canonical compact JSON object text for the given members, in order.
pub open spec fn encode_object(es: Seq<(Seq<char>, Seq<char>)>) -> Seq<char> {
    seq!['{'] + encode_entries(es) + seq!['}']
}

/// The pretty text of one member, indented two spaces: `  "key": "value"`.
pub open spec fn encode_entry_pretty(e: (Seq<char>, Seq<char>)) -> Seq<char> {
    seq![' ', ' '] + quoted(e.0) + seq![':', ' '] + quoted(e.1)
}

/// The pretty member list, one member per line.
pub open spec fn encode_entries_pretty(es: Seq<(Seq<char>, Seq<char>)>) -> Seq<char>
    decreases es.len(),
{
    if es.len() == 0 {
        Seq::empty()
    } else if es.len() == 1 {
        encode_entry_pretty(es[0])
    } else {
        encode_entry_pretty(es[0]) + seq![',', '\n'] + encode_entries_pretty(es.drop_first())
    }
}

/// The pretty JSON object text for the given members, in order: an empty
/// object stays on one line, any other puts each member on a line of its
/// own.
pub open spec fn encode_object_pretty(es: Seq<(Seq<char>, Seq<char>)>) -> Seq<char> {
    if es.len() == 0 {
        seq!['{', '}']
    } else {
        seq!['{', '\n'] + encode_entries_pretty(es) + seq!['\n', '}']
    }
}

/// JSON whitespace.
pub open spec fn is_ws(c: char) -> bool {
    c == ' ' || c == '\t' || c == '\n' || c == '\r'
}

/// The first position at or after `i` that does not hold whitespace.
pub open spec fn skip_ws(s: Seq<char>, i: nat) -> nat
    decreases s.len() - i,
{
    if i < s.len() && is_ws(s[i as int]) {
        skip_ws(s, (i + 1) as nat)
    } else {
        i
    }
}

/// The value of a hexadecimal digit character, if it is one.
pub open spec fn hex_val(c: char) -> Option<u32> {
    let n = c as u32;
    if 48 <= n && n <= 57 {
        Some((n - 48) as u32)
    } else if 97 <= n && n <= 102 {
        Some((n - 87) as u32)
    } else if 65 <= n && n <= 70 {
        Some((n - 55) as u32)
    } else {
        None
    }
}

/// The character named by a single-letter escape, if the letter is one of
/// the JSON short escapes.
pub open spec fn unescape_short(e: char) -> Option<char> {
    if e == '"' {
        Some('"')
    } else if e == '\\' {
        Some('\\')
    } else if e == '/' {
        Some('/')
    } else if e == 'b' {
        Some('\u{0008}')
    } else if e == 'f' {
        Some('\u{000C}')
    } else if e == 'n' {
        Some('\n')
    } else if e == 'r' {
        Some('\r')
    } else if e == 't' {
        Some('\t')
    } else {
        None
    }
}

/// Decodes one `\uXXXX` escape, `i` standing at the first hex digit: a
/// Unicode scalar stands alone; a leading surrogate must pair with a
/// trailing `\uXXXX` surrogate, the two naming one supplementary
/// character. On success: the character and the position after the digits.
#[verifier::opaque]
pub open spec fn parse_unicode_escape(s: Seq<char>, i: nat) -> Option<(char, nat)> {
    if i + 4 > s.len() {
        None
    } else {
        let h3 = hex_val(s[i as int]);
        let h2 = hex_val(s[i as int + 1]);
        let h1 = hex_val(s[i as int + 2]);
        let h0 = hex_val(s[i as int + 3]);
        if h3 is Some && h2 is Some && h1 is Some && h0 is Some {
            let code = (h3->0 * 4096 + h2->0 * 256 + h1->0 * 16 + h0->0) as u32;
            if vstd::utf8::is_scalar(code) {
                Some((code as char, (i + 4) as nat))
            } else if 0xD800 <= code && code < 0xDC00 {
                if i + 10 > s.len() || s[i as int + 4] != '\\' || s[i as int + 5] != 'u' {
                    None
                } else {
                    let g3 = hex_val(s[i as int + 6]);
                    let g2 = hex_val(s[i as int + 7]);
                    let g1 = hex_val(s[i as int + 8]);
                    let g0 = hex_val(s[i as int + 9]);
                    if g3 is Some && g2 is Some && g1 is Some && g0 is Some {
                        let code2 = (g3->0 * 4096 + g2->0 * 256 + g1->0 * 16 + g0->0) as u32;
                        if 0xDC00 <= code2 && code2 < 0xE000 {
                            let combined = (0x10000 + (code - 0xD800) * 0x400 + (code2
                                - 0xDC00)) as u32;
                            Some((combined as char, (i + 10) as nat))
                        } else {
                            None
                        }
                    } else {
                        None
                    }
                }
            } else {
                None
            }
        } else {
            None
        }
    }
}

/// A decoded escape consumes at least its four digits and stays inside the
/// text.
pub proof fn lemma_parse_unicode_escape_bounds(s: Seq<char>, i: nat)
    ensures
        parse_unicode_escape(s, i) is Some ==> i + 4 <= (parse_unicode_escape(s, i)->0).1
            <= s.len(),
{
    reveal(parse_unicode_escape);
}

/// Parses the rest of a JSON string literal, `i` standing just after the
/// opening quote. On success: the decoded characters and the position just
/// after the closing quote.
pub open spec fn parse_string_rest(s: Seq<char>, i: nat) -> Option<(Seq<char>, nat)>
    decreases s.len() - i,
        via parse_string_rest_dec
{
    if i >= s.len() {
        None
    } else {
        let c = s[i as int];
        if c == '"' {
            Some((Seq::empty(), (i + 1) as nat))
        } else if c == '\\' {
            if i + 1 >= s.len() {
                None
            } else {
                let e = s[i as int + 1];
                if e == 'u' {
                    match parse_unicode_escape(s, (i + 2) as nat) {
                        None => None,
                        Some((ch, k)) => match parse_string_rest(s, k) {
                            None => None,
                            Some((cs, j)) => Some((seq![ch] + cs, j)),
                        },
                    }
                } else {
                    match unescape_short(e) {
                        None => None,
                        Some(u) => match parse_string_rest(s, (i + 2) as nat) {
                            None => None,
                            Some((cs, j)) => Some((seq![u] + cs, j)),
                        },
                    }
                }
            }
        } else if (c as u32) < 0x20 {
            None
        } else {
            match parse_string_rest(s, (i + 1) as nat) {
                None => None,
                Some((cs, j)) => Some((seq![c] + cs, j)),
            }
        }
    }
}

#[via_fn]
proof fn parse_string_rest_dec(s: Seq<char>, i: nat) {
    lemma_parse_unicode_escape_bounds(s, (i + 2) as nat);
}

/// `skip_ws` never moves backwards, and stays inside the text.
pub proof fn lemma_skip_ws_bounds(s: Seq<char>, i: nat)
    ensures
        i <= skip_ws(s, i),
        i <= s.len() ==> skip_ws(s, i) <= s.len(),
    decreases s.len() - i,
{
    if i < s.len() && is_ws(s[i as int]) {
        lemma_skip_ws_bounds(s, (i + 1) as nat);
    }
}

/// A successful string parse always moves forward and ends inside the text.
pub proof fn lemma_parse_string_rest_bounds(s: Seq<char>, i: nat)
    ensures
        parse_string_rest(s, i) is Some ==> i < (parse_string_rest(s, i)->0).1 <= s.len(),
    decreases s.len() - i,
{
    if i < s.len() {
        let c = s[i as int];
        if c == '"' {
        } else if c == '\\' {
            if i + 1 < s.len() {
                if s[i as int + 1] == 'u' {
                    lemma_parse_unicode_escape_bounds(s, (i + 2) as nat);
                    if parse_unicode_escape(s, (i + 2) as nat) is Some {
                        lemma_parse_string_rest_bounds(
                            s,
                            (parse_unicode_escape(s, (i + 2) as nat)->0).1,
                        );
                    }
                } else {
                    lemma_parse_string_rest_bounds(s, (i + 2) as nat);
                }
            }
        } else {
            lemma_parse_string_rest_bounds(s, (i + 1) as nat);
        }
    }
}

/// Parses object members from position `i` (just after `{` or `,`) through
/// the closing brace. On success: the members in textual order and the
/// position just after the closing brace.
pub open spec fn parse_members(s: Seq<char>, i: nat) -> Option<
    (Seq<(Seq<char>, Seq<char>)>, nat),
>
    decreases s.len() - i,
        via parse_members_dec
{
    let j = skip_ws(s, i);
    if j >= s.len() || s[j as int] != '"' {
        None
    } else {
        match parse_string_rest(s, (j + 1) as nat) {
            None => None,
            Some((k, j1)) => {
                let j2 = skip_ws(s, j1);
                if j2 >= s.len() || s[j2 as int] != ':' {
                    None
                } else {
                    let j3 = skip_ws(s, (j2 + 1) as nat);
                    if j3 >= s.len() || s[j3 as int] != '"' {
                        None
                    } else {
                        match parse_string_rest(s, (j3 + 1) as nat) {
                            None => None,
                            Some((v, j4)) => {
                                let j5 = skip_ws(s, j4);
                                if j5 >= s.len() {
                                    None
                                } else if s[j5 as int] == '}' {
                                    Some((seq![(k, v)], (j5 + 1) as nat))
                                } else if s[j5 as int] == ',' {
                                    match parse_members(s, (j5 + 1) as nat) {
                                        None => None,
                                        Some((es, j6)) => Some((seq![(k, v)] + es, j6)),
                                    }
                                } else {
                                    None
                                }
                            },
                        }
                    }
                }
            },
        }
    }
}

#[via_fn]
proof fn parse_members_dec(s: Seq<char>, i: nat) {
    lemma_skip_ws_bounds(s, i);
    let j = skip_ws(s, i);
    if j < s.len() && s[j as int] == '"' {
        lemma_parse_string_rest_bounds(s, (j + 1) as nat);
        if parse_string_rest(s, (j + 1) as nat) is Some {
            let (k, j1) = parse_string_rest(s, (j + 1) as nat)->0;
            lemma_skip_ws_bounds(s, j1);
            let j2 = skip_ws(s, j1);
            if j2 < s.len() && s[j2 as int] == ':' {
                lemma_skip_ws_bounds(s, (j2 + 1) as nat);
                let j3 = skip_ws(s, (j2 + 1) as nat);
                if j3 < s.len() && s[j3 as int] == '"' {
                    lemma_parse_string_rest_bounds(s, (j3 + 1) as nat);
                    if parse_string_rest(s, (j3 + 1) as nat) is Some {
                        let (v, j4) = parse_string_rest(s, (j3 + 1) as nat)->0;
                        lemma_skip_ws_bounds(s, j4);
                    }
                }
            }
        }
    }
}

/// A successful member parse moves forward and ends inside the text.
pub proof fn lemma_parse_members_bounds(s: Seq<char>, i: nat)
    ensures
        parse_members(s, i) is Some ==> i < (parse_members(s, i)->0).1 <= s.len(),
    decreases s.len() - i,
{
    lemma_skip_ws_bounds(s, i);
    let j = skip_ws(s, i);
    if j < s.len() && s[j as int] == '"' {
        lemma_parse_string_rest_bounds(s, (j + 1) as nat);
        if parse_string_rest(s, (j + 1) as nat) is Some {
            let (k, j1) = parse_string_rest(s, (j + 1) as nat)->0;
            lemma_skip_ws_bounds(s, j1);
            let j2 = skip_ws(s, j1);
            if j2 < s.len() && s[j2 as int] == ':' {
                lemma_skip_ws_bounds(s, (j2 + 1) as nat);
                let j3 = skip_ws(s, (j2 + 1) as nat);
                if j3 < s.len() && s[j3 as int] == '"' {
                    lemma_parse_string_rest_bounds(s, (j3 + 1) as nat);
                    if parse_string_rest(s, (j3 + 1) as nat) is Some {
                        let (v, j4) = parse_string_rest(s, (j3 + 1) as nat)->0;
                        lemma_skip_ws_bounds(s, j4);
                        let j5 = skip_ws(s, j4);
                        if j5 < s.len() && s[j5 as int] == ',' {
                            lemma_parse_members_bounds(s, (j5 + 1) as nat);
                        }
                    }
                }
            }
        }
    }
}

/// Parses a complete text as a JSON object of strings: optional leading and
/// trailing whitespace, one object, nothing else.
pub open spec fn parse_object(s: Seq<char>) -> Option<Seq<(Seq<char>, Seq<char>)>> {
    let i = skip_ws(s, 0);
    if i >= s.len() || s[i as int] != '{' {
        None
    } else {
        let j = skip_ws(s, (i + 1) as nat);
        if j < s.len() && s[j as int] == '}' {
            if skip_ws(s, (j + 1) as nat) == s.len() {
                Some(Seq::empty())
            } else {
                None
            }
        } else {
            match parse_members(s, (i + 1) as nat) {
                None => None,
                Some((es, j2)) => {
                    if skip_ws(s, j2) == s.len() {
                        Some(es)
                    } else {
                        None
                    }
                },
            }
        }
    }
}

/// `encode_entries` over a member list grown by one member.
pub proof fn lemma_encode_entries_snoc(es: Seq<(Seq<char>, Seq<char>)>, e: (Seq<char>, Seq<char>))
    ensures
        es.len() == 0 ==> encode_entries(es.push(e)) == encode_entry(e),
        es.len() > 0 ==> encode_entries(es.push(e)) == encode_entries(es) + seq![',']
            + encode_entry(e),
    decreases es.len(),
{
    if es.len() == 0 {
        assert(es.push(e)[0] == e);
    } else {
        assert(es.push(e)[0] == es[0]);
        assert(es.push(e).drop_first() =~= es.drop_first().push(e));
        lemma_encode_entries_snoc(es.drop_first(), e);
        if es.len() == 1 {
            assert(encode_entries(es.push(e)) =~= encode_entries(es) + seq![',']
                + encode_entry(e));
        } else {
            assert(encode_entries(es) + seq![','] + encode_entry(e) =~= encode_entry(es[0])
                + seq![','] + (encode_entries(es.drop_first()) + seq![','] + encode_entry(e)));
        }
    }
}

/// `encode_entries_pretty` over a member list grown by one member.
pub proof fn lemma_encode_entries_pretty_snoc(
    es: Seq<(Seq<char>, Seq<char>)>,
    e: (Seq<char>, Seq<char>),
)
    ensures
        es.len() == 0 ==> encode_entries_pretty(es.push(e)) == encode_entry_pretty(e),
        es.len() > 0 ==> encode_entries_pretty(es.push(e)) == encode_entries_pretty(es) + seq![
            ',',
            '\n',
        ] + encode_entry_pretty(e),
    decreases es.len(),
{
    if es.len() == 0 {
        assert(es.push(e)[0] == e);
    } else {
        assert(es.push(e)[0] == es[0]);
        assert(es.push(e).drop_first() =~= es.drop_first().push(e));
        lemma_encode_entries_pretty_snoc(es.drop_first(), e);
        if es.len() == 1 {
            assert(encode_entries_pretty(es.push(e)) =~= encode_entries_pretty(es) + seq![
                ',',
                '\n',
            ] + encode_entry_pretty(e));
        } else {
            assert(encode_entries_pretty(es) + seq![',', '\n'] + encode_entry_pretty(e)
                =~= encode_entry_pretty(es[0]) + seq![',', '\n'] + (encode_entries_pretty(
                es.drop_first(),
            ) + seq![',', '\n'] + encode_entry_pretty(e)));
        }
    }
}

/// An index that falls in the second half of a concatenation.
proof fn lemma_index_after(a: Seq<char>, b: Seq<char>, d: int)
    requires
        0 <= d < b.len(),
    ensures
        (a + b)[a.len() + d] == b[d],
{
}

/// A hexadecimal digit character decodes back to its value.
proof fn lemma_hex_digit_val(n: u32)
    requires
        n < 16,
    ensures
        hex_val(hex_digit(n)) == Some(n),
{
    if n < 10 {
        vstd::utf8::char_u32_cast(hex_digit(n), (n + 48) as u32);
    } else {
        vstd::utf8::char_u32_cast(hex_digit(n), (n + 87) as u32);
    }
}

/// A canonical string literal body parses back to exactly its contents:
/// starting just after the opening quote, the parser consumes the escaped
/// text and the closing quote and returns the unescaped characters.
#[verifier::rlimit(100)]
pub proof fn lemma_parse_string_rest_canon(pre: Seq<char>, k: Seq<char>, post: Seq<char>)
    ensures
        parse_string_rest(pre + escape_str(k) + seq!['"'] + post, pre.len()) == Some(
            (k, (pre.len() + escape_str(k).len() + 1) as nat),
        ),
    decreases k.len(),
{
    reveal(parse_unicode_escape);
    let s = pre + escape_str(k) + seq!['"'] + post;
    let i = pre.len() as int;
    if k.len() == 0 {
        assert(s[i] == '"') by {
            lemma_index_after(pre, escape_str(k) + seq!['"'] + post, 0);
            assert(s =~= pre + (escape_str(k) + seq!['"'] + post));
            assert((escape_str(k) + seq!['"'] + post)[0] == '"');
        }
        assert(Seq::<char>::empty() =~= k);
    } else {
        let c = k[0];
        let kd = k.drop_first();
        let ec = escape_char(c);
        let pre2 = pre + ec;
        assert(s =~= pre2 + escape_str(kd) + seq!['"'] + post);
        lemma_parse_string_rest_canon(pre2, kd, post);
        assert(forall|d: int| 0 <= d < ec.len() ==> s[i + d] == ec[d]) by {
            assert(s =~= pre + (ec + (escape_str(kd) + seq!['"'] + post)));
            assert forall|d: int| 0 <= d < ec.len() implies s[i + d] == ec[d] by {
                lemma_index_after(pre, ec + (escape_str(kd) + seq!['"'] + post), d);
            }
        }
        assert(seq![c] + kd =~= k);
        if c == '"' {
            assert(s[i] == '\\' && s[i + 1] == '"');
            assert(seq!['"'] + kd =~= k);
        } else if c == '\\' {
            assert(s[i] == '\\' && s[i + 1] == '\\');
            assert(seq!['\\'] + kd =~= k);
        } else if (c as u32) < 0x20 {
            let u = c as u32;
            assert(s[i] == '\\' && s[i + 1] == 'u' && s[i + 2] == '0' && s[i + 3] == '0');
            assert(s[i + 4] == hex_digit(u / 16) && s[i + 5] == hex_digit(u % 16));
            lemma_hex_digit_val(u / 16);
            lemma_hex_digit_val(u % 16);
            assert(hex_val(s[i + 2]) == Some(0u32)) by {
                vstd::utf8::char_u32_cast('0', 48);
            }
            assert((u / 16) * 16 + u % 16 == u) by {
                vstd::arithmetic::div_mod::lemma_fundamental_div_mod(u as int, 16);
            }
            assert(vstd::utf8::is_scalar(u));
            vstd::utf8::char_u32_cast(c, u);
        } else {
            assert(s[i] == c);
        }
    }
}

/// Parsing at the start of one canonical member: the parser finds the key
/// string, the colon, and the value string, ending just after the member.
#[verifier::rlimit(100)]
proof fn lemma_parse_entry_canon(pre: Seq<char>, e: (Seq<char>, Seq<char>), after: Seq<char>)
    ensures
        ({
            let s = pre + encode_entry(e) + after;
            let i = pre.len() as int;
            let j1 = i + quoted(e.0).len();
            let j4 = i + encode_entry(e).len();
            &&& s[i] == '"'
            &&& skip_ws(s, pre.len()) == pre.len()
            &&& parse_string_rest(s, (i + 1) as nat) == Some((e.0, j1 as nat))
            &&& s[j1] == ':'
            &&& skip_ws(s, j1 as nat) == j1
            &&& s[j1 + 1] == '"'
            &&& skip_ws(s, (j1 + 1) as nat) == j1 + 1
            &&& parse_string_rest(s, (j1 + 2) as nat) == Some((e.1, j4 as nat))
        }),
{
    let s = pre + encode_entry(e) + after;
    let i = pre.len() as int;
    let k = e.0;
    let v = e.1;
    assert(encode_entry(e) =~= seq!['"'] + escape_str(k) + (seq!['"', ':', '"'] + escape_str(v)
        + seq!['"']));
    assert(s[i] == '"') by {
        assert(s =~= pre + (encode_entry(e) + after));
        lemma_index_after(pre, encode_entry(e) + after, 0);
        assert((encode_entry(e) + after)[0] == '"');
    }
    assert(skip_ws(s, pre.len()) == pre.len());
    let pre_k = pre + seq!['"'];
    let post_k = seq![':'] + (seq!['"'] + escape_str(v) + seq!['"']) + after;
    assert(s =~= pre_k + escape_str(k) + seq!['"'] + post_k);
    lemma_parse_string_rest_canon(pre_k, k, post_k);
    let j1 = i + quoted(k).len();
    assert(parse_string_rest(s, (i + 1) as nat) == Some((k, j1 as nat)));
    let pre_c = pre + quoted(k);
    assert(s =~= pre_c + (seq![':', '"'] + (escape_str(v) + seq!['"'] + after)));
    assert(s[j1] == ':' && s[j1 + 1] == '"') by {
        lemma_index_after(pre_c, seq![':', '"'] + (escape_str(v) + seq!['"'] + after), 0);
        lemma_index_after(pre_c, seq![':', '"'] + (escape_str(v) + seq!['"'] + after), 1);
        assert(pre_c.len() == j1);
    }
    assert(skip_ws(s, j1 as nat) == j1);
    assert(skip_ws(s, (j1 + 1) as nat) == j1 + 1);
    let pre_v = pre_c + seq![':', '"'];
    assert(s =~= pre_v + escape_str(v) + seq!['"'] + after);
    lemma_parse_string_rest_canon(pre_v, v, after);
    let j4 = i + encode_entry(e).len();
    assert(parse_string_rest(s, (j1 + 2) as nat) == Some((v, j4 as nat)));
}

/// A single canonical member followed by a closing brace parses back to
/// exactly that member, ending just after the brace.
#[verifier::rlimit(100)]
#[verifier::spinoff_prover]
proof fn lemma_parse_members_canon_last(pre: Seq<char>, e: (Seq<char>, Seq<char>), post: Seq<char>)
    ensures
        parse_members(pre + encode_entry(e) + seq!['}'] + post, pre.len()) == Some(
            (seq![e], (pre.len() + encode_entry(e).len() + 1) as nat),
        ),
{
    let s = pre + encode_entry(e) + seq!['}'] + post;
    let after = seq!['}'] + post;
    assert(s =~= pre + encode_entry(e) + after);
    lemma_parse_entry_canon(pre, e, after);
    let i = pre.len() as int;
    let j4 = i + encode_entry(e).len();
    let pre_e = pre + encode_entry(e);
    assert(s =~= pre_e + (seq!['}'] + post));
    assert(s[j4] == '}') by {
        lemma_index_after(pre_e, seq!['}'] + post, 0);
    }
    assert(skip_ws(s, j4 as nat) == j4);
    assert((e.0, e.1) == e);
}

/// A canonical member list followed by a closing brace parses back to
/// exactly those members, ending just after the brace.
#[verifier::rlimit(100)]
#[verifier::spinoff_prover]
pub proof fn lemma_parse_members_canon(
    pre: Seq<char>,
    es: Seq<(Seq<char>, Seq<char>)>,
    post: Seq<char>,
)
    requires
        es.len() > 0,
    ensures
        parse_members(pre + encode_entries(es) + seq!['}'] + post, pre.len()) == Some(
            (es, (pre.len() + encode_entries(es).len() + 1) as nat),
        ),
    decreases es.len(),
{
    if es.len() == 1 {
        lemma_parse_members_canon_last(pre, es[0], post);
        assert(encode_entries(es) == encode_entry(es[0]));
        assert(seq![es[0]] =~= es);
    } else {
        let s = pre + encode_entries(es) + seq!['}'] + post;
        let i = pre.len() as int;
        let k = es[0].0;
        let v = es[0].1;
        let tail: Seq<char> = seq![','] + encode_entries(es.drop_first());
        assert(encode_entries(es) + seq!['}'] + post =~= encode_entry(es[0]) + (tail + seq!['}']
            + post));
        let after = tail + seq!['}'] + post;
        assert(s =~= pre + encode_entry(es[0]) + after);
        lemma_parse_entry_canon(pre, es[0], after);
        let j4 = i + encode_entry(es[0]).len();
        let pre_e = pre + encode_entry(es[0]);
        assert(s =~= pre_e + (seq![','] + (encode_entries(es.drop_first()) + seq!['}'] + post)));
        assert(s[j4] == ',') by {
            lemma_index_after(
                pre_e,
                seq![','] + (encode_entries(es.drop_first()) + seq!['}'] + post),
                0,
            );
        }
        assert(skip_ws(s, j4 as nat) == j4);
        let pre_r = pre_e + seq![','];
        assert(s =~= pre_r + encode_entries(es.drop_first()) + seq!['}'] + post);
        lemma_parse_members_canon(pre_r, es.drop_first(), post);
        assert(parse_members(s, (j4 + 1) as nat) == Some(
            (es.drop_first(), (pre_r.len() + encode_entries(es.drop_first()).len() + 1) as nat),
        ));
        assert(seq![(k, v)] + es.drop_first() =~= es);
        assert(encode_entries(es) =~= encode_entry(es[0]) + seq![','] + encode_entries(
            es.drop_first(),
        ));
    }
}

/// Round trip of the object text: the canonical encoding of any member list
/// parses back to exactly that list.
pub proof fn lemma_parse_encode_object(es: Seq<(Seq<char>, Seq<char>)>)
    ensures
        parse_object(encode_object(es)) == Some(es),
{
    let s = encode_object(es);
    assert(s[0] == '{');
    assert(skip_ws(s, 0) == 0);
    if es.len() == 0 {
        assert(s =~= seq!['{', '}']);
        assert(s[1] == '}');
        assert(skip_ws(s, 1) == 1);
        assert(skip_ws(s, 2) == 2);
        assert(Seq::<(Seq<char>, Seq<char>)>::empty() =~= es);
    } else {
        let pre = seq!['{'];
        assert(s =~= pre + encode_entries(es) + seq!['}'] + Seq::<char>::empty());
        lemma_parse_members_canon(pre, es, Seq::empty());
        let j2 = 1 + encode_entries(es).len() + 1;
        assert(parse_members(s, 1) == Some((es, j2 as nat)));
        assert(j2 == s.len());
        assert(skip_ws(s, j2 as nat) == j2);
        // the first character after `{` opens the first key, so the
        // empty-object branch is not taken
        assert(s[1] == '"') by {
            assert(encode_entries(es)[0] == '"') by {
                assert(encode_entry(es[0])[0] == '"');
            }
            lemma_index_after(pre, encode_entries(es) + seq!['}'] + Seq::<char>::empty(), 0);
            assert(s =~= pre + (encode_entries(es) + seq!['}'] + Seq::<char>::empty()));
        }
        assert(skip_ws(s, 1) == 1);
    }
}

/// An ASCII decimal digit.
pub open spec fn is_digit(c: char) -> bool {
    48 <= c as u32 && c as u32 <= 57
}

/// The first position at or after `i` that does not hold a digit.
pub open spec fn skip_digits(s: Seq<char>, i: nat) -> nat
    decreases s.len() - i,
{
    if i < s.len() && is_digit(s[i as int]) {
        skip_digits(s, (i + 1) as nat)
    } else {
        i
    }
}

/// `skip_digits` never moves backwards, and stays inside the text.
pub proof fn lemma_skip_digits_bounds(s: Seq<char>, i: nat)
    ensures
        i <= skip_digits(s, i),
        i <= s.len() ==> skip_digits(s, i) <= s.len(),
    decreases s.len() - i,
{
    if i < s.len() && is_digit(s[i as int]) {
        lemma_skip_digits_bounds(s, (i + 1) as nat);
    }
}

/// The end of the exponent part of a JSON number, where one stands at `i`;
/// `i` itself where none does.
pub open spec fn parse_exp_end(s: Seq<char>, i: nat) -> Option<nat> {
    if i < s.len() && (s[i as int] == 'e' || s[i as int] == 'E') {
        let j = if i + 1 < s.len() && (s[i as int + 1] == '+' || s[i as int + 1] == '-') {
            (i + 2) as nat
        } else {
            (i + 1) as nat
        };
        if j < s.len() && is_digit(s[j as int]) {
            Some(skip_digits(s, j))
        } else {
            None
        }
    } else {
        Some(i)
    }
}

/// The end of a JSON number starting at `i`, if the text there is one:
/// optional minus, integer part without a leading zero, optional fraction,
/// optional exponent.
pub open spec fn parse_number_end(s: Seq<char>, i: nat) -> Option<nat> {
    let j0 = if i < s.len() && s[i as int] == '-' {
        (i + 1) as nat
    } else {
        i
    };
    if j0 >= s.len() || !is_digit(s[j0 as int]) {
        None
    } else {
        let j1 = if s[j0 as int] == '0' {
            (j0 + 1) as nat
        } else {
            skip_digits(s, j0)
        };
        if j1 < s.len() && s[j1 as int] == '.' {
            if j1 + 1 < s.len() && is_digit(s[j1 as int + 1]) {
                parse_exp_end(s, skip_digits(s, (j1 + 1) as nat))
            } else {
                None
            }
        } else {
            parse_exp_end(s, j1)
        }
    }
}

/// A parsed number consumes at least one character and stays inside the
/// text.
pub proof fn lemma_parse_number_end_bounds(s: Seq<char>, i: nat)
    requires
        i <= s.len(),
    ensures
        parse_number_end(s, i) is Some ==> i < parse_number_end(s, i)->0 <= s.len(),
{
    let j0: nat = if i < s.len() && s[i as int] == '-' {
        (i + 1) as nat
    } else {
        i
    };
    if j0 < s.len() && is_digit(s[j0 as int]) {
        lemma_skip_digits_bounds(s, j0);
        let j1: nat = if s[j0 as int] == '0' {
            (j0 + 1) as nat
        } else {
            skip_digits(s, j0)
        };
        lemma_skip_digits_bounds(s, (j1 + 1) as nat);
        if j1 < s.len() && s[j1 as int] == '.' {
            if j1 + 1 < s.len() && is_digit(s[j1 as int + 1]) {
                lemma_parse_exp_end_bounds(s, skip_digits(s, (j1 + 1) as nat));
            }
        } else {
            lemma_parse_exp_end_bounds(s, j1);
        }
    }
}

/// A parsed exponent never moves backwards, and stays inside the text.
pub proof fn lemma_parse_exp_end_bounds(s: Seq<char>, i: nat)
    requires
        i <= s.len(),
    ensures
        parse_exp_end(s, i) is Some ==> i <= parse_exp_end(s, i)->0 <= s.len(),
{
    if i < s.len() && (s[i as int] == 'e' || s[i as int] == 'E') {
        let j: nat = if i + 1 < s.len() && (s[i as int + 1] == '+' || s[i as int + 1] == '-') {
            (i + 2) as nat
        } else {
            (i + 1) as nat
        };
        lemma_skip_digits_bounds(s, j);
    }
}

/// Where the value skipper stands in the text.
#[derive(Clone, Copy)]
pub enum SkipMode {
    /// a value is expected
    Value,
    /// a value just ended; a separator or a closer follows, per context
    AfterValue,
    /// just after `[`: a value or the closing bracket
    FirstItem,
    /// just after `{`: a member key or the closing brace
    FirstKey,
    /// just after `,` in an object: a member key
    NextKey,
}

/// Walks one complete JSON value of any kind, validating it without keeping
/// it. The stack holds the open brackets, `true` for an array and `false`
/// for an object. On success: the position just after the value.
pub open spec fn skip_json(s: Seq<char>, i: nat, stack: Seq<bool>, mode: SkipMode) -> Option<nat>
    decreases s.len() - i,
        via skip_json_dec
{
    match mode {
        SkipMode::AfterValue => {
            if stack.len() == 0 {
                Some(i)
            } else {
                let j = skip_ws(s, i);
                if j >= s.len() {
                    None
                } else if stack.last() {
                    if s[j as int] == ',' {
                        skip_json(s, (j + 1) as nat, stack, SkipMode::Value)
                    } else if s[j as int] == ']' {
                        skip_json(s, (j + 1) as nat, stack.drop_last(), SkipMode::AfterValue)
                    } else {
                        None
                    }
                } else {
                    if s[j as int] == ',' {
                        skip_json(s, (j + 1) as nat, stack, SkipMode::NextKey)
                    } else if s[j as int] == '}' {
                        skip_json(s, (j + 1) as nat, stack.drop_last(), SkipMode::AfterValue)
                    } else {
                        None
                    }
                }
            }
        },
        SkipMode::FirstKey | SkipMode::NextKey => {
            let j = skip_ws(s, i);
            if j >= s.len() {
                None
            } else if mode is FirstKey && s[j as int] == '}' {
                skip_json(s, (j + 1) as nat, stack.drop_last(), SkipMode::AfterValue)
            } else if s[j as int] == '"' {
                match parse_string_rest(s, (j + 1) as nat) {
                    None => None,
                    Some((k0, j1)) => {
                        let j2 = skip_ws(s, j1);
                        if j2 < s.len() && s[j2 as int] == ':' {
                            skip_json(s, (j2 + 1) as nat, stack, SkipMode::Value)
                        } else {
                            None
                        }
                    },
                }
            } else {
                None
            }
        },
        _ => {
            let j = skip_ws(s, i);
            if j >= s.len() {
                None
            } else {
                let c = s[j as int];
                if mode is FirstItem && c == ']' {
                    skip_json(s, (j + 1) as nat, stack.drop_last(), SkipMode::AfterValue)
                } else if c == '"' {
                    match parse_string_rest(s, (j + 1) as nat) {
                        None => None,
                        Some((v0, k)) => skip_json(s, k, stack, SkipMode::AfterValue),
                    }
                } else if c == 't' {
                    if j + 4 <= s.len() && s[j as int + 1] == 'r' && s[j as int + 2] == 'u' && s[
                        j as int + 3] == 'e' {
                        skip_json(s, (j + 4) as nat, stack, SkipMode::AfterValue)
                    } else {
                        None
                    }
                } else if c == 'f' {
                    if j + 5 <= s.len() && s[j as int + 1] == 'a' && s[j as int + 2] == 'l' && s[
                        j as int + 3] == 's' && s[j as int + 4] == 'e' {
                        skip_json(s, (j + 5) as nat, stack, SkipMode::AfterValue)
                    } else {
                        None
                    }
                } else if c == 'n' {
                    if j + 4 <= s.len() && s[j as int + 1] == 'u' && s[j as int + 2] == 'l' && s[
                        j as int + 3] == 'l' {
                        skip_json(s, (j + 4) as nat, stack, SkipMode::AfterValue)
                    } else {
                        None
                    }
                } else if c == '-' || is_digit(c) {
                    match parse_number_end(s, j) {
                        None => None,
                        Some(k) => skip_json(s, k, stack, SkipMode::AfterValue),
                    }
                } else if c == '[' {
                    skip_json(s, (j + 1) as nat, stack.push(true), SkipMode::FirstItem)
                } else if c == '{' {
                    skip_json(s, (j + 1) as nat, stack.push(false), SkipMode::FirstKey)
                } else {
                    None
                }
            }
        },
    }
}

#[via_fn]
proof fn skip_json_dec(s: Seq<char>, i: nat, stack: Seq<bool>, mode: SkipMode) {
    lemma_skip_ws_bounds(s, i);
    let j = skip_ws(s, i);
    if j < s.len() {
        lemma_parse_string_rest_bounds(s, (j + 1) as nat);
        lemma_parse_number_end_bounds(s, j);
        if parse_string_rest(s, (j + 1) as nat) is Some {
            lemma_skip_ws_bounds(s, (parse_string_rest(s, (j + 1) as nat)->0).1);
        }
    }
}

/// A skipped value never moves backwards, and ends inside the text.
pub proof fn lemma_skip_json_bounds(s: Seq<char>, i: nat, stack: Seq<bool>, mode: SkipMode)
    requires
        i <= s.len(),
    ensures
        skip_json(s, i, stack, mode) is Some ==> i <= skip_json(s, i, stack, mode)->0 <= s.len(),
    decreases s.len() - i,
{
    lemma_skip_ws_bounds(s, i);
    let j = skip_ws(s, i);
    if j < s.len() {
        lemma_parse_string_rest_bounds(s, (j + 1) as nat);
        lemma_parse_number_end_bounds(s, j);
        match mode {
            SkipMode::AfterValue => {
                if stack.len() > 0 {
                    lemma_skip_json_bounds(s, (j + 1) as nat, stack, SkipMode::Value);
                    lemma_skip_json_bounds(s, (j + 1) as nat, stack, SkipMode::NextKey);
                    lemma_skip_json_bounds(
                        s,
                        (j + 1) as nat,
                        stack.drop_last(),
                        SkipMode::AfterValue,
                    );
                }
            },
            SkipMode::FirstKey | SkipMode::NextKey => {
                lemma_skip_json_bounds(s, (j + 1) as nat, stack.drop_last(), SkipMode::AfterValue);
                if s[j as int] == '"' && parse_string_rest(s, (j + 1) as nat) is Some {
                    let j1 = (parse_string_rest(s, (j + 1) as nat)->0).1;
                    lemma_skip_ws_bounds(s, j1);
                    let j2 = skip_ws(s, j1);
                    if j2 < s.len() {
                        lemma_skip_json_bounds(s, (j2 + 1) as nat, stack, SkipMode::Value);
                    }
                }
            },
            _ => {
                lemma_skip_json_bounds(s, (j + 1) as nat, stack.drop_last(), SkipMode::AfterValue);
                if parse_string_rest(s, (j + 1) as nat) is Some {
                    lemma_skip_json_bounds(
                        s,
                        (parse_string_rest(s, (j + 1) as nat)->0).1,
                        stack,
                        SkipMode::AfterValue,
                    );
                }
                if j + 4 <= s.len() {
                    lemma_skip_json_bounds(s, (j + 4) as nat, stack, SkipMode::AfterValue);
                }
                if j + 5 <= s.len() {
                    lemma_skip_json_bounds(s, (j + 5) as nat, stack, SkipMode::AfterValue);
                }
                if parse_number_end(s, j) is Some {
                    lemma_skip_json_bounds(
                        s,
                        parse_number_end(s, j)->0,
                        stack,
                        SkipMode::AfterValue,
                    );
                }
                lemma_skip_json_bounds(s, (j + 1) as nat, stack.push(true), SkipMode::FirstItem);
                lemma_skip_json_bounds(s, (j + 1) as nat, stack.push(false), SkipMode::FirstKey);
            },
        }
    }
}

/// Parses record-object members from position `i` (just after `{` or `,`)
/// through the closing brace: keys are strings, a string value is kept, any
/// other valid JSON value is walked and kept as nothing. On success: the
/// members in textual order and the position just after the closing brace.
pub open spec fn parse_record_members(s: Seq<char>, i: nat) -> Option<
    (Seq<(Seq<char>, Option<Seq<char>>)>, nat),
>
    decreases s.len() - i,
        via parse_record_members_dec
{
    let j = skip_ws(s, i);
    if j >= s.len() || s[j as int] != '"' {
        None
    } else {
        match parse_string_rest(s, (j + 1) as nat) {
            None => None,
            Some((k, j1)) => {
                let j2 = skip_ws(s, j1);
                if j2 >= s.len() || s[j2 as int] != ':' {
                    None
                } else {
                    let j3 = skip_ws(s, (j2 + 1) as nat);
                    let vres: Option<(Option<Seq<char>>, nat)> = if j3 < s.len() && s[j3 as int]
                        == '"' {
                        match parse_string_rest(s, (j3 + 1) as nat) {
                            None => None,
                            Some((v, j4)) => Some((Some(v), j4)),
                        }
                    } else {
                        match skip_json(s, j3, Seq::empty(), SkipMode::Value) {
                            None => None,
                            Some(j4) => Some((None, j4)),
                        }
                    };
                    match vres {
                        None => None,
                        Some((v, j4)) => {
                            let j5 = skip_ws(s, j4);
                            if j5 >= s.len() {
                                None
                            } else if s[j5 as int] == '}' {
                                Some((seq![(k, v)], (j5 + 1) as nat))
                            } else if s[j5 as int] == ',' {
                                match parse_record_members(s, (j5 + 1) as nat) {
                                    None => None,
                                    Some((es, j6)) => Some((seq![(k, v)] + es, j6)),
                                }
                            } else {
                                None
                            }
                        },
                    }
                }
            },
        }
    }
}

#[via_fn]
proof fn parse_record_members_dec(s: Seq<char>, i: nat) {
    lemma_skip_ws_bounds(s, i);
    let j = skip_ws(s, i);
    if j < s.len() && s[j as int] == '"' {
        lemma_parse_string_rest_bounds(s, (j + 1) as nat);
        if parse_string_rest(s, (j + 1) as nat) is Some {
            let (k, j1) = parse_string_rest(s, (j + 1) as nat)->0;
            lemma_skip_ws_bounds(s, j1);
            let j2 = skip_ws(s, j1);
            if j2 < s.len() && s[j2 as int] == ':' {
                lemma_skip_ws_bounds(s, (j2 + 1) as nat);
                let j3 = skip_ws(s, (j2 + 1) as nat);
                lemma_parse_string_rest_bounds(s, (j3 + 1) as nat);
                lemma_skip_json_bounds(s, j3, Seq::empty(), SkipMode::Value);
                if parse_string_rest(s, (j3 + 1) as nat) is Some {
                    lemma_skip_ws_bounds(s, (parse_string_rest(s, (j3 + 1) as nat)->0).1);
                }
                if skip_json(s, j3, Seq::empty(), SkipMode::Value) is Some {
                    lemma_skip_ws_bounds(s, skip_json(s, j3, Seq::empty(), SkipMode::Value)->0);
                }
            }
        }
    }
}

/// Parses a complete text as a record object: optional whitespace around
/// one JSON object whose keys are strings, string values kept.
pub open spec fn parse_record_object(s: Seq<char>) -> Option<
    Seq<(Seq<char>, Option<Seq<char>>)>,
> {
    let i = skip_ws(s, 0);
    if i >= s.len() || s[i as int] != '{' {
        None
    } else {
        let j = skip_ws(s, (i + 1) as nat);
        if j < s.len() && s[j as int] == '}' {
            if skip_ws(s, (j + 1) as nat) == s.len() {
                Some(Seq::empty())
            } else {
                None
            }
        } else {
            match parse_record_members(s, (i + 1) as nat) {
                None => None,
                Some((es, j2)) => {
                    if skip_ws(s, j2) == s.len() {
                        Some(es)
                    } else {
                        None
                    }
                },
            }
        }
    }
}

/// A member list all of whose values are strings is also a record-object
/// member list, each value kept.
pub proof fn lemma_members_to_record_members(s: Seq<char>, i: nat)
    requires
        parse_members(s, i) is Some,
    ensures
        parse_record_members(s, i) is Some,
        (parse_record_members(s, i)->0).1 == (parse_members(s, i)->0).1,
        (parse_record_members(s, i)->0).0 == (parse_members(s, i)->0).0.map_values(
            |e: (Seq<char>, Seq<char>)| (e.0, Some(e.1)),
        ),
    decreases s.len() - i,
{
    lemma_skip_ws_bounds(s, i);
    let j = skip_ws(s, i);
    lemma_parse_string_rest_bounds(s, (j + 1) as nat);
    let (k, j1) = parse_string_rest(s, (j + 1) as nat)->0;
    lemma_skip_ws_bounds(s, j1);
    let j2 = skip_ws(s, j1);
    lemma_skip_ws_bounds(s, (j2 + 1) as nat);
    let j3 = skip_ws(s, (j2 + 1) as nat);
    lemma_parse_string_rest_bounds(s, (j3 + 1) as nat);
    let (v, j4) = parse_string_rest(s, (j3 + 1) as nat)->0;
    lemma_skip_ws_bounds(s, j4);
    let j5 = skip_ws(s, j4);
    if s[j5 as int] == '}' {
        assert(seq![(k, Some(v))] =~= seq![(k, v)].map_values(
            |e: (Seq<char>, Seq<char>)| (e.0, Some(e.1)),
        ));
    } else {
        lemma_members_to_record_members(s, (j5 + 1) as nat);
        let rest = (parse_members(s, (j5 + 1) as nat)->0).0;
        assert(seq![(k, Some(v))] + rest.map_values(
            |e: (Seq<char>, Seq<char>)| (e.0, Some(e.1)),
        ) =~= (seq![(k, v)] + rest).map_values(|e: (Seq<char>, Seq<char>)| (e.0, Some(e.1))));
    }
}

/// An object of strings is also a record object, each value kept.
pub proof fn lemma_object_to_record_object(s: Seq<char>)
    requires
        parse_object(s) is Some,
    ensures
        parse_record_object(s) is Some,
        parse_record_object(s)->0 == parse_object(s)->0.map_values(
            |e: (Seq<char>, Seq<char>)| (e.0, Some(e.1)),
        ),
{
    let i = skip_ws(s, 0);
    let j = skip_ws(s, (i + 1) as nat);
    if j < s.len() && s[j as int] == '}' {
        assert(Seq::<(Seq<char>, Option<Seq<char>>)>::empty() =~= Seq::<
            (Seq<char>, Seq<char>),
        >::empty().map_values(|e: (Seq<char>, Seq<char>)| (e.0, Some(e.1))));
    } else {
        lemma_members_to_record_members(s, (i + 1) as nat);
    }
}

/// The characters of a `&str`, in order.
pub fn chars_of(s: &str) -> (v: Vec<char>)
    ensures
        v@ == s@,
{
    let n = s.unicode_len();
    let mut v: Vec<char> = Vec::new();
    let mut i: usize = 0;
    while i < n
        invariant
            n as nat == s@.len(),
            i <= n,
            v@ == s@.subrange(0, i as int),
        decreases n - i,
    {
        v.push(s.get_char(i));
        proof {
            assert(s@.subrange(0, i as int).push(s@[i as int]) =~= s@.subrange(0, i as int + 1));
        }
        i += 1;
    }
    proof {
        assert(s@.subrange(0, n as int) =~= s@);
    }
    v
}

/// Relies on `String`'s `FromIterator<char>`: collecting chars yields the
/// string of exactly those chars, in order.
#[verifier::external_body]
pub fn string_from_chars(v: &Vec<char>) -> (s: String)
    ensures
        s@ == v@,
{
    v.iter().collect()
}

/// Relies on `char::from_u32`: every Unicode scalar value names exactly one
/// `char`, and the conversion is the inverse of `as u32`.
#[verifier::external_body]
fn char_from_u32(n: u32) -> (c: char)
    requires
        vstd::utf8::is_scalar(n),
    ensures
        c == n as char,
        c as u32 == n,
{
    char::from_u32(n).unwrap()
}

fn hex_digit_exec(n: u32) -> (c: char)
    requires
        n < 16,
    ensures
        c == hex_digit(n),
{
    if n < 10 {
        ((n as u8) + 48) as char
    } else {
        ((n as u8) + 87) as char
    }
}

fn hex_val_exec(c: char) -> (r: Option<u32>)
    ensures
        r == hex_val(c),
        r is Some ==> r->0 < 16,
{
    let n = c as u32;
    if 48 <= n && n <= 57 {
        Some(n - 48)
    } else if 97 <= n && n <= 102 {
        Some(n - 87)
    } else if 65 <= n && n <= 70 {
        Some(n - 55)
    } else {
        None
    }
}

fn unescape_short_exec(e: char) -> (r: Option<char>)
    ensures
        r == unescape_short(e),
{
    if e == '"' {
        Some('"')
    } else if e == '\\' {
        Some('\\')
    } else if e == '/' {
        Some('/')
    } else if e == 'b' {
        Some('\u{0008}')
    } else if e == 'f' {
        Some('\u{000C}')
    } else if e == 'n' {
        Some('\n')
    } else if e == 'r' {
        Some('\r')
    } else if e == 't' {
        Some('\t')
    } else {
        None
    }
}

/// `escape_str` over a string grown by one character.
pub proof fn lemma_escape_str_snoc(s: Seq<char>, c: char)
    ensures
        escape_str(s.push(c)) == escape_str(s) + escape_char(c),
    decreases s.len(),
{
    if s.len() == 0 {
        assert(s.push(c)[0] == c);
        assert(s.push(c).drop_first() =~= s);
        assert(escape_str(s) + escape_char(c) =~= escape_char(c) + escape_str(s));
    } else {
        assert(s.push(c)[0] == s[0]);
        assert(s.push(c).drop_first() =~= s.drop_first().push(c));
        lemma_escape_str_snoc(s.drop_first(), c);
        assert(escape_str(s) + escape_char(c) =~= escape_char(s[0]) + (escape_str(s.drop_first())
            + escape_char(c)));
    }
}

/// Appends the escaped form of `s` to `out`.
pub fn push_escaped(out: &mut Vec<char>, s: &str)
    ensures
        final(out)@ == old(out)@ + escape_str(s@),
{
    let n = s.unicode_len();
    let mut i: usize = 0;
    while i < n
        invariant
            n as nat == s@.len(),
            i <= n,
            out@ == old(out)@ + escape_str(s@.subrange(0, i as int)),
        decreases n - i,
    {
        let c = s.get_char(i);
        let u = c as u32;
        if c == '"' {
            out.push('\\');
            out.push('"');
        } else if c == '\\' {
            out.push('\\');
            out.push('\\');
        } else if u < 0x20 {
            out.push('\\');
            out.push('u');
            out.push('0');
            out.push('0');
            out.push(hex_digit_exec(u / 16));
            out.push(hex_digit_exec(u % 16));
        } else {
            out.push(c);
        }
        proof {
            lemma_escape_str_snoc(s@.subrange(0, i as int), c);
            assert(s@.subrange(0, i as int).push(c) =~= s@.subrange(0, i as int + 1));
            assert(out@ =~= old(out)@ + escape_str(s@.subrange(0, i as int + 1)));
        }
        i += 1;
    }
    proof {
        assert(s@.subrange(0, n as int) =~= s@);
    }
}

/// Appends the quoted, escaped form of `s` to `out`.
pub fn push_quoted(out: &mut Vec<char>, s: &str)
    ensures
        final(out)@ == old(out)@ + quoted(s@),
{
    out.push('"');
    push_escaped(out, s);
    out.push('"');
    proof {
        assert(out@ =~= old(out)@ + quoted(s@));
    }
}

fn skip_ws_exec(s: &Vec<char>, i: usize) -> (r: usize)
    requires
        i <= s@.len(),
    ensures
        r as nat == skip_ws(s@, i as nat),
        i <= r <= s@.len(),
    decreases s@.len() - i,
{
    if i < s.len() {
        let c = s[i];
        if c == ' ' || c == '\t' || c == '\n' || c == '\r' {
            return skip_ws_exec(s, i + 1);
        }
    }
    i
}

fn parse_unicode_escape_exec(s: &Vec<char>, i: usize) -> (r: Option<(char, usize)>)
    requires
        i <= s@.len(),
    ensures
        (r is Some) == (parse_unicode_escape(s@, i as nat) is Some),
        r is Some ==> (r->0).0 == (parse_unicode_escape(s@, i as nat)->0).0 && ((r->0).1) as nat
            == (parse_unicode_escape(s@, i as nat)->0).1 && (r->0).1 <= s@.len(),
{
    proof {
        reveal(parse_unicode_escape);
    }
    if s.len() - i < 4 {
        return None;
    }
    let h3 = hex_val_exec(s[i]);
    let h2 = hex_val_exec(s[i + 1]);
    let h1 = hex_val_exec(s[i + 2]);
    let h0 = hex_val_exec(s[i + 3]);
    if let (Some(a), Some(b), Some(cc), Some(d)) = (h3, h2, h1, h0) {
        let code = a * 4096 + b * 256 + cc * 16 + d;
        if code < 0xD800 || code >= 0xE000 {
            assert(vstd::utf8::is_scalar(code));
            Some((char_from_u32(code), i + 4))
        } else if code < 0xDC00 {
            if s.len() - i < 10 {
                return None;
            }
            if s[i + 4] != '\\' || s[i + 5] != 'u' {
                return None;
            }
            let g3 = hex_val_exec(s[i + 6]);
            let g2 = hex_val_exec(s[i + 7]);
            let g1 = hex_val_exec(s[i + 8]);
            let g0 = hex_val_exec(s[i + 9]);
            if let (Some(ga), Some(gb), Some(gc), Some(gd)) = (g3, g2, g1, g0) {
                let code2 = ga * 4096 + gb * 256 + gc * 16 + gd;
                if 0xDC00 <= code2 && code2 < 0xE000 {
                    let combined = 0x10000 + (code - 0xD800) * 0x400 + (code2 - 0xDC00);
                    assert(vstd::utf8::is_scalar(combined));
                    Some((char_from_u32(combined), i + 10))
                } else {
                    None
                }
            } else {
                None
            }
        } else {
            None
        }
    } else {
        None
    }
}

fn parse_string_rest_exec(s: &Vec<char>, i: usize) -> (r: Option<(Vec<char>, usize)>)
    requires
        i <= s@.len(),
    ensures
        (r is Some) == (parse_string_rest(s@, i as nat) is Some),
        r is Some ==> (r->0).0@ == (parse_string_rest(s@, i as nat)->0).0 && ((r->0).1) as nat
            == (parse_string_rest(s@, i as nat)->0).1 && (r->0).1 <= s@.len(),
    decreases s@.len() - i,
{
    proof {
        lemma_parse_string_rest_bounds(s@, i as nat);
    }
    if i >= s.len() {
        return None;
    }
    let c = s[i];
    if c == '"' {
        return Some((Vec::new(), i + 1));
    }
    if c == '\\' {
        if i + 1 >= s.len() {
            return None;
        }
        let e = s[i + 1];
        if e == 'u' {
            match parse_unicode_escape_exec(s, i + 2) {
                None => None,
                Some((ch, k)) => {
                    proof {
                        lemma_parse_unicode_escape_bounds(s@, (i + 2) as nat);
                    }
                    match parse_string_rest_exec(s, k) {
                    None => None,
                    Some((mut cs, j)) => {
                        cs.insert(0, ch);
                        proof {
                            assert(cs@ =~= seq![ch] + (parse_string_rest(s@, k as nat)->0).0);
                        }
                        Some((cs, j))
                    },
                }
                },
            }
        } else {
            match unescape_short_exec(e) {
                None => None,
                Some(u) => match parse_string_rest_exec(s, i + 2) {
                    None => None,
                    Some((mut cs, j)) => {
                        cs.insert(0, u);
                        proof {
                            assert(cs@ =~= seq![u] + (parse_string_rest(s@, (i + 2) as nat)->0).0);
                        }
                        Some((cs, j))
                    },
                },
            }
        }
    } else if (c as u32) < 0x20 {
        None
    } else {
        match parse_string_rest_exec(s, i + 1) {
            None => None,
            Some((mut cs, j)) => {
                cs.insert(0, c);
                proof {
                    assert(cs@ =~= seq![c] + (parse_string_rest(s@, (i + 1) as nat)->0).0);
                }
                Some((cs, j))
            },
        }
    }
}

fn skip_digits_exec(s: &Vec<char>, i: usize) -> (r: usize)
    requires
        i <= s@.len(),
    ensures
        r as nat == skip_digits(s@, i as nat),
        i <= r <= s@.len(),
    decreases s@.len() - i,
{
    if i < s.len() {
        let n = s[i] as u32;
        if 48 <= n && n <= 57 {
            return skip_digits_exec(s, i + 1);
        }
    }
    i
}

fn parse_exp_end_exec(s: &Vec<char>, i: usize) -> (r: Option<usize>)
    requires
        i <= s@.len(),
    ensures
        (r is Some) == (parse_exp_end(s@, i as nat) is Some),
        r is Some ==> r->0 as nat == parse_exp_end(s@, i as nat)->0 && i <= r->0 <= s@.len(),
{
    proof {
        lemma_parse_exp_end_bounds(s@, i as nat);
    }
    if i < s.len() && (s[i] == 'e' || s[i] == 'E') {
        let j = if i + 1 < s.len() && (s[i + 1] == '+' || s[i + 1] == '-') {
            i + 2
        } else {
            i + 1
        };
        if j < s.len() {
            let n = s[j] as u32;
            if 48 <= n && n <= 57 {
                return Some(skip_digits_exec(s, j));
            }
        }
        None
    } else {
        Some(i)
    }
}

fn parse_number_end_exec(s: &Vec<char>, i: usize) -> (r: Option<usize>)
    requires
        i <= s@.len(),
    ensures
        (r is Some) == (parse_number_end(s@, i as nat) is Some),
        r is Some ==> r->0 as nat == parse_number_end(s@, i as nat)->0 && i < r->0 <= s@.len(),
{
    proof {
        lemma_parse_number_end_bounds(s@, i as nat);
    }
    let j0 = if i < s.len() && s[i] == '-' {
        i + 1
    } else {
        i
    };
    if j0 >= s.len() {
        return None;
    }
    let n0 = s[j0] as u32;
    if !(48 <= n0 && n0 <= 57) {
        return None;
    }
    let j1 = if s[j0] == '0' {
        j0 + 1
    } else {
        skip_digits_exec(s, j0)
    };
    if j1 < s.len() && s[j1] == '.' {
        if j1 + 1 < s.len() {
            let n1 = s[j1 + 1] as u32;
            if 48 <= n1 && n1 <= 57 {
                return parse_exp_end_exec(s, skip_digits_exec(s, j1 + 1));
            }
        }
        None
    } else {
        parse_exp_end_exec(s, j1)
    }
}

/// Walks one complete JSON value, as `skip_json` describes it.
fn skip_json_exec(s: &Vec<char>, i: usize, stack: Vec<bool>, mode: SkipMode) -> (r: Option<usize>)
    requires
        i <= s@.len(),
        mode is FirstItem ==> stack@.len() > 0,
        mode is FirstKey ==> stack@.len() > 0,
    ensures
        (r is Some) == (skip_json(s@, i as nat, stack@, mode) is Some),
        r is Some ==> r->0 as nat == skip_json(s@, i as nat, stack@, mode)->0 && r->0 <= s@.len(),
    decreases s@.len() - i,
{
    proof {
        lemma_skip_json_bounds(s@, i as nat, stack@, mode);
    }
    match mode {
        SkipMode::AfterValue => {
            if stack.len() == 0 {
                return Some(i);
            }
            let j = skip_ws_exec(s, i);
            if j >= s.len() {
                return None;
            }
            let top = stack[stack.len() - 1];
            let c = s[j];
            if c == ',' {
                if top {
                    skip_json_exec(s, j + 1, stack, SkipMode::Value)
                } else {
                    skip_json_exec(s, j + 1, stack, SkipMode::NextKey)
                }
            } else if (top && c == ']') || (!top && c == '}') {
                let mut st = stack;
                let _ = st.pop();
                proof {
                    assert(st@ =~= stack@.drop_last());
                }
                skip_json_exec(s, j + 1, st, SkipMode::AfterValue)
            } else {
                None
            }
        },
        SkipMode::FirstKey | SkipMode::NextKey => {
            let first = matches!(mode, SkipMode::FirstKey);
            let j = skip_ws_exec(s, i);
            if j >= s.len() {
                return None;
            }
            let c = s[j];
            if first && c == '}' {
                let mut st = stack;
                let _ = st.pop();
                proof {
                    assert(st@ =~= stack@.drop_last());
                }
                skip_json_exec(s, j + 1, st, SkipMode::AfterValue)
            } else if c == '"' {
                match parse_string_rest_exec(s, j + 1) {
                    None => None,
                    Some((_k, j1)) => {
                        let j2 = skip_ws_exec(s, j1);
                        if j2 < s.len() && s[j2] == ':' {
                            proof {
                                lemma_parse_string_rest_bounds(s@, (j + 1) as nat);
                            }
                            skip_json_exec(s, j2 + 1, stack, SkipMode::Value)
                        } else {
                            None
                        }
                    },
                }
            } else {
                None
            }
        },
        _ => {
            let first_item = matches!(mode, SkipMode::FirstItem);
            let j = skip_ws_exec(s, i);
            if j >= s.len() {
                return None;
            }
            let c = s[j];
            let n = c as u32;
            if first_item && c == ']' {
                let mut st = stack;
                let _ = st.pop();
                proof {
                    assert(st@ =~= stack@.drop_last());
                }
                skip_json_exec(s, j + 1, st, SkipMode::AfterValue)
            } else if c == '"' {
                match parse_string_rest_exec(s, j + 1) {
                    None => None,
                    Some((_v, k)) => {
                        proof {
                            lemma_parse_string_rest_bounds(s@, (j + 1) as nat);
                        }
                        skip_json_exec(s, k, stack, SkipMode::AfterValue)
                    },
                }
            } else if c == 't' {
                if s.len() - j >= 4 && s[j + 1] == 'r' && s[j + 2] == 'u' && s[j + 3] == 'e' {
                    skip_json_exec(s, j + 4, stack, SkipMode::AfterValue)
                } else {
                    None
                }
            } else if c == 'f' {
                if s.len() - j >= 5 && s[j + 1] == 'a' && s[j + 2] == 'l' && s[j + 3] == 's' && s[j
                    + 4] == 'e' {
                    skip_json_exec(s, j + 5, stack, SkipMode::AfterValue)
                } else {
                    None
                }
            } else if c == 'n' {
                if s.len() - j >= 4 && s[j + 1] == 'u' && s[j + 2] == 'l' && s[j + 3] == 'l' {
                    skip_json_exec(s, j + 4, stack, SkipMode::AfterValue)
                } else {
                    None
                }
            } else if c == '-' || (48 <= n && n <= 57) {
                match parse_number_end_exec(s, j) {
                    None => None,
                    Some(k) => skip_json_exec(s, k, stack, SkipMode::AfterValue),
                }
            } else if c == '[' {
                let mut st = stack;
                st.push(true);
                skip_json_exec(s, j + 1, st, SkipMode::FirstItem)
            } else if c == '{' {
                let mut st = stack;
                st.push(false);
                skip_json_exec(s, j + 1, st, SkipMode::FirstKey)
            } else {
                None
            }
        },
    }
}

/// The members a parse found, each pair of character vectors read as a pair
/// of character sequences.
pub open spec fn pairs_view(ps: Seq<(Vec<char>, Vec<char>)>) -> Seq<(Seq<char>, Seq<char>)> {
    ps.map_values(|p: (Vec<char>, Vec<char>)| (p.0@, p.1@))
}

fn parse_members_exec(s: &Vec<char>, i: usize) -> (r: Option<(Vec<(Vec<char>, Vec<char>)>, usize)>)
    requires
        i <= s@.len(),
    ensures
        (r is Some) == (parse_members(s@, i as nat) is Some),
        r is Some ==> pairs_view((r->0).0@) == (parse_members(s@, i as nat)->0).0 && ((r->0).1)
            as nat == (parse_members(s@, i as nat)->0).1 && (r->0).1 <= s@.len(),
    decreases s@.len() - i,
{
    proof {
        lemma_parse_members_bounds(s@, i as nat);
    }
    let j = skip_ws_exec(s, i);
    if j >= s.len() {
        return None;
    }
    if s[j] != '"' {
        return None;
    }
    let ks = parse_string_rest_exec(s, j + 1);
    match ks {
        None => None,
        Some((k, j1)) => {
            let j2 = skip_ws_exec(s, j1);
            if j2 >= s.len() {
                return None;
            }
            if s[j2] != ':' {
                return None;
            }
            let j3 = skip_ws_exec(s, j2 + 1);
            if j3 >= s.len() {
                return None;
            }
            if s[j3] != '"' {
                return None;
            }
            match parse_string_rest_exec(s, j3 + 1) {
                None => None,
                Some((v, j4)) => {
                    let j5 = skip_ws_exec(s, j4);
                    if j5 >= s.len() {
                        return None;
                    }
                    if s[j5] == '}' {
                        let mut es: Vec<(Vec<char>, Vec<char>)> = Vec::new();
                        es.push((k, v));
                        proof {
                            assert(pairs_view(es@) =~= (parse_members(s@, i as nat)->0).0);
                        }
                        Some((es, j5 + 1))
                    } else if s[j5] == ',' {
                        proof {
                            lemma_parse_string_rest_bounds(s@, (j + 1) as nat);
                            lemma_parse_string_rest_bounds(s@, (j3 + 1) as nat);
                        }
                        match parse_members_exec(s, j5 + 1) {
                            None => None,
                            Some((mut es, j6)) => {
                                es.insert(0, (k, v));
                                proof {
                                    assert(pairs_view(es@) =~= (parse_members(s@, i as nat)->0).0);
                                }
                                Some((es, j6))
                            },
                        }
                    } else {
                        None
                    }
                },
            }
        },
    }
}

/// Parses a complete text as a JSON object of strings, as `parse_object`
/// describes it.
pub fn parse_object_exec(s: &Vec<char>) -> (r: Option<Vec<(Vec<char>, Vec<char>)>>)
    ensures
        (r is Some) == (parse_object(s@) is Some),
        r is Some ==> pairs_view(r->0@) == parse_object(s@)->0,
{
    let i = skip_ws_exec(s, 0);
    if i >= s.len() {
        return None;
    }
    if s[i] != '{' {
        return None;
    }
    let j = skip_ws_exec(s, i + 1);
    if j < s.len() && s[j] == '}' {
        if skip_ws_exec(s, j + 1) == s.len() {
            let es: Vec<(Vec<char>, Vec<char>)> = Vec::new();
            proof {
                assert(pairs_view(es@) =~= parse_object(s@)->0);
            }
            Some(es)
        } else {
            None
        }
    } else {
        match parse_members_exec(s, i + 1) {
            None => None,
            Some((es, j2)) => {
                if skip_ws_exec(s, j2) == s.len() {
                    Some(es)
                } else {
                    None
                }
            },
        }
    }
}

/// The members a record parse found, string values read as sequences.
pub open spec fn record_pairs_view(ps: Seq<(Vec<char>, Option<Vec<char>>)>) -> Seq<
    (Seq<char>, Option<Seq<char>>),
> {
    ps.map_values(
        |p: (Vec<char>, Option<Vec<char>>)|
            (
                p.0@,
                if p.1 is Some {
                    Some(p.1->0@)
                } else {
                    None
                },
            ),
    )
}

fn parse_record_members_exec(s: &Vec<char>, i: usize) -> (r: Option<
    (Vec<(Vec<char>, Option<Vec<char>>)>, usize),
>)
    requires
        i <= s@.len(),
    ensures
        (r is Some) == (parse_record_members(s@, i as nat) is Some),
        r is Some ==> record_pairs_view((r->0).0@) == (parse_record_members(s@, i as nat)->0).0
            && ((r->0).1) as nat == (parse_record_members(s@, i as nat)->0).1 && (r->0).1
            <= s@.len(),
    decreases s@.len() - i,
{
    let j = skip_ws_exec(s, i);
    if j >= s.len() {
        return None;
    }
    if s[j] != '"' {
        return None;
    }
    match parse_string_rest_exec(s, j + 1) {
        None => None,
        Some((k, j1)) => {
            let j2 = skip_ws_exec(s, j1);
            if j2 >= s.len() {
                return None;
            }
            if s[j2] != ':' {
                return None;
            }
            let j3 = skip_ws_exec(s, j2 + 1);
            let vres: Option<(Option<Vec<char>>, usize)> = if j3 < s.len() && s[j3] == '"' {
                match parse_string_rest_exec(s, j3 + 1) {
                    None => None,
                    Some((v, j4)) => Some((Some(v), j4)),
                }
            } else {
                let st: Vec<bool> = Vec::new();
                match skip_json_exec(s, j3, st, SkipMode::Value) {
                    None => None,
                    Some(j4) => Some((None, j4)),
                }
            };
            match vres {
                None => None,
                Some((v, j4)) => {
                    let j5 = skip_ws_exec(s, j4);
                    if j5 >= s.len() {
                        return None;
                    }
                    if s[j5] == '}' {
                        let mut es: Vec<(Vec<char>, Option<Vec<char>>)> = Vec::new();
                        es.push((k, v));
                        proof {
                            assert(record_pairs_view(es@) =~= (parse_record_members(
                                s@,
                                i as nat,
                            )->0).0);
                        }
                        Some((es, j5 + 1))
                    } else if s[j5] == ',' {
                        proof {
                            lemma_parse_string_rest_bounds(s@, (j + 1) as nat);
                            lemma_parse_string_rest_bounds(s@, (j3 + 1) as nat);
                            lemma_skip_json_bounds(s@, j3 as nat, Seq::empty(), SkipMode::Value);
                        }
                        match parse_record_members_exec(s, j5 + 1) {
                            None => None,
                            Some((mut es, j6)) => {
                                es.insert(0, (k, v));
                                proof {
                                    assert(record_pairs_view(es@) =~= (parse_record_members(
                                        s@,
                                        i as nat,
                                    )->0).0);
                                }
                                Some((es, j6))
                            },
                        }
                    } else {
                        None
                    }
                },
            }
        },
    }
}

/// Parses a complete text as a record object, as `parse_record_object`
/// describes it.
pub fn parse_record_object_exec(s: &Vec<char>) -> (r: Option<
    Vec<(Vec<char>, Option<Vec<char>>)>,
>)
    ensures
        (r is Some) == (parse_record_object(s@) is Some),
        r is Some ==> record_pairs_view(r->0@) == parse_record_object(s@)->0,
{
    let i = skip_ws_exec(s, 0);
    if i >= s.len() {
        return None;
    }
    if s[i] != '{' {
        return None;
    }
    let j = skip_ws_exec(s, i + 1);
    if j < s.len() && s[j] == '}' {
        if skip_ws_exec(s, j + 1) == s.len() {
            let es: Vec<(Vec<char>, Option<Vec<char>>)> = Vec::new();
            proof {
                assert(record_pairs_view(es@) =~= parse_record_object(s@)->0);
            }
            Some(es)
        } else {
            None
        }
    } else {
        match parse_record_members_exec(s, i + 1) {
            None => None,
            Some((es, j2)) => {
                if skip_ws_exec(s, j2) == s.len() {
                    Some(es)
                } else {
                    None
                }
            },
        }
    }
}

} // verus!
