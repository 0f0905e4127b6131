//! The text encoding of the configuration document. The serializer writes one
//! canonical form: the three top-level values, then one `[profiles."<key>"]`
//! section per profile in key order, every string a TOML basic string. The
//! parser reads the TOML shape of that document: the three top-level keys
//! once each in any order, then the profile sections in any order, tolerating
//! whitespace, blank lines, comments, CRLF line ends, bare or quoted section
//! keys, and the full basic-string escape set. Decoding what was encoded
//! gives the document back unchanged.
use vstd::prelude::*;

use crate::config::{
    level_of, level_str, lemma_level_roundtrip, log_level_as_str, log_level_from_str, ConfigError,
    ConfigV, LogLevel, TomlConfig,
};
use crate::profiles::{
    entries_sorted, has_key, lemma_insert_at_end, spec_insert, EntryV, ProfileConfig, ProfilesMap,
};
use crate::strings::{lemma_lex_trichotomy, lex_lt};

verus! {

/// Relies on `String::push`: appends exactly the one character.
pub assume_specification[ String::push ](s: &mut String, c: char)
    ensures
        final(s)@ == old(s)@.push(c),
;

/// Relies on `char::from_u32`: `Some` exactly on the Unicode scalar values,
/// and the returned character carries the given value.
pub assume_specification[ char::from_u32 ](v: u32) -> (r: Option<char>)
    ensures
        r matches Some(c) ==> (c as u32) == v,
        r is Some <==> vstd::utf8::is_scalar(v),
;

/// A control character that is written as a `\u00XX` escape: the controls
/// TOML refuses in a basic string, less the three with short escapes.
pub open spec fn needs_u_escape(c: char) -> bool {
    ((c as u32) < 0x20 || (c as u32) == 0x7F) && c != '\n' && c != '\r' && c != '\t'
}

/// A character that stands for itself inside a quoted value: anything but
/// the quote, the backslash, and the control characters TOML insists are
/// escaped (a tab may stay raw).
pub open spec fn is_raw_char(c: char) -> bool {
    c != '"' && c != '\\' && ((c as u32) >= 0x20 || (c as u32) == 0x09) && (c as u32) != 0x7F
}

pub open spec fn hex_digit(n: int) -> char {
    if n == 0 {
        '0'
    } else if n == 1 {
        '1'
    } else if n == 2 {
        '2'
    } else if n == 3 {
        '3'
    } else if n == 4 {
        '4'
    } else if n == 5 {
        '5'
    } else if n == 6 {
        '6'
    } else if n == 7 {
        '7'
    } else if n == 8 {
        '8'
    } else if n == 9 {
        '9'
    } else if n == 10 {
        'a'
    } else if n == 11 {
        'b'
    } else if n == 12 {
        'c'
    } else if n == 13 {
        'd'
    } else if n == 14 {
        'e'
    } else {
        'f'
    }
}

pub open spec fn hex_val(c: char) -> int {
    if c == '0' {
        0
    } else if c == '1' {
        1
    } else if c == '2' {
        2
    } else if c == '3' {
        3
    } else if c == '4' {
        4
    } else if c == '5' {
        5
    } else if c == '6' {
        6
    } else if c == '7' {
        7
    } else if c == '8' {
        8
    } else if c == '9' {
        9
    } else if c == 'a' {
        10
    } else if c == 'b' {
        11
    } else if c == 'c' {
        12
    } else if c == 'd' {
        13
    } else if c == 'e' {
        14
    } else if c == 'f' {
        15
    } else if c == 'A' {
        10
    } else if c == 'B' {
        11
    } else if c == 'C' {
        12
    } else if c == 'D' {
        13
    } else if c == 'E' {
        14
    } else if c == 'F' {
        15
    } else {
        16
    }
}

pub open spec fn is_hex_digit(c: char) -> bool {
    hex_val(c) < 16
}

proof fn lemma_hex_roundtrip(n: int)
    requires
        0 <= n < 16,
    ensures
        hex_val(hex_digit(n)) == n,
{
}

fn hex_digit_exec(n: u32) -> (r: char)
    requires
        n < 16,
    ensures
        r == hex_digit(n as int),
{
    if n == 0 {
        '0'
    } else if n == 1 {
        '1'
    } else if n == 2 {
        '2'
    } else if n == 3 {
        '3'
    } else if n == 4 {
        '4'
    } else if n == 5 {
        '5'
    } else if n == 6 {
        '6'
    } else if n == 7 {
        '7'
    } else if n == 8 {
        '8'
    } else if n == 9 {
        '9'
    } else if n == 10 {
        'a'
    } else if n == 11 {
        'b'
    } else if n == 12 {
        'c'
    } else if n == 13 {
        'd'
    } else if n == 14 {
        'e'
    } else {
        'f'
    }
}

fn hex_val_exec(c: char) -> (r: u32)
    ensures
        r == hex_val(c),
{
    if c == '0' {
        0
    } else if c == '1' {
        1
    } else if c == '2' {
        2
    } else if c == '3' {
        3
    } else if c == '4' {
        4
    } else if c == '5' {
        5
    } else if c == '6' {
        6
    } else if c == '7' {
        7
    } else if c == '8' {
        8
    } else if c == '9' {
        9
    } else if c == 'a' {
        10
    } else if c == 'b' {
        11
    } else if c == 'c' {
        12
    } else if c == 'd' {
        13
    } else if c == 'e' {
        14
    } else if c == 'f' {
        15
    } else if c == 'A' {
        10
    } else if c == 'B' {
        11
    } else if c == 'C' {
        12
    } else if c == 'D' {
        13
    } else if c == 'E' {
        14
    } else if c == 'F' {
        15
    } else {
        16
    }
}

/// How one character is written inside a quoted value.
pub open spec fn esc_char(c: char) -> Seq<char> {
    if c == '"' {
        seq!['\\', '"']
    } else if c == '\\' {
        seq!['\\', '\\']
    } else if c == '\n' {
        seq!['\\', 'n']
    } else if c == '\r' {
        seq!['\\', 'r']
    } else if c == '\t' {
        seq!['\\', 't']
    } else if needs_u_escape(c) {
        seq![
            '\\',
            'u',
            '0',
            '0',
            hex_digit(((c as u32) / 16) as int),
            hex_digit(((c as u32) % 16) as int),
        ]
    } else {
        seq![c]
    }
}

/// How a whole string value is written, character by character.
pub open spec fn esc(s: Seq<char>) -> Seq<char>
    decreases s.len(),
{
    if s.len() == 0 {
        Seq::empty()
    } else {
        esc_char(s[0]) + esc(s.skip(1))
    }
}

pub proof fn lemma_esc_append(a: Seq<char>, b: Seq<char>)
    ensures
        esc(a + b) == esc(a) + esc(b),
    decreases a.len(),
{
    if a.len() == 0 {
        assert(a + b =~= b);
        assert(esc(a) + esc(b) =~= esc(b));
    } else {
        assert((a + b).skip(1) =~= a.skip(1) + b);
        lemma_esc_append(a.skip(1), b);
        assert((a + b)[0] == a[0]);
        assert((a + b).len() > 0);
        assert(esc(a + b) == esc_char(a[0]) + (esc(a.skip(1)) + esc(b)));
        assert(esc_char(a[0]) + (esc(a.skip(1)) + esc(b)) =~= (esc_char(a[0]) + esc(a.skip(1)))
            + esc(b));
    }
}

/// Appends two characters, keeping the view explicit for the callers.
fn push2(out: &mut String, a: char, b: char)
    ensures
        final(out)@ == old(out)@ + seq![a, b],
{
    out.push(a);
    out.push(b);
    proof {
        assert(out@ =~= old(out)@ + seq![a, b]);
    }
}

/// Writes `v` into `out` in its escaped form.
pub fn append_escaped(out: &mut String, v: &str)
    ensures
        final(out)@ == old(out)@ + esc(v@),
{
    let n = v.unicode_len();
    let mut i: usize = 0;
    proof {
        assert(v@.take(0) =~= Seq::<char>::empty());
        assert(old(out)@ + esc(v@.take(0)) =~= old(out)@);
    }
    while i < n
        invariant
            n == v@.len(),
            i <= n,
            out@ == old(out)@ + esc(v@.take(i as int)),
        decreases n - i,
    {
        let c = v.get_char(i);
        let ghost pre = out@;
        proof {
            assert(v@.take(i + 1) =~= v@.take(i as int) + seq![c]);
            lemma_esc_append(v@.take(i as int), seq![c]);
            assert(seq![c].skip(1) =~= Seq::<char>::empty());
            assert(esc(Seq::<char>::empty()) =~= Seq::<char>::empty());
            assert(esc(seq![c]) == esc_char(seq![c][0]) + esc(seq![c].skip(1)));
            assert(seq![c][0] == c);
            assert(esc(seq![c]) =~= esc_char(c));
        }
        if c == '"' {
            push2(out, '\\', '"');
        } else if c == '\\' {
            push2(out, '\\', '\\');
        } else if c == '\n' {
            push2(out, '\\', 'n');
        } else if c == '\r' {
            push2(out, '\\', 'r');
        } else if c == '\t' {
            push2(out, '\\', 't');
        } else {
            let u = c as u32;
            if u < 0x20 || u == 0x7F {
                let h = hex_digit_exec(u / 16);
                let l = hex_digit_exec(u % 16);
                push2(out, '\\', 'u');
                push2(out, '0', '0');
                push2(out, h, l);
                proof {
                    assert(h == hex_digit(((c as u32) / 16) as int));
                    assert(l == hex_digit(((c as u32) % 16) as int));
                    assert(out@ =~= pre + esc_char(c));
                }
            } else {
                out.push(c);
                proof {
                    assert(esc_char(c) == seq![c]);
                    assert(out@ =~= pre + esc_char(c));
                }
            }
        }
        proof {
            assert(out@ =~= pre + esc_char(c));
            assert(out@ =~= old(out)@ + esc(v@.take(i + 1)));
        }
        i = i + 1;
    }
    proof {
        assert(v@.take(n as int) =~= v@);
    }
}

/// What a short escape stands for.
pub open spec fn unesc_simple(e: char) -> char {
    if e == '"' {
        '"'
    } else if e == '\\' {
        '\\'
    } else if e == 'b' {
        '\u{0008}'
    } else if e == 'f' {
        '\u{000C}'
    } else if e == 'n' {
        '\n'
    } else if e == 'r' {
        '\r'
    } else {
        '\t'
    }
}

/// Four hex digits starting at position `i`.
pub open spec fn hex4_ok(s: Seq<char>, i: int) -> bool {
    is_hex_digit(s[i]) && is_hex_digit(s[i + 1]) && is_hex_digit(s[i + 2]) && is_hex_digit(
        s[i + 3],
    )
}

/// Their value.
pub open spec fn hex4_val(s: Seq<char>, i: int) -> int {
    ((hex_val(s[i]) * 16 + hex_val(s[i + 1])) * 16 + hex_val(s[i + 2])) * 16 + hex_val(s[i + 3])
}

/// Decodes a quoted basic string: the characters up to the closing quote, and
/// the text after it. Inside may stand the raw characters TOML allows, the
/// short escapes, and `\u`/`\U` escapes of any Unicode scalar value.
pub open spec fn scan_string(s: Seq<char>) -> Option<(Seq<char>, Seq<char>)>
    decreases s.len(),
{
    if s.len() == 0 {
        None
    } else if s[0] == '"' {
        Some((Seq::empty(), s.skip(1)))
    } else if s[0] == '\\' {
        if s.len() < 2 {
            None
        } else {
            let e = s[1];
            if e == '"' || e == '\\' || e == 'b' || e == 'f' || e == 'n' || e == 'r' || e == 't' {
                match scan_string(s.skip(2)) {
                    Some(p) => Some((seq![unesc_simple(e)] + p.0, p.1)),
                    None => None,
                }
            } else if e == 'u' {
                if s.len() < 6 {
                    None
                } else if hex4_ok(s, 2) && vstd::utf8::is_scalar(hex4_val(s, 2) as u32) {
                    match scan_string(s.skip(6)) {
                        Some(p) => Some((seq![((hex4_val(s, 2) as u32) as char)] + p.0, p.1)),
                        None => None,
                    }
                } else {
                    None
                }
            } else if e == 'U' {
                if s.len() < 10 {
                    None
                } else if hex4_ok(s, 2) && hex4_ok(s, 6) && vstd::utf8::is_scalar(
                    (hex4_val(s, 2) * 65536 + hex4_val(s, 6)) as u32,
                ) {
                    match scan_string(s.skip(10)) {
                        Some(p) => Some(
                            (
                                seq![(((hex4_val(s, 2) * 65536 + hex4_val(s, 6)) as u32) as char)]
                                    + p.0,
                                p.1,
                            ),
                        ),
                        None => None,
                    }
                } else {
                    None
                }
            } else {
                None
            }
        }
    } else if is_raw_char(s[0]) {
        match scan_string(s.skip(1)) {
            Some(p) => Some((seq![s[0]] + p.0, p.1)),
            None => None,
        }
    } else {
        None
    }
}

/// Whatever a scan consumes, it consumes at least the closing quote.
pub proof fn lemma_scan_rest_shorter(s: Seq<char>)
    ensures
        scan_string(s) matches Some(p) ==> p.1.len() < s.len(),
    decreases s.len(),
{
    if s.len() == 0 {
    } else if s[0] == '"' {
    } else if s[0] == '\\' {
        if s.len() >= 2 {
            lemma_scan_rest_shorter(s.skip(2));
            if s.len() >= 6 {
                lemma_scan_rest_shorter(s.skip(6));
            }
            if s.len() >= 10 {
                lemma_scan_rest_shorter(s.skip(10));
            }
        }
    } else if is_raw_char(s[0]) {
        lemma_scan_rest_shorter(s.skip(1));
    }
}

/// Scanning an escaped value followed by the closing quote gives the value
/// back and leaves exactly what follows: decoding inverts encoding.
pub proof fn lemma_scan_esc(v: Seq<char>, rest: Seq<char>)
    ensures
        scan_string(esc(v) + seq!['"'] + rest) == Some((v, rest)),
    decreases v.len(),
{
    let s = esc(v) + seq!['"'] + rest;
    if v.len() == 0 {
        assert(esc(v) =~= Seq::<char>::empty());
        assert(s =~= seq!['"'] + rest);
        assert(s[0] == '"');
        assert(s.skip(1) =~= rest);
        assert(scan_string(s) == Some((Seq::<char>::empty(), rest)));
        assert(Seq::<char>::empty() =~= v);
    } else {
        let c = v[0];
        let v1 = v.skip(1);
        let tail = esc(v1) + seq!['"'] + rest;
        assert(esc(v) == esc_char(c) + esc(v1));
        assert(s =~= esc_char(c) + tail);
        lemma_scan_esc(v1, rest);
        assert(seq![c] + v1 =~= v);
        if c == '"' || c == '\\' || c == '\n' || c == '\r' || c == '\t' {
            let e = if c == '"' {
                '"'
            } else if c == '\\' {
                '\\'
            } else if c == '\n' {
                'n'
            } else if c == '\r' {
                'r'
            } else {
                't'
            };
            assert(esc_char(c) =~= seq!['\\', e]);
            assert(s[0] == '\\' && s[1] == e);
            assert(s.len() >= 2);
            assert(unesc_simple(e) == c);
            assert(s.skip(2) =~= tail);
            assert(scan_string(s) == Some((seq![c] + v1, rest)));
        } else if needs_u_escape(c) {
            let cu = c as u32;
            assert(cu <= 0x7F);
            let h = hex_digit((cu / 16) as int);
            let l = hex_digit((cu % 16) as int);
            assert(esc_char(c) =~= seq!['\\', 'u', '0', '0', h, l]);
            assert(s.len() >= 6);
            assert(s[0] == '\\' && s[1] == 'u' && s[2] == '0' && s[3] == '0' && s[4] == h && s[5]
                == l);
            assert(0 <= ((cu / 16) as int) < 16 && 0 <= ((cu % 16) as int) < 16);
            lemma_hex_roundtrip((cu / 16) as int);
            lemma_hex_roundtrip((cu % 16) as int);
            assert(hex_val(s[2]) == 0 && hex_val(s[3]) == 0);
            assert(hex4_ok(s, 2));
            assert(hex4_val(s, 2) == cu as int);
            assert(vstd::utf8::is_scalar(hex4_val(s, 2) as u32));
            let d = (hex4_val(s, 2) as u32) as char;
            assert(d == c) by {
                assert(hex4_val(s, 2) as u32 == cu);
                vstd::utf8::char_u32_cast(c, cu);
            }
            assert(s.skip(6) =~= tail);
            assert(scan_string(s) == Some((seq![c] + v1, rest)));
        } else {
            assert(is_raw_char(c));
            assert(esc_char(c) =~= seq![c]);
            assert(s[0] == c);
            assert(s[0] != '"' && s[0] != '\\');
            assert(s.skip(1) =~= tail);
            assert(scan_string(s) == Some((seq![c] + v1, rest)));
        }
    }
}

/// A literal consumed from the front of the input, or `None` when the input
/// does not start with it.
pub open spec fn expect(s: Seq<char>, lit: Seq<char>) -> Option<Seq<char>> {
    if lit.is_prefix_of(s) {
        Some(s.skip(lit.len() as int))
    } else {
        None
    }
}

pub proof fn lemma_expect_concat(lit: Seq<char>, rest: Seq<char>)
    ensures
        expect(lit + rest, lit) == Some(rest),
{
    assert((lit + rest).subrange(0, lit.len() as int) =~= lit);
    assert(lit.is_prefix_of(lit + rest));
    assert((lit + rest).skip(lit.len() as int) =~= rest);
}

/// Consumes `lit` at position `i` of `s`.
fn expect_lit(s: &str, i: usize, lit: &str) -> (r: Option<usize>)
    requires
        i <= s@.len(),
    ensures
        match r {
            Some(j) => i <= j <= s@.len() && expect(s@.skip(i as int), lit@) == Some(
                s@.skip(j as int),
            ),
            None => expect(s@.skip(i as int), lit@) is None,
        },
{
    let n = s.unicode_len();
    let m = lit.unicode_len();
    if n - i < m {
        proof {
            assert(s@.skip(i as int).len() < lit@.len());
            assert(!lit@.is_prefix_of(s@.skip(i as int)));
        }
        return None;
    }
    let mut k: usize = 0;
    while k < m
        invariant
            n == s@.len(),
            m == lit@.len(),
            i + m <= n,
            k <= m,
            forall|j: int| 0 <= j < k ==> s@[i + j] == lit@[j],
        decreases m - k,
    {
        if s.get_char(i + k) != lit.get_char(k) {
            proof {
                assert(s@.skip(i as int)[k as int] == s@[i + k]);
                assert(!lit@.is_prefix_of(s@.skip(i as int)));
            }
            return None;
        }
        k = k + 1;
    }
    proof {
        assert(lit@ =~= s@.skip(i as int).subrange(0, m as int));
        assert(lit@.is_prefix_of(s@.skip(i as int)));
        assert(s@.skip(i as int).skip(m as int) =~= s@.skip(i + m));
    }
    Some(i + m)
}

/// Composes one decoded character onto the scan already accumulated.
proof fn lemma_scan_step(
    full: Seq<char>,
    i: int,
    cur: int,
    cur2: int,
    out0: Seq<char>,
    d: char,
)
    requires
        scan_string(full.skip(i)) == (match scan_string(full.skip(cur)) {
            Some(p) => Some((out0 + p.0, p.1)),
            None => None::<(Seq<char>, Seq<char>)>,
        }),
        scan_string(full.skip(cur)) == (match scan_string(full.skip(cur2)) {
            Some(p) => Some((seq![d] + p.0, p.1)),
            None => None::<(Seq<char>, Seq<char>)>,
        }),
    ensures
        scan_string(full.skip(i)) == (match scan_string(full.skip(cur2)) {
            Some(p) => Some((out0.push(d) + p.0, p.1)),
            None => None::<(Seq<char>, Seq<char>)>,
        }),
{
    match scan_string(full.skip(cur2)) {
        Some(p) => {
            assert(out0 + (seq![d] + p.0) =~= out0.push(d) + p.0);
        },
        None => {
        },
    }
}

/// Four hex digits read at position `i`, as their value.
fn read_hex4(s: &str, i: usize) -> (r: Option<u32>)
    requires
        i + 4 <= s@.len(),
        s@.len() <= usize::MAX,
    ensures
        match r {
            Some(v) => hex4_ok(s@, i as int) && v as int == hex4_val(s@, i as int) && v < 0x10000,
            None => !hex4_ok(s@, i as int),
        },
{
    let h0 = hex_val_exec(s.get_char(i));
    let h1 = hex_val_exec(s.get_char(i + 1));
    let h2 = hex_val_exec(s.get_char(i + 2));
    let h3 = hex_val_exec(s.get_char(i + 3));
    if h0 == 16 || h1 == 16 || h2 == 16 || h3 == 16 {
        return None;
    }
    Some(((h0 * 16 + h1) * 16 + h2) * 16 + h3)
}

/// Whether a value is a Unicode scalar, as `is_scalar` has it.
fn is_scalar_exec(v: u32) -> (r: bool)
    ensures
        r == vstd::utf8::is_scalar(v),
{
    v < 0xD800 || (0xE000 <= v && v <= 0x10FFFF)
}

/// Decodes the quoted value that starts at position `i`; `Some` hands back
/// the value and the position just after its closing quote.
fn scan_str_value(s: &str, i: usize) -> (r: Option<(String, usize)>)
    requires
        i <= s@.len(),
    ensures
        match r {
            Some(p) => i < p.1 <= s@.len() && scan_string(s@.skip(i as int)) == Some(
                (p.0@, s@.skip(p.1 as int)),
            ),
            None => scan_string(s@.skip(i as int)) is None,
        },
{
    let n = s.unicode_len();
    let mut out = String::new();
    let mut cur: usize = i;
    proof {
        assert(out@ =~= Seq::<char>::empty());
    }
    loop
        invariant
            n == s@.len(),
            i <= cur <= n,
            scan_string(s@.skip(i as int)) == (match scan_string(s@.skip(cur as int)) {
                Some(p) => Some((out@ + p.0, p.1)),
                None => None::<(Seq<char>, Seq<char>)>,
            }),
        decreases n - cur,
    {
        let ghost suf = s@.skip(cur as int);
        if cur == n {
            proof {
                assert(suf.len() == 0);
            }
            return None;
        }
        let c = s.get_char(cur);
        proof {
            assert(suf[0] == c);
        }
        if c == '"' {
            proof {
                assert(suf.skip(1) =~= s@.skip(cur + 1));
                assert(scan_string(suf) == Some((Seq::<char>::empty(), s@.skip(cur + 1))));
                assert(out@ + Seq::<char>::empty() =~= out@);
            }
            return Some((out, cur + 1));
        } else if c == '\\' {
            if cur + 1 == n {
                proof {
                    assert(suf.len() < 2);
                }
                return None;
            }
            let e = s.get_char(cur + 1);
            proof {
                assert(suf[1] == e);
            }
            if e == '"' || e == '\\' || e == 'b' || e == 'f' || e == 'n' || e == 'r' || e == 't' {
                let d = if e == '"' {
                    '"'
                } else if e == '\\' {
                    '\\'
                } else if e == 'b' {
                    '\u{0008}'
                } else if e == 'f' {
                    '\u{000C}'
                } else if e == 'n' {
                    '\n'
                } else if e == 'r' {
                    '\r'
                } else {
                    '\t'
                };
                let ghost out0 = out@;
                proof {
                    assert(d == unesc_simple(e));
                    assert(suf.skip(2) =~= s@.skip(cur + 2));
                    assert(scan_string(suf) == (match scan_string(s@.skip(cur + 2)) {
                        Some(p) => Some((seq![d] + p.0, p.1)),
                        None => None::<(Seq<char>, Seq<char>)>,
                    }));
                    lemma_scan_step(s@, i as int, cur as int, cur + 2, out0, d);
                }
                out.push(d);
                cur = cur + 2;
            } else if e == 'u' {
                if n - cur < 6 {
                    proof {
                        assert(suf.len() < 6);
                    }
                    return None;
                }
                proof {
                    assert(forall|k: int|
                        2 <= k < 6 ==> #[trigger] suf[k] == s@[cur + k]);
                }
                let v = match read_hex4(s, cur + 2) {
                    Some(v) => v,
                    None => {
                        proof {
                            assert(!hex4_ok(suf, 2));
                        }
                        return None;
                    },
                };
                proof {
                    assert(hex4_ok(suf, 2));
                    assert(v as int == hex4_val(suf, 2));
                }
                if !is_scalar_exec(v) {
                    proof {
                        assert(!vstd::utf8::is_scalar(hex4_val(suf, 2) as u32));
                    }
                    return None;
                }
                let d = match char::from_u32(v) {
                    Some(d) => d,
                    None => {
                        proof {
                            assert(false);
                        }
                        return None;
                    },
                };
                let ghost out0 = out@;
                proof {
                    assert(d == ((hex4_val(suf, 2) as u32) as char)) by {
                        assert((d as u32) == v);
                        vstd::utf8::char_u32_cast(d, v);
                    }
                    assert(suf.skip(6) =~= s@.skip(cur + 6));
                    assert(scan_string(suf) == (match scan_string(s@.skip(cur + 6)) {
                        Some(p) => Some((seq![d] + p.0, p.1)),
                        None => None::<(Seq<char>, Seq<char>)>,
                    }));
                    lemma_scan_step(s@, i as int, cur as int, cur + 6, out0, d);
                }
                out.push(d);
                cur = cur + 6;
            } else if e == 'U' {
                if n - cur < 10 {
                    proof {
                        assert(suf.len() < 10);
                    }
                    return None;
                }
                proof {
                    assert(forall|k: int|
                        2 <= k < 10 ==> #[trigger] suf[k] == s@[cur + k]);
                }
                let hi = match read_hex4(s, cur + 2) {
                    Some(v) => v,
                    None => {
                        proof {
                            assert(!hex4_ok(suf, 2));
                        }
                        return None;
                    },
                };
                let lo = match read_hex4(s, cur + 6) {
                    Some(v) => v,
                    None => {
                        proof {
                            assert(!hex4_ok(suf, 6));
                        }
                        return None;
                    },
                };
                let v = hi * 65536 + lo;
                proof {
                    assert(hex4_ok(suf, 2) && hex4_ok(suf, 6));
                    assert(v as int == hex4_val(suf, 2) * 65536 + hex4_val(suf, 6));
                }
                if !is_scalar_exec(v) {
                    proof {
                        assert(!vstd::utf8::is_scalar(
                            (hex4_val(suf, 2) * 65536 + hex4_val(suf, 6)) as u32,
                        ));
                    }
                    return None;
                }
                let d = match char::from_u32(v) {
                    Some(d) => d,
                    None => {
                        proof {
                            assert(false);
                        }
                        return None;
                    },
                };
                let ghost out0 = out@;
                proof {
                    assert(d == ((hex4_val(suf, 2) * 65536 + hex4_val(suf, 6)) as u32) as char) by {
                        assert((d as u32) == v);
                        vstd::utf8::char_u32_cast(d, v);
                    }
                    assert(suf.skip(10) =~= s@.skip(cur + 10));
                    assert(scan_string(suf) == (match scan_string(s@.skip(cur + 10)) {
                        Some(p) => Some((seq![d] + p.0, p.1)),
                        None => None::<(Seq<char>, Seq<char>)>,
                    }));
                    lemma_scan_step(s@, i as int, cur as int, cur + 10, out0, d);
                }
                out.push(d);
                cur = cur + 10;
            } else {
                return None;
            }
        } else {
            let u = c as u32;
            if !(u >= 0x20 || u == 0x09) || u == 0x7F {
                proof {
                    assert(!is_raw_char(c));
                }
                return None;
            }
            let ghost out0 = out@;
            proof {
                assert(is_raw_char(c));
                assert(suf.skip(1) =~= s@.skip(cur + 1));
                assert(scan_string(suf) == (match scan_string(s@.skip(cur + 1)) {
                    Some(p) => Some((seq![c] + p.0, p.1)),
                    None => None::<(Seq<char>, Seq<char>)>,
                }));
                lemma_scan_step(s@, i as int, cur as int, cur + 1, out0, c);
            }
            out.push(c);
            cur = cur + 1;
        }
    }
}

pub open spec fn lit_base() -> Seq<char> {
    "base_path = \""@
}

pub open spec fn lit_log() -> Seq<char> {
    "\nlog_level = \""@
}

pub open spec fn lit_active() -> Seq<char> {
    "\nactive_profile = \""@
}

pub open spec fn lit_nl() -> Seq<char> {
    "\n"@
}

pub open spec fn lit_quote() -> Seq<char> {
    "\""@
}

pub open spec fn lit_head() -> Seq<char> {
    "[profiles.\""@
}

pub open spec fn lit_mid() -> Seq<char> {
    "]\nbranch = \""@
}

/// One profile's section in the file.
pub open spec fn ser_block(e: EntryV) -> Seq<char> {
    lit_head() + esc(e.0) + lit_quote() + lit_mid() + esc(e.1) + lit_quote() + lit_nl()
}

/// The profile sections, in entry order.
pub open spec fn ser_profiles(ps: Seq<EntryV>) -> Seq<char>
    decreases ps.len(),
{
    if ps.len() == 0 {
        Seq::empty()
    } else {
        ser_block(ps[0]) + ser_profiles(ps.skip(1))
    }
}

/// The whole document as it is written to disk.
pub open spec fn ser_doc(c: ConfigV) -> Seq<char> {
    lit_base() + esc(c.base_path) + lit_quote() + lit_log() + esc(level_str(c.log_level))
        + lit_quote() + lit_active() + esc(c.active_profile) + lit_quote() + lit_nl()
        + ser_profiles(c.profiles)
}

pub proof fn lemma_ser_profiles_append(a: Seq<EntryV>, b: Seq<EntryV>)
    ensures
        ser_profiles(a + b) == ser_profiles(a) + ser_profiles(b),
    decreases a.len(),
{
    if a.len() == 0 {
        assert(a + b =~= b);
        assert(ser_profiles(a) + ser_profiles(b) =~= ser_profiles(b));
    } else {
        assert((a + b).skip(1) =~= a.skip(1) + b);
        lemma_ser_profiles_append(a.skip(1), b);
        assert((a + b)[0] == a[0]);
        assert((a + b).len() > 0);
        assert(ser_profiles(a + b) == ser_block(a[0]) + (ser_profiles(a.skip(1)) + ser_profiles(
            b,
        )));
        assert(ser_block(a[0]) + (ser_profiles(a.skip(1)) + ser_profiles(b)) =~= (ser_block(a[0])
            + ser_profiles(a.skip(1))) + ser_profiles(b));
    }
}

proof fn lemma_ser_profiles_snoc(ps: Seq<EntryV>, i: int)
    requires
        0 <= i < ps.len(),
    ensures
        ser_profiles(ps.take(i + 1)) == ser_profiles(ps.take(i)) + ser_block(ps[i]),
{
    assert(ps.take(i + 1) =~= ps.take(i) + seq![ps[i]]);
    lemma_ser_profiles_append(ps.take(i), seq![ps[i]]);
    assert(seq![ps[i]].skip(1) =~= Seq::<EntryV>::empty());
    assert(ser_profiles(Seq::<EntryV>::empty()) =~= Seq::<char>::empty());
    assert(ser_profiles(seq![ps[i]]) == ser_block(seq![ps[i]][0]) + ser_profiles(
        seq![ps[i]].skip(1),
    ));
    assert(ser_profiles(seq![ps[i]]) =~= ser_block(ps[i]));
}

/// Horizontal whitespace: what may pad tokens within a line.
pub open spec fn is_ws_char(c: char) -> bool {
    c == ' ' || c == '\t'
}

/// The text with its leading spaces and tabs dropped.
pub open spec fn skip_ws(s: Seq<char>) -> Seq<char>
    decreases s.len(),
{
    if s.len() > 0 && is_ws_char(s[0]) {
        skip_ws(s.skip(1))
    } else {
        s
    }
}

proof fn lemma_skip_ws_len(s: Seq<char>)
    ensures
        skip_ws(s).len() <= s.len(),
    decreases s.len(),
{
    if s.len() > 0 && is_ws_char(s[0]) {
        lemma_skip_ws_len(s.skip(1));
    }
}

/// The rest of the text after a comment: everything up to and including the
/// next newline goes, or everything when no newline follows.
pub open spec fn eat_comment(s: Seq<char>) -> Seq<char>
    decreases s.len(),
{
    if s.len() == 0 {
        s
    } else if s[0] == '\n' {
        s.skip(1)
    } else {
        eat_comment(s.skip(1))
    }
}

proof fn lemma_eat_comment_len(s: Seq<char>)
    ensures
        eat_comment(s).len() <= s.len(),
    decreases s.len(),
{
    if s.len() > 0 && s[0] != '\n' {
        lemma_eat_comment_len(s.skip(1));
    }
}

/// What may close a line: optional whitespace, an optional comment, then a
/// newline (bare or CRLF) or the end of the text.
pub open spec fn eat_line_end(s: Seq<char>) -> Option<Seq<char>> {
    let t = skip_ws(s);
    if t.len() == 0 {
        Some(t)
    } else if t[0] == '#' {
        Some(eat_comment(t.skip(1)))
    } else if t[0] == '\n' {
        Some(t.skip(1))
    } else if t.len() >= 2 && t[0] == '\r' && t[1] == '\n' {
        Some(t.skip(2))
    } else {
        None
    }
}

proof fn lemma_eat_line_end_len(s: Seq<char>)
    ensures
        eat_line_end(s) matches Some(r) ==> r.len() <= s.len(),
{
    lemma_skip_ws_len(s);
    let t = skip_ws(s);
    if t.len() > 0 && t[0] == '#' {
        lemma_eat_comment_len(t.skip(1));
    }
}

/// The text positioned at its first line holding content: whitespace, blank
/// lines and comment lines before it are dropped.
pub open spec fn skip_blanks(s: Seq<char>) -> Seq<char>
    decreases s.len(),
    via skip_blanks_dec
{
    let t = skip_ws(s);
    if t.len() == 0 {
        t
    } else if t[0] == '#' {
        skip_blanks(eat_comment(t.skip(1)))
    } else if t[0] == '\n' {
        skip_blanks(t.skip(1))
    } else if t.len() >= 2 && t[0] == '\r' && t[1] == '\n' {
        skip_blanks(t.skip(2))
    } else {
        t
    }
}

#[via_fn]
proof fn skip_blanks_dec(s: Seq<char>) {
    lemma_skip_ws_len(s);
    let t = skip_ws(s);
    if t.len() > 0 && t[0] == '#' {
        lemma_eat_comment_len(t.skip(1));
    }
}

proof fn lemma_skip_blanks_len(s: Seq<char>)
    ensures
        skip_blanks(s).len() <= s.len(),
    decreases s.len(),
{
    lemma_skip_ws_len(s);
    let t = skip_ws(s);
    if t.len() == 0 {
    } else if t[0] == '#' {
        lemma_eat_comment_len(t.skip(1));
        lemma_skip_blanks_len(eat_comment(t.skip(1)));
    } else if t[0] == '\n' {
        lemma_skip_blanks_len(t.skip(1));
    } else if t.len() >= 2 && t[0] == '\r' && t[1] == '\n' {
        lemma_skip_blanks_len(t.skip(2));
    }
}

/// A character a bare (unquoted) key may hold.
pub open spec fn is_bare_key_char(c: char) -> bool {
    (0x61 <= (c as u32) && (c as u32) <= 0x7A) || (0x41 <= (c as u32) && (c as u32) <= 0x5A) || (
    0x30 <= (c as u32) && (c as u32) <= 0x39) || c == '_' || c == '-'
}

/// The longest bare-key prefix, and what follows it.
pub open spec fn take_bare(s: Seq<char>) -> (Seq<char>, Seq<char>)
    decreases s.len(),
{
    if s.len() > 0 && is_bare_key_char(s[0]) {
        let p = take_bare(s.skip(1));
        (seq![s[0]] + p.0, p.1)
    } else {
        (Seq::empty(), s)
    }
}

proof fn lemma_take_bare_len(s: Seq<char>)
    ensures
        take_bare(s).1.len() + take_bare(s).0.len() == s.len(),
    decreases s.len(),
{
    if s.len() > 0 && is_bare_key_char(s[0]) {
        lemma_take_bare_len(s.skip(1));
    }
}

/// A profile identifier in a section header: quoted, with the full escape
/// set, or bare.
pub open spec fn parse_profile_key(s: Seq<char>) -> Option<(Seq<char>, Seq<char>)> {
    if s.len() > 0 && s[0] == '"' {
        scan_string(s.skip(1))
    } else {
        let p = take_bare(s);
        if p.0.len() > 0 {
            Some(p)
        } else {
            None
        }
    }
}

proof fn lemma_parse_profile_key_len(s: Seq<char>)
    ensures
        parse_profile_key(s) matches Some(p) ==> p.1.len() < s.len(),
{
    if s.len() > 0 && s[0] == '"' {
        lemma_scan_rest_shorter(s.skip(1));
    } else {
        lemma_take_bare_len(s);
    }
}

/// The tail of a value line, after its key: optional whitespace, `=`,
/// optional whitespace, a quoted string, and the line's end.
pub open spec fn parse_kv_tail(s: Seq<char>) -> Option<(Seq<char>, Seq<char>)> {
    let t = skip_ws(s);
    if t.len() > 0 && t[0] == '=' {
        let u = skip_ws(t.skip(1));
        if u.len() > 0 && u[0] == '"' {
            match scan_string(u.skip(1)) {
                Some(p) => match eat_line_end(p.1) {
                    Some(r) => Some((p.0, r)),
                    None => None,
                },
                None => None,
            }
        } else {
            None
        }
    } else {
        None
    }
}

proof fn lemma_parse_kv_tail_len(s: Seq<char>)
    ensures
        parse_kv_tail(s) matches Some(p) ==> p.1.len() < s.len(),
{
    lemma_skip_ws_len(s);
    let t = skip_ws(s);
    if t.len() > 0 && t[0] == '=' {
        lemma_skip_ws_len(t.skip(1));
        let u = skip_ws(t.skip(1));
        if u.len() > 0 && u[0] == '"' {
            lemma_scan_rest_shorter(u.skip(1));
            match scan_string(u.skip(1)) {
                Some(p) => {
                    lemma_eat_line_end_len(p.1);
                },
                None => {},
            }
        }
    }
}

/// One `[profiles.<key>]` section: its header line, then (past blank and
/// comment lines) its single `branch` line; whitespace may pad every token.
pub open spec fn parse_section(s: Seq<char>) -> Option<((Seq<char>, Seq<char>), Seq<char>)> {
    if s.len() > 0 && s[0] == '[' {
        let t1 = skip_ws(s.skip(1));
        match expect(t1, "profiles"@) {
            None => None,
            Some(s2) => {
                let t2 = skip_ws(s2);
                if t2.len() > 0 && t2[0] == '.' {
                    let t3 = skip_ws(t2.skip(1));
                    match parse_profile_key(t3) {
                        None => None,
                        Some(pk) => {
                            let t4 = skip_ws(pk.1);
                            if t4.len() > 0 && t4[0] == ']' {
                                match eat_line_end(t4.skip(1)) {
                                    None => None,
                                    Some(s5) => {
                                        let t5 = skip_blanks(s5);
                                        match expect(t5, "branch"@) {
                                            None => None,
                                            Some(s6) => match parse_kv_tail(s6) {
                                                None => None,
                                                Some(bv) => Some(((pk.0, bv.0), bv.1)),
                                            },
                                        }
                                    },
                                }
                            } else {
                                None
                            }
                        },
                    }
                } else {
                    None
                }
            },
        }
    } else {
        None
    }
}

proof fn lemma_parse_section_len(s: Seq<char>)
    ensures
        parse_section(s) matches Some(p) ==> p.1.len() < s.len(),
{
    if s.len() > 0 && s[0] == '[' {
        lemma_skip_ws_len(s.skip(1));
        let t1 = skip_ws(s.skip(1));
        match expect(t1, "profiles"@) {
            None => {},
            Some(s2) => {
                lemma_skip_ws_len(s2);
                let t2 = skip_ws(s2);
                if t2.len() > 0 && t2[0] == '.' {
                    lemma_skip_ws_len(t2.skip(1));
                    let t3 = skip_ws(t2.skip(1));
                    lemma_parse_profile_key_len(t3);
                    match parse_profile_key(t3) {
                        None => {},
                        Some(pk) => {
                            lemma_skip_ws_len(pk.1);
                            let t4 = skip_ws(pk.1);
                            if t4.len() > 0 && t4[0] == ']' {
                                lemma_eat_line_end_len(t4.skip(1));
                                match eat_line_end(t4.skip(1)) {
                                    None => {},
                                    Some(s5) => {
                                        lemma_skip_blanks_len(s5);
                                        let t5 = skip_blanks(s5);
                                        match expect(t5, "branch"@) {
                                            None => {},
                                            Some(s6) => {
                                                lemma_parse_kv_tail_len(s6);
                                            },
                                        }
                                    },
                                }
                            }
                        },
                    }
                }
            },
        }
    }
}

/// The profile sections, in whatever order the file holds them; each key may
/// appear once, and the collection they denote is key-sorted regardless of
/// that order.
pub open spec fn parse_sections(s: Seq<char>, entries: Seq<EntryV>) -> Option<Seq<EntryV>>
    decreases s.len(),
    via parse_sections_dec
{
    let t = skip_blanks(s);
    if t.len() == 0 {
        Some(entries)
    } else {
        match parse_section(t) {
            None => None,
            Some(p) => if has_key(entries, p.0.0) {
                None
            } else {
                parse_sections(p.1, spec_insert(entries, p.0.0, p.0.1))
            },
        }
    }
}

#[via_fn]
proof fn parse_sections_dec(s: Seq<char>, entries: Seq<EntryV>) {
    lemma_skip_blanks_len(s);
    lemma_parse_section_len(skip_blanks(s));
}

/// The document head: the three top-level values, once each and in any order,
/// then the profile sections. Blank lines and comments may stand anywhere
/// between lines.
pub open spec fn parse_top(
    s: Seq<char>,
    bp: Option<Seq<char>>,
    lvl: Option<LogLevel>,
    ap: Option<Seq<char>>,
) -> Option<ConfigV>
    decreases s.len(),
    via parse_top_dec
{
    let t = skip_blanks(s);
    if t.len() == 0 || t[0] == '[' {
        if bp is Some && lvl is Some && ap is Some {
            match parse_sections(t, Seq::empty()) {
                None => None,
                Some(entries) => Some(
                    ConfigV {
                        base_path: bp->0,
                        log_level: lvl->0,
                        profiles: entries,
                        active_profile: ap->0,
                    },
                ),
            }
        } else {
            None
        }
    } else {
        match expect(t, "base_path"@) {
            Some(s1) => if bp is Some {
                None
            } else {
                match parse_kv_tail(s1) {
                    None => None,
                    Some(p) => parse_top(p.1, Some(p.0), lvl, ap),
                }
            },
            None => match expect(t, "log_level"@) {
                Some(s1) => if lvl is Some {
                    None
                } else {
                    match parse_kv_tail(s1) {
                        None => None,
                        Some(p) => match level_of(p.0) {
                            None => None,
                            Some(l) => parse_top(p.1, bp, Some(l), ap),
                        },
                    }
                },
                None => match expect(t, "active_profile"@) {
                    Some(s1) => if ap is Some {
                        None
                    } else {
                        match parse_kv_tail(s1) {
                            None => None,
                            Some(p) => parse_top(p.1, bp, lvl, Some(p.0)),
                        }
                    },
                    None => None,
                },
            },
        }
    }
}

#[via_fn]
proof fn parse_top_dec(s: Seq<char>, bp: Option<Seq<char>>, lvl: Option<LogLevel>, ap: Option<
    Seq<char>,
>) {
    lemma_skip_blanks_len(s);
    let t = skip_blanks(s);
    match expect(t, "base_path"@) {
        Some(s1) => {
            lemma_parse_kv_tail_len(s1);
        },
        None => {},
    }
    match expect(t, "log_level"@) {
        Some(s1) => {
            lemma_parse_kv_tail_len(s1);
        },
        None => {},
    }
    match expect(t, "active_profile"@) {
        Some(s1) => {
            lemma_parse_kv_tail_len(s1);
        },
        None => {},
    }
}

/// The decoded document: text in the tolerated TOML shape — the three
/// top-level keys once each in any order, then `[profiles.<key>]` sections
/// each holding one `branch`, with whitespace, comments, blank lines, CRLF
/// line ends and bare or quoted section keys as TOML writes them.
pub open spec fn parse_doc(s: Seq<char>) -> Option<ConfigV> {
    parse_top(s, None, None, None)
}

/// An optional collected value, as the specification sees it.
pub open spec fn opt_view(o: Option<String>) -> Option<Seq<char>> {
    match o {
        Some(x) => Some(x@),
        None => None,
    }
}

/// A consumed literal never matches text that starts with another character.
proof fn lemma_expect_mismatch(s: Seq<char>, lit: Seq<char>)
    requires
        lit.len() > 0,
        s.len() > 0 ==> s[0] != lit[0],
    ensures
        expect(s, lit) is None,
{
    if lit.is_prefix_of(s) {
        assert(lit[0] == s.subrange(0, lit.len() as int)[0]);
        assert(lit[0] == s[0]);
    }
}

/// A freshly encoded value line is read back as the value it encodes.
proof fn lemma_kv_tail_complete(v: Seq<char>, rest: Seq<char>)
    requires
        rest.len() > 0,
        rest[0] == '\n',
    ensures
        parse_kv_tail(" = \""@ + esc(v) + seq!['"'] + rest) == Some((v, rest.skip(1))),
{
    reveal_strlit(" = \"");
    let s = " = \""@ + esc(v) + seq!['"'] + rest;
    assert(s[0] == ' ' && s[1] == '=' && s[2] == ' ' && s[3] == '"');
    assert(s.skip(1) =~= seq!['=', ' ', '"'] + (esc(v) + seq!['"'] + rest));
    assert(skip_ws(s.skip(1)) == s.skip(1));
    assert(skip_ws(s) == s.skip(1));
    let t = s.skip(1);
    assert(t[0] == '=');
    let u0 = t.skip(1);
    assert(u0 =~= seq![' ', '"'] + (esc(v) + seq!['"'] + rest));
    assert(u0[0] == ' ');
    assert(u0.skip(1) =~= seq!['"'] + (esc(v) + seq!['"'] + rest));
    assert(skip_ws(u0.skip(1)) == u0.skip(1));
    assert(skip_ws(u0) == u0.skip(1));
    let u = u0.skip(1);
    assert(u[0] == '"');
    assert(u.skip(1) =~= esc(v) + seq!['"'] + rest);
    lemma_scan_esc(v, rest);
    assert(scan_string(u.skip(1)) == Some((v, rest)));
    assert(skip_ws(rest) == rest);
    assert(eat_line_end(rest) == Some(rest.skip(1)));
}

/// A freshly encoded profile section is read back as its entry.
#[verifier::rlimit(100)]
proof fn lemma_section_complete(id: Seq<char>, br: Seq<char>, rest: Seq<char>)
    ensures
        parse_section(ser_block((id, br)) + rest) == Some(((id, br), rest)),
{
    reveal_strlit("[profiles.\"");
    reveal_strlit("profiles");
    reveal_strlit("]\nbranch = \"");
    reveal_strlit("branch");
    reveal_strlit(" = \"");
    reveal_strlit("\"");
    reveal_strlit("\n");
    let s = ser_block((id, br)) + rest;
    let r2 = lit_mid() + esc(br) + lit_quote() + lit_nl() + rest;
    let x1 = esc(id) + seq!['"'] + r2;
    assert(lit_head() =~= seq!['['] + "profiles"@ + seq!['.', '"']);
    assert(lit_quote() =~= seq!['"']);
    assert(lit_nl() =~= seq!['\n']);
    assert(s =~= seq!['['] + ("profiles"@ + (seq!['.', '"'] + x1)));
    assert(s[0] == '[');
    assert(s.skip(1) =~= "profiles"@ + (seq!['.', '"'] + x1));
    assert("profiles"@[0] == 'p');
    assert(s.skip(1)[0] == 'p');
    assert(skip_ws(s.skip(1)) == s.skip(1));
    lemma_expect_concat("profiles"@, seq!['.', '"'] + x1);
    let s2 = seq!['.', '"'] + x1;
    assert(expect(s.skip(1), "profiles"@) == Some(s2));
    assert(s2[0] == '.');
    assert(skip_ws(s2) == s2);
    assert(s2.skip(1) =~= seq!['"'] + x1);
    assert(s2.skip(1)[0] == '"');
    assert(skip_ws(s2.skip(1)) == s2.skip(1));
    let t3 = s2.skip(1);
    assert(t3.skip(1) =~= esc(id) + seq!['"'] + r2);
    lemma_scan_esc(id, r2);
    assert(parse_profile_key(t3) == Some((id, r2)));
    assert(lit_mid() =~= seq![']'] + seq!['\n'] + "branch"@ + " = \""@);
    let s5 = "branch"@ + (" = \""@ + esc(br) + seq!['"'] + (seq!['\n'] + rest));
    assert(r2 =~= seq![']'] + (seq!['\n'] + s5));
    assert(r2[0] == ']');
    assert(skip_ws(r2) == r2);
    assert(r2.skip(1) =~= seq!['\n'] + s5);
    assert(r2.skip(1)[0] == '\n');
    assert(skip_ws(r2.skip(1)) == r2.skip(1));
    assert(r2.skip(1).skip(1) =~= s5);
    assert(eat_line_end(r2.skip(1)) == Some(s5));
    assert("branch"@[0] == 'b');
    assert(s5[0] == 'b');
    assert(skip_ws(s5) == s5);
    assert(skip_blanks(s5) == s5);
    lemma_expect_concat("branch"@, " = \""@ + esc(br) + seq!['"'] + (seq!['\n'] + rest));
    let s6 = " = \""@ + esc(br) + seq!['"'] + (seq!['\n'] + rest);
    assert(expect(s5, "branch"@) == Some(s6));
    assert(seq!['\n'] + rest =~= (seq!['\n'] + rest));
    lemma_kv_tail_complete(br, seq!['\n'] + rest);
    assert((seq!['\n'] + rest).skip(1) =~= rest);
    assert(parse_kv_tail(s6) == Some((br, rest)));
}

/// The encoded sections, appended after entries already decoded, read back as
/// the whole collection.
proof fn lemma_sections_complete(done: Seq<EntryV>, ps: Seq<EntryV>)
    requires
        entries_sorted(done + ps),
    ensures
        parse_sections(ser_profiles(ps), done) == Some(done + ps),
    decreases ps.len(),
{
    if ps.len() == 0 {
        let s = ser_profiles(ps);
        assert(s.len() == 0);
        assert(skip_ws(s) == s);
        assert(skip_blanks(s) == s);
        assert(done + ps =~= done);
    } else {
        reveal_strlit("[profiles.\"");
        let e = ps[0];
        let tail = ps.skip(1);
        let s = ser_profiles(ps);
        assert(s == ser_block(e) + ser_profiles(tail));
        assert((e.0, e.1) == e);
        assert(ser_block((e.0, e.1)) == ser_block(e));
        lemma_section_complete(e.0, e.1, ser_profiles(tail));
        assert(lit_head()[0] == '[');
        assert(s[0] == '[');
        assert(skip_ws(s) == s);
        assert(skip_blanks(s) == s);
        assert(parse_section(s) == Some(((e.0, e.1), ser_profiles(tail))));
        assert(!has_key(done, e.0)) by {
            if has_key(done, e.0) {
                let m = choose|m: int| 0 <= m < done.len() && (#[trigger] done[m]).0 == e.0;
                assert((done + ps)[m] == done[m]);
                assert((done + ps)[done.len() as int] == e);
                assert(lex_lt(done[m].0, e.0));
                lemma_lex_trichotomy(done[m].0, e.0);
            }
        }
        assert forall|i: int| 0 <= i < done.len() implies lex_lt((#[trigger] done[i]).0, e.0) by {
            assert((done + ps)[i] == done[i]);
            assert((done + ps)[done.len() as int] == e);
            assert(lex_lt((done + ps)[i].0, (done + ps)[done.len() as int].0));
        }
        lemma_insert_at_end(done, e.0, e.1);
        assert(spec_insert(done, e.0, e.1) =~= done.push(e));
        assert(done.push(e) + tail =~= done + ps);
        lemma_sections_complete(done.push(e), tail);
        assert(parse_sections(ser_profiles(tail), done.push(e)) == Some(done + ps));
    }
}

/// One freshly encoded head line, read in the state where its key is still
/// owed: the value is taken and the walk moves past the line.
proof fn lemma_top_line_bp(v: Seq<char>, tail: Seq<char>, lvl: Option<LogLevel>, ap: Option<
    Seq<char>,
>)
    requires
        tail.len() > 0,
        tail[0] == '\n',
    ensures
        parse_top("base_path"@ + (" = \""@ + esc(v) + seq!['"'] + tail), None, lvl, ap)
            == parse_top(tail.skip(1), Some(v), lvl, ap),
{
    reveal_strlit("base_path");
    reveal_strlit(" = \"");
    let kv = " = \""@ + esc(v) + seq!['"'] + tail;
    let s = "base_path"@ + kv;
    assert(s[0] == 'b');
    assert(skip_ws(s) == s);
    assert(skip_blanks(s) == s);
    assert(s.len() > 0 && s[0] != '[');
    lemma_expect_concat("base_path"@, kv);
    lemma_kv_tail_complete(v, tail);
}

proof fn lemma_top_line_lvl(l: LogLevel, tail: Seq<char>, bp: Option<Seq<char>>, ap: Option<
    Seq<char>,
>)
    requires
        tail.len() > 0,
        tail[0] == '\n',
    ensures
        parse_top("log_level"@ + (" = \""@ + esc(level_str(l)) + seq!['"'] + tail), bp, None, ap)
            == parse_top(tail.skip(1), bp, Some(l), ap),
{
    reveal_strlit("base_path");
    reveal_strlit("log_level");
    reveal_strlit(" = \"");
    let kv = " = \""@ + esc(level_str(l)) + seq!['"'] + tail;
    let s = "log_level"@ + kv;
    assert(s[0] == 'l');
    assert(skip_ws(s) == s);
    assert(skip_blanks(s) == s);
    assert(s.len() > 0 && s[0] != '[');
    lemma_expect_mismatch(s, "base_path"@);
    lemma_expect_concat("log_level"@, kv);
    lemma_kv_tail_complete(level_str(l), tail);
    lemma_level_roundtrip(l);
}

proof fn lemma_top_line_ap(v: Seq<char>, tail: Seq<char>, bp: Option<Seq<char>>, lvl: Option<
    LogLevel,
>)
    requires
        tail.len() > 0,
        tail[0] == '\n',
    ensures
        parse_top("active_profile"@ + (" = \""@ + esc(v) + seq!['"'] + tail), bp, lvl, None)
            == parse_top(tail.skip(1), bp, lvl, Some(v)),
{
    reveal_strlit("base_path");
    reveal_strlit("log_level");
    reveal_strlit("active_profile");
    reveal_strlit(" = \"");
    let kv = " = \""@ + esc(v) + seq!['"'] + tail;
    let s = "active_profile"@ + kv;
    assert(s[0] == 'a');
    assert(skip_ws(s) == s);
    assert(skip_blanks(s) == s);
    assert(s.len() > 0 && s[0] != '[');
    lemma_expect_mismatch(s, "base_path"@);
    lemma_expect_mismatch(s, "log_level"@);
    lemma_expect_concat("active_profile"@, kv);
    lemma_kv_tail_complete(v, tail);
}

/// With the three values in hand, the encoded sections complete the document.
proof fn lemma_top_sections(ps: Seq<EntryV>, b: Seq<char>, l: LogLevel, a: Seq<char>)
    requires
        entries_sorted(ps),
    ensures
        parse_top(ser_profiles(ps), Some(b), Some(l), Some(a)) == Some(
            ConfigV { base_path: b, log_level: l, profiles: ps, active_profile: a },
        ),
{
    reveal_strlit("[profiles.\"");
    let sp = ser_profiles(ps);
    assert(Seq::<EntryV>::empty() + ps =~= ps);
    lemma_sections_complete(Seq::empty(), ps);
    assert(parse_sections(sp, Seq::<EntryV>::empty()) == Some(ps));
    if sp.len() == 0 {
        assert(skip_ws(sp) == sp);
        assert(skip_blanks(sp) == sp);
    } else {
        assert(sp == ser_block(ps[0]) + ser_profiles(ps.skip(1)));
        assert(lit_head()[0] == '[');
        assert(sp[0] == '[');
        assert(skip_ws(sp) == sp);
        assert(skip_blanks(sp) == sp);
    }
}

/// Decoding an encoded document gives the document back: the round trip.
#[verifier::rlimit(100)]
pub proof fn lemma_parse_ser_doc(c: ConfigV)
    requires
        entries_sorted(c.profiles),
    ensures
        parse_doc(ser_doc(c)) == Some(c),
{
    reveal_strlit("base_path = \"");
    reveal_strlit("\nlog_level = \"");
    reveal_strlit("\nactive_profile = \"");
    reveal_strlit("base_path");
    reveal_strlit("log_level");
    reveal_strlit("active_profile");
    reveal_strlit(" = \"");
    reveal_strlit("\"");
    reveal_strlit("\n");
    let s = ser_doc(c);
    assert(lit_base() =~= "base_path"@ + " = \""@);
    assert(lit_log() =~= seq!['\n'] + ("log_level"@ + " = \""@));
    assert(lit_active() =~= seq!['\n'] + ("active_profile"@ + " = \""@));
    assert(lit_quote() =~= seq!['"']);
    assert(lit_nl() =~= seq!['\n']);
    let sp = ser_profiles(c.profiles);
    let tail3 = seq!['\n'] + sp;
    let kv3 = " = \""@ + esc(c.active_profile) + seq!['"'] + tail3;
    let tail2 = seq!['\n'] + ("active_profile"@ + kv3);
    let kv2 = " = \""@ + esc(level_str(c.log_level)) + seq!['"'] + tail2;
    let tail1 = seq!['\n'] + ("log_level"@ + kv2);
    let kv1 = " = \""@ + esc(c.base_path) + seq!['"'] + tail1;
    assert(s =~= "base_path"@ + kv1);
    lemma_top_line_bp(c.base_path, tail1, None, None);
    assert(tail1.skip(1) =~= "log_level"@ + kv2);
    lemma_top_line_lvl(c.log_level, tail2, Some(c.base_path), None);
    assert(tail2.skip(1) =~= "active_profile"@ + kv3);
    lemma_top_line_ap(c.active_profile, tail3, Some(c.base_path), Some(c.log_level));
    assert(tail3.skip(1) =~= sp);
    lemma_top_sections(c.profiles, c.base_path, c.log_level, c.active_profile);
}

/// Writes the document in its canonical text form.
pub fn serialize_config(c: &TomlConfig) -> (r: String)
    ensures
        r@ == ser_doc(c@),
{
    let mut out = String::new();
    out.append("base_path = \"");
    append_escaped(&mut out, c.base_path.as_str());
    out.append("\"");
    out.append("\nlog_level = \"");
    append_escaped(&mut out, log_level_as_str(&c.log_level));
    out.append("\"");
    out.append("\nactive_profile = \"");
    append_escaped(&mut out, c.active_profile.as_str());
    out.append("\"");
    out.append("\n");
    proof {
        assert(out@ =~= lit_base() + esc(c@.base_path) + lit_quote() + lit_log() + esc(
            level_str(c@.log_level),
        ) + lit_quote() + lit_active() + esc(c@.active_profile) + lit_quote() + lit_nl());
    }
    let ghost head = out@;
    let n = c.profiles.len();
    let mut i: usize = 0;
    proof {
        assert(ser_profiles(c@.profiles.take(0)) =~= Seq::<char>::empty());
        assert(out@ =~= head + ser_profiles(c@.profiles.take(0)));
    }
    while i < n
        invariant
            n == c@.profiles.len(),
            i <= n,
            out@ == head + ser_profiles(c@.profiles.take(i as int)),
        decreases n - i,
    {
        let ghost pre = out@;
        out.append("[profiles.\"");
        append_escaped(&mut out, c.profiles.key_at(i));
        out.append("\"");
        out.append("]\nbranch = \"");
        append_escaped(&mut out, c.profiles.branch_at(i));
        out.append("\"");
        out.append("\n");
        proof {
            assert(out@ =~= pre + ser_block(c@.profiles[i as int]));
            lemma_ser_profiles_snoc(c@.profiles, i as int);
            assert(out@ =~= head + ser_profiles(c@.profiles.take(i + 1)));
        }
        i = i + 1;
    }
    proof {
        assert(c@.profiles.take(n as int) =~= c@.profiles);
        assert(out@ =~= ser_doc(c@));
    }
    out
}

/// The exec mirror of `skip_ws`, as a position.
fn skip_ws_idx(s: &str, i: usize) -> (j: usize)
    requires
        i <= s@.len(),
    ensures
        i <= j <= s@.len(),
        skip_ws(s@.skip(i as int)) == s@.skip(j as int),
{
    let n = s.unicode_len();
    let mut j = i;
    loop
        invariant
            i <= j <= n,
            n == s@.len(),
            skip_ws(s@.skip(i as int)) == skip_ws(s@.skip(j as int)),
        decreases n - j,
    {
        if j == n {
            proof {
                assert(s@.skip(j as int).len() == 0);
            }
            return j;
        }
        let c = s.get_char(j);
        proof {
            assert(s@.skip(j as int)[0] == c);
        }
        if !(c == ' ' || c == '\t') {
            return j;
        }
        proof {
            assert(s@.skip(j as int).skip(1) =~= s@.skip(j + 1));
        }
        j = j + 1;
    }
}

/// The exec mirror of `eat_comment`, as a position.
fn eat_comment_idx(s: &str, i: usize) -> (j: usize)
    requires
        i <= s@.len(),
    ensures
        i <= j <= s@.len(),
        eat_comment(s@.skip(i as int)) == s@.skip(j as int),
{
    let n = s.unicode_len();
    let mut j = i;
    loop
        invariant
            i <= j <= n,
            n == s@.len(),
            eat_comment(s@.skip(i as int)) == eat_comment(s@.skip(j as int)),
        decreases n - j,
    {
        if j == n {
            proof {
                assert(s@.skip(j as int).len() == 0);
            }
            return j;
        }
        let c = s.get_char(j);
        proof {
            assert(s@.skip(j as int)[0] == c);
            assert(s@.skip(j as int).skip(1) =~= s@.skip(j + 1));
        }
        if c == '\n' {
            return j + 1;
        }
        j = j + 1;
    }
}

/// The exec mirror of `eat_line_end`, as a position.
fn eat_line_end_idx(s: &str, i: usize) -> (r: Option<usize>)
    requires
        i <= s@.len(),
    ensures
        match r {
            Some(j) => j <= s@.len() && eat_line_end(s@.skip(i as int)) == Some(
                s@.skip(j as int),
            ),
            None => eat_line_end(s@.skip(i as int)) is None,
        },
{
    let n = s.unicode_len();
    let t = skip_ws_idx(s, i);
    if t == n {
        proof {
            assert(s@.skip(t as int).len() == 0);
        }
        return Some(t);
    }
    let c = s.get_char(t);
    proof {
        assert(s@.skip(t as int)[0] == c);
    }
    if c == '#' {
        proof {
            assert(s@.skip(t as int).skip(1) =~= s@.skip(t + 1));
        }
        let j = eat_comment_idx(s, t + 1);
        return Some(j);
    }
    if c == '\n' {
        proof {
            assert(s@.skip(t as int).skip(1) =~= s@.skip(t + 1));
        }
        return Some(t + 1);
    }
    if c == '\r' {
        if t + 1 < n {
            if s.get_char(t + 1) == '\n' {
                proof {
                    assert(s@.skip(t as int)[1] == s@[t + 1]);
                    assert(s@.skip(t as int).skip(2) =~= s@.skip(t + 2));
                }
                return Some(t + 2);
            }
            proof {
                assert(s@.skip(t as int)[1] == s@[t + 1]);
            }
            return None;
        }
        proof {
            assert(s@.skip(t as int).len() < 2);
        }
        return None;
    }
    None
}

/// The exec mirror of `skip_blanks`, as a position.
fn skip_blanks_idx(s: &str, i: usize) -> (j: usize)
    requires
        i <= s@.len(),
    ensures
        i <= j <= s@.len(),
        skip_blanks(s@.skip(i as int)) == s@.skip(j as int),
{
    let n = s.unicode_len();
    let mut cur = i;
    loop
        invariant
            i <= cur <= n,
            n == s@.len(),
            skip_blanks(s@.skip(i as int)) == skip_blanks(s@.skip(cur as int)),
        decreases n - cur,
    {
        let t = skip_ws_idx(s, cur);
        if t == n {
            proof {
                assert(s@.skip(t as int).len() == 0);
            }
            return t;
        }
        let c = s.get_char(t);
        proof {
            assert(s@.skip(t as int)[0] == c);
        }
        if c == '#' {
            proof {
                assert(s@.skip(t as int).skip(1) =~= s@.skip(t + 1));
            }
            cur = eat_comment_idx(s, t + 1);
        } else if c == '\n' {
            proof {
                assert(s@.skip(t as int).skip(1) =~= s@.skip(t + 1));
            }
            cur = t + 1;
        } else if c == '\r' {
            if t + 1 < n {
                if s.get_char(t + 1) == '\n' {
                    proof {
                        assert(s@.skip(t as int)[1] == s@[t + 1]);
                        assert(s@.skip(t as int).skip(2) =~= s@.skip(t + 2));
                    }
                    cur = t + 2;
                } else {
                    proof {
                        assert(s@.skip(t as int)[1] == s@[t + 1]);
                    }
                    return t;
                }
            } else {
                proof {
                    assert(s@.skip(t as int).len() < 2);
                }
                return t;
            }
        } else {
            return t;
        }
    }
}

/// The exec mirror of `parse_profile_key`.
fn parse_profile_key_idx(s: &str, i: usize) -> (r: Option<(String, usize)>)
    requires
        i <= s@.len(),
    ensures
        match r {
            Some(p) => p.1 <= s@.len() && parse_profile_key(s@.skip(i as int)) == Some(
                (p.0@, s@.skip(p.1 as int)),
            ),
            None => parse_profile_key(s@.skip(i as int)) is None,
        },
{
    let n = s.unicode_len();
    let quoted = if i < n {
        let c0 = s.get_char(i);
        proof {
            assert(s@.skip(i as int)[0] == c0);
        }
        c0 == '"'
    } else {
        proof {
            assert(s@.skip(i as int).len() == 0);
        }
        false
    };
    if quoted {
        proof {
            assert(s@.skip(i as int).skip(1) =~= s@.skip(i + 1));
        }
        return scan_str_value(s, i + 1);
    }
    let mut out = String::new();
    let mut cur = i;
    proof {
        assert(out@ =~= Seq::<char>::empty());
        assert(take_bare(s@.skip(i as int)).0 =~= out@ + take_bare(s@.skip(i as int)).0);
    }
    loop
        invariant
            i <= cur <= n,
            n == s@.len(),
            i < n ==> s@.skip(i as int)[0] != '"',
            i == n ==> s@.skip(i as int).len() == 0,
            take_bare(s@.skip(i as int)).0 == out@ + take_bare(s@.skip(cur as int)).0,
            take_bare(s@.skip(i as int)).1 == take_bare(s@.skip(cur as int)).1,
            out@.len() == cur - i,
        decreases n - cur,
    {
        let done = if cur == n {
            proof {
                assert(s@.skip(cur as int).len() == 0);
            }
            true
        } else {
            let c = s.get_char(cur);
            proof {
                assert(s@.skip(cur as int)[0] == c);
            }
            let u = c as u32;
            let bare = (0x61 <= u && u <= 0x7A) || (0x41 <= u && u <= 0x5A) || (0x30 <= u && u
                <= 0x39) || c == '_' || c == '-';
            proof {
                assert(bare == is_bare_key_char(c));
            }
            if bare {
                let ghost out0 = out@;
                proof {
                    assert(s@.skip(cur as int).skip(1) =~= s@.skip(cur + 1));
                    assert(out0 + (seq![c] + take_bare(s@.skip(cur + 1)).0) =~= out0.push(c)
                        + take_bare(s@.skip(cur + 1)).0);
                }
                out.push(c);
                cur = cur + 1;
                false
            } else {
                proof {
                    assert(take_bare(s@.skip(cur as int)).0 =~= Seq::<char>::empty());
                }
                true
            }
        };
        if done {
            proof {
                assert(take_bare(s@.skip(cur as int)).0 =~= Seq::<char>::empty());
                assert(take_bare(s@.skip(cur as int)).1 == s@.skip(cur as int));
                assert(take_bare(s@.skip(i as int)).0 =~= out@);
            }
            if out.unicode_len() == 0 {
                return None;
            }
            return Some((out, cur));
        }
    }
}

/// The exec mirror of `parse_kv_tail`.
fn parse_kv_tail_idx(s: &str, i: usize) -> (r: Option<(String, usize)>)
    requires
        i <= s@.len(),
    ensures
        match r {
            Some(p) => p.1 <= s@.len() && parse_kv_tail(s@.skip(i as int)) == Some(
                (p.0@, s@.skip(p.1 as int)),
            ),
            None => parse_kv_tail(s@.skip(i as int)) is None,
        },
{
    let n = s.unicode_len();
    let t = skip_ws_idx(s, i);
    if t == n {
        proof {
            assert(s@.skip(t as int).len() == 0);
        }
        return None;
    }
    let c = s.get_char(t);
    proof {
        assert(s@.skip(t as int)[0] == c);
    }
    if c != '=' {
        return None;
    }
    proof {
        assert(s@.skip(t as int).skip(1) =~= s@.skip(t + 1));
    }
    let u = skip_ws_idx(s, t + 1);
    if u == n {
        proof {
            assert(s@.skip(u as int).len() == 0);
        }
        return None;
    }
    let c2 = s.get_char(u);
    proof {
        assert(s@.skip(u as int)[0] == c2);
    }
    if c2 != '"' {
        return None;
    }
    proof {
        assert(s@.skip(u as int).skip(1) =~= s@.skip(u + 1));
    }
    match scan_str_value(s, u + 1) {
        None => None,
        Some((v, j)) => match eat_line_end_idx(s, j) {
            None => None,
            Some(k) => Some((v, k)),
        },
    }
}

/// The exec mirror of `parse_section`.
fn parse_section_idx(s: &str, i: usize) -> (r: Option<(String, String, usize)>)
    requires
        i <= s@.len(),
    ensures
        match r {
            Some(p) => p.2 <= s@.len() && parse_section(s@.skip(i as int)) == Some(
                ((p.0@, p.1@), s@.skip(p.2 as int)),
            ),
            None => parse_section(s@.skip(i as int)) is None,
        },
{
    let n = s.unicode_len();
    if i == n {
        proof {
            assert(s@.skip(i as int).len() == 0);
        }
        return None;
    }
    let c = s.get_char(i);
    proof {
        assert(s@.skip(i as int)[0] == c);
    }
    if c != '[' {
        return None;
    }
    proof {
        assert(s@.skip(i as int).skip(1) =~= s@.skip(i + 1));
    }
    let t1 = skip_ws_idx(s, i + 1);
    let s2 = match expect_lit(s, t1, "profiles") {
        Some(j) => j,
        None => {
            return None;
        },
    };
    let t2 = skip_ws_idx(s, s2);
    if t2 == n {
        proof {
            assert(s@.skip(t2 as int).len() == 0);
        }
        return None;
    }
    let c2 = s.get_char(t2);
    proof {
        assert(s@.skip(t2 as int)[0] == c2);
    }
    if c2 != '.' {
        return None;
    }
    proof {
        assert(s@.skip(t2 as int).skip(1) =~= s@.skip(t2 + 1));
    }
    let t3 = skip_ws_idx(s, t2 + 1);
    let (id, s4) = match parse_profile_key_idx(s, t3) {
        Some(p) => p,
        None => {
            return None;
        },
    };
    let t4 = skip_ws_idx(s, s4);
    if t4 == n {
        proof {
            assert(s@.skip(t4 as int).len() == 0);
        }
        return None;
    }
    let c4 = s.get_char(t4);
    proof {
        assert(s@.skip(t4 as int)[0] == c4);
    }
    if c4 != ']' {
        return None;
    }
    proof {
        assert(s@.skip(t4 as int).skip(1) =~= s@.skip(t4 + 1));
    }
    let s5 = match eat_line_end_idx(s, t4 + 1) {
        Some(j) => j,
        None => {
            return None;
        },
    };
    let t5 = skip_blanks_idx(s, s5);
    let s6 = match expect_lit(s, t5, "branch") {
        Some(j) => j,
        None => {
            return None;
        },
    };
    match parse_kv_tail_idx(s, s6) {
        Some((branch, j)) => Some((id, branch, j)),
        None => None,
    }
}

/// Reads every profile section from position `i` on, and finishes the
/// document around the three values already collected.
fn parse_sections_idx(
    s: &str,
    i: usize,
    base_path: String,
    log_level: LogLevel,
    active_profile: String,
) -> (r: Result<TomlConfig, ConfigError>)
    requires
        i <= s@.len(),
    ensures
        match r {
            Ok(c) => c.wf() && c@.base_path == base_path@ && c@.log_level == log_level
                && c@.active_profile == active_profile@ && parse_sections(
                s@.skip(i as int),
                Seq::empty(),
            ) == Some(c@.profiles),
            Err(e) => parse_sections(s@.skip(i as int), Seq::empty()) is None && e
                == ConfigError::Parse,
        },
{
    let n = s.unicode_len();
    let mut pm = ProfilesMap::new();
    let mut cur = i;
    proof {
        assert(pm@ =~= Seq::<EntryV>::empty());
    }
    loop
        invariant
            i <= cur <= n,
            n == s@.len(),
            pm.wf(),
            parse_sections(s@.skip(i as int), Seq::<EntryV>::empty()) == parse_sections(
                s@.skip(cur as int),
                pm@,
            ),
        decreases n - cur,
    {
        let t = skip_blanks_idx(s, cur);
        if t == n {
            proof {
                assert(s@.skip(t as int).len() == 0);
            }
            let cfg = TomlConfig { base_path, log_level, profiles: pm, active_profile };
            return Ok(cfg);
        }
        match parse_section_idx(s, t) {
            None => {
                return Err(ConfigError::Parse);
            },
            Some((id, branch, j)) => {
                if pm.contains_key(id.as_str()) {
                    return Err(ConfigError::Parse);
                }
                proof {
                    lemma_parse_section_len(s@.skip(t as int));
                    assert(s@.skip(j as int).len() < s@.skip(t as int).len());
                }
                let ghost pm0 = pm@;
                let ghost idv = id@;
                let ghost brv = branch@;
                pm.insert(id, ProfileConfig { branch });
                proof {
                    assert(pm@ == spec_insert(pm0, idv, brv));
                }
                cur = j;
            },
        }
    }
}

/// Reads the document back from its text form; fails on anything that does
/// not hold the document's TOML shape.
pub fn parse_config(s: &str) -> (r: Result<TomlConfig, ConfigError>)
    ensures
        match r {
            Ok(c) => parse_doc(s@) == Some(c@) && c.wf(),
            Err(e) => parse_doc(s@) is None && e == ConfigError::Parse,
        },
{
    let n = s.unicode_len();
    let mut bp: Option<String> = None;
    let mut lvl: Option<LogLevel> = None;
    let mut ap: Option<String> = None;
    let mut cur: usize = 0;
    proof {
        assert(s@.skip(0) =~= s@);
    }
    loop
        invariant
            cur <= n,
            n == s@.len(),
            parse_doc(s@) == parse_top(s@.skip(cur as int), opt_view(bp), lvl, opt_view(ap)),
        decreases n - cur,
    {
        let t = skip_blanks_idx(s, cur);
        let at_sections = if t == n {
            proof {
                assert(s@.skip(t as int).len() == 0);
            }
            true
        } else {
            let c = s.get_char(t);
            proof {
                assert(s@.skip(t as int)[0] == c);
            }
            c == '['
        };
        if at_sections {
            match (bp, lvl, ap) {
                (Some(b), Some(l), Some(a)) => {
                    let res = parse_sections_idx(s, t, b, l, a);
                    match res {
                        Ok(c) => {
                            proof {
                                assert(parse_doc(s@) == Some(c@));
                            }
                            return Ok(c);
                        },
                        Err(_) => {
                            return Err(ConfigError::Parse);
                        },
                    }
                },
                _ => {
                    return Err(ConfigError::Parse);
                },
            }
        }
        match expect_lit(s, t, "base_path") {
            Some(p1) => {
                if bp.is_some() {
                    return Err(ConfigError::Parse);
                }
                match parse_kv_tail_idx(s, p1) {
                    None => {
                        return Err(ConfigError::Parse);
                    },
                    Some((v, j)) => {
                        proof {
                            lemma_parse_kv_tail_len(s@.skip(p1 as int));
                            assert(s@.skip(j as int).len() < s@.skip(p1 as int).len());
                        }
                        bp = Some(v);
                        cur = j;
                    },
                }
            },
            None => {
                match expect_lit(s, t, "log_level") {
                    Some(p1) => {
                        if lvl.is_some() {
                            return Err(ConfigError::Parse);
                        }
                        match parse_kv_tail_idx(s, p1) {
                            None => {
                                return Err(ConfigError::Parse);
                            },
                            Some((v, j)) => {
                                match log_level_from_str(v.as_str()) {
                                    None => {
                                        return Err(ConfigError::Parse);
                                    },
                                    Some(l) => {
                                        proof {
                                            lemma_parse_kv_tail_len(s@.skip(p1 as int));
                                            assert(s@.skip(j as int).len() < s@.skip(
                                                p1 as int,
                                            ).len());
                                        }
                                        lvl = Some(l);
                                        cur = j;
                                    },
                                }
                            },
                        }
                    },
                    None => {
                        match expect_lit(s, t, "active_profile") {
                            Some(p1) => {
                                if ap.is_some() {
                                    return Err(ConfigError::Parse);
                                }
                                match parse_kv_tail_idx(s, p1) {
                                    None => {
                                        return Err(ConfigError::Parse);
                                    },
                                    Some((v, j)) => {
                                        proof {
                                            lemma_parse_kv_tail_len(s@.skip(p1 as int));
                                            assert(s@.skip(j as int).len() < s@.skip(
                                                p1 as int,
                                            ).len());
                                        }
                                        ap = Some(v);
                                        cur = j;
                                    },
                                }
                            },
                            None => {
                                return Err(ConfigError::Parse);
                            },
                        }
                    },
                }
            },
        }
    }
}

} // verus!
