//! The memo sidecar format.
//!
//! Each subfolder's snapshot directory may hold one sidecar file carrying the
//! user's free-text memo.  The file holds a single key-value object,
//! `{"memo":"..."}`, with the usual escapes for quotes, backslashes and
//! control characters.  An absent or malformed sidecar always reads as the
//! empty memo, never as an error, and encoding then decoding returns the
//! memo unchanged.

use vstd::prelude::*;
use vstd::string::{StrSliceExecFns, StringExecFns};

verus! {

/// Relies on std's `String::push`: appends the given character to the end
/// of the string.
pub assume_specification[ String::push ](s: &mut String, ch: char)
    ensures
        final(s)@ == old(s)@.push(ch),
;

/// File name of the memo sidecar inside a subfolder's snapshot directory;
/// generation enumeration must skip it.
pub open spec fn spec_sidecar_file_name() -> Seq<char> {
    seq!['m', 'e', 't', 'a', '.', 'j', 's', 'o', 'n']
}

/// File name of the memo sidecar, as a value app code can use.
pub fn sidecar_file_name() -> (r: String)
    ensures
        r@ == spec_sidecar_file_name(),
{
    let r = String::from_str("meta.json");
    proof {
        reveal_strlit("meta.json");
        assert(r@ =~= spec_sidecar_file_name());
    }
    r
}

/// The hexadecimal digit for a value below sixteen.
pub open spec fn hex_digit(v: int) -> char
    recommends
        0 <= v < 16,
{
    if v == 0 {
        '0'
    } else if v == 1 {
        '1'
    } else if v == 2 {
        '2'
    } else if v == 3 {
        '3'
    } else if v == 4 {
        '4'
    } else if v == 5 {
        '5'
    } else if v == 6 {
        '6'
    } else if v == 7 {
        '7'
    } else if v == 8 {
        '8'
    } else if v == 9 {
        '9'
    } else if v == 10 {
        'a'
    } else if v == 11 {
        'b'
    } else if v == 12 {
        'c'
    } else if v == 13 {
        'd'
    } else if v == 14 {
        'e'
    } else {
        'f'
    }
}

/// Whether a character is a hexadecimal digit, in either case.
pub open spec fn is_hex_digit(c: char) -> bool {
    ('0' <= c && c <= '9') || ('a' <= c && c <= 'f') || ('A' <= c && c <= 'F')
}

/// The value of a hexadecimal digit.
pub open spec fn hex_val(c: char) -> int
    recommends
        is_hex_digit(c),
{
    if '0' <= c && c <= '9' {
        (c as u32) - ('0' as u32)
    } else if 'a' <= c && c <= 'f' {
        (c as u32) - ('a' as u32) + 10
    } else {
        (c as u32) - ('A' as u32) + 10
    }
}

/// How one memo character appears in the sidecar: quotes, backslashes and
/// the named control characters get two-character escapes, the remaining
/// control characters a `\u00XX` escape, and every other character stands
/// for itself.
pub open spec fn spec_escape_char(c: char) -> Seq<char> {
    if c == '"' {
        seq!['\\', '"']
    } else if c == '\\' {
        seq!['\\', '\\']
    } else if c == '\n' {
        seq!['\\', 'n']
    } else if c == '\r' {
        seq!['\\', 'r']
    } else if c == '\t' {
        seq!['\\', 't']
    } else if c == '\u{8}' {
        seq!['\\', 'b']
    } else if c == '\u{c}' {
        seq!['\\', 'f']
    } else if (c as u32) < 0x20 {
        seq![
            '\\',
            'u',
            '0',
            '0',
            hex_digit(((c as u32) as int) / 16),
            hex_digit(((c as u32) as int) % 16),
        ]
    } else {
        seq![c]
    }
}

/// The escaped form of a whole memo.
pub open spec fn spec_escape(s: Seq<char>) -> Seq<char>
    decreases s.len(),
{
    if s.len() == 0 {
        Seq::empty()
    } else {
        spec_escape_char(s[0]) + spec_escape(s.drop_first())
    }
}

/// The nine characters every sidecar starts with.
pub open spec fn memo_prefix() -> Seq<char> {
    seq!['{', '"', 'm', 'e', 'm', 'o', '"', ':', '"']
}

/// The two characters every sidecar ends with.
pub open spec fn memo_suffix() -> Seq<char> {
    seq!['"', '}']
}

/// The full sidecar text for a memo.
pub open spec fn spec_encode_memo(m: Seq<char>) -> Seq<char> {
    memo_prefix() + spec_escape(m) + memo_suffix()
}

/// The character a two-character escape stands for, if the name is known.
pub open spec fn unescape_named(c: char) -> Option<char> {
    if c == '"' {
        Some('"')
    } else if c == '\\' {
        Some('\\')
    } else if c == '/' {
        Some('/')
    } else if c == 'n' {
        Some('\n')
    } else if c == 'r' {
        Some('\r')
    } else if c == 't' {
        Some('\t')
    } else if c == 'b' {
        Some('\u{8}')
    } else if c == 'f' {
        Some('\u{c}')
    } else {
        None
    }
}

/// Undoes the escaping of a sidecar body; `None` when the body is not a
/// well-formed escaped string.
pub open spec fn spec_unescape(s: Seq<char>) -> Option<Seq<char>>
    decreases s.len(),
{
    if s.len() == 0 {
        Some(Seq::empty())
    } else if s[0] == '\\' {
        if s.len() < 2 {
            None
        } else if s[1] == 'u' {
            if s.len() >= 6 && s[2] == '0' && s[3] == '0' && is_hex_digit(s[4]) && is_hex_digit(
                s[5],
            ) {
                let v = 16 * hex_val(s[4]) + hex_val(s[5]);
                match spec_unescape(s.skip(6)) {
                    Some(rest) => Some(seq![((v as u8) as char)] + rest),
                    None => None,
                }
            } else {
                None
            }
        } else {
            match unescape_named(s[1]) {
                Some(d) => match spec_unescape(s.skip(2)) {
                    Some(rest) => Some(seq![d] + rest),
                    None => None,
                },
                None => None,
            }
        }
    } else {
        match spec_unescape(s.drop_first()) {
            Some(rest) => Some(seq![s[0]] + rest),
            None => None,
        }
    }
}

/// Reads a sidecar text as a memo; `None` when the text is not a sidecar.
pub open spec fn spec_decode_memo(s: Seq<char>) -> Option<Seq<char>> {
    if s.len() >= 11 && s.take(9) == memo_prefix() && s.skip(s.len() - 2) == memo_suffix() {
        spec_unescape(s.subrange(9, s.len() - 2))
    } else {
        None
    }
}

/// The memo a sidecar text stands for: a malformed text reads as the empty
/// memo, never as an error.
pub open spec fn spec_memo_of(s: Seq<char>) -> Seq<char> {
    match spec_decode_memo(s) {
        Some(m) => m,
        None => Seq::empty(),
    }
}

/// The hexadecimal digit character for a value below sixteen.
fn hex_digit_char(v: u32) -> (r: char)
    requires
        v < 16,
    ensures
        r == hex_digit(v as int),
{
    if v == 0 {
        '0'
    } else if v == 1 {
        '1'
    } else if v == 2 {
        '2'
    } else if v == 3 {
        '3'
    } else if v == 4 {
        '4'
    } else if v == 5 {
        '5'
    } else if v == 6 {
        '6'
    } else if v == 7 {
        '7'
    } else if v == 8 {
        '8'
    } else if v == 9 {
        '9'
    } else if v == 10 {
        'a'
    } else if v == 11 {
        'b'
    } else if v == 12 {
        'c'
    } else if v == 13 {
        'd'
    } else if v == 14 {
        'e'
    } else {
        'f'
    }
}

/// The value of a hexadecimal digit character, when it is one.
fn hex_val_char(c: char) -> (r: Option<u32>)
    ensures
        r == (if is_hex_digit(c) {
            Option::Some(hex_val(c) as u32)
        } else {
            Option::<u32>::None
        }),
{
    proof {
        vstd::utf8::char_is_scalar(c);
    }
    let v = c as u32;
    if v >= 48 && v <= 57 {
        Some(v - 48)
    } else if v >= 97 && v <= 102 {
        Some(v - 87)
    } else if v >= 65 && v <= 70 {
        Some(v - 55)
    } else {
        None
    }
}

/// Reads the memo out of a sidecar text; any malformed text reads as the
/// empty memo.
pub fn parse_memo(content: &str) -> (r: String)
    ensures
        r@ == spec_memo_of(content@),
{
    let n = content.unicode_len();
    if n < 11 {
        return String::new();
    }
    // The nine-character opening of the sidecar object.
    let pre = "{\"memo\":\"";
    proof {
        reveal_strlit("{\"memo\":\"");
        assert(pre@ =~= memo_prefix());
    }
    let mut j: usize = 0;
    while j < 9
        invariant
            j <= 9,
            n == content@.len(),
            n >= 11,
            pre@ == memo_prefix(),
            pre@.len() == 9,
            forall|k: int| 0 <= k < j ==> content@[k] == memo_prefix()[k],
        decreases 9 - j,
    {
        if content.get_char(j) != pre.get_char(j) {
            proof {
                assert(content@.take(9)[j as int] != memo_prefix()[j as int]);
            }
            return String::new();
        }
        j += 1;
    }
    proof {
        assert(content@.take(9) =~= memo_prefix());
    }
    // The two-character close.
    if content.get_char(n - 2) != '"' || content.get_char(n - 1) != '}' {
        proof {
            if content@.skip(n - 2) == memo_suffix() {
                assert(content@.skip(n - 2)[0] == content@[n - 2]);
                assert(content@.skip(n - 2)[1] == content@[n - 1]);
                assert(memo_suffix()[0] == '"' && memo_suffix()[1] == '}');
            }
        }
        return String::new();
    }
    proof {
        assert(content@.skip(n - 2) =~= memo_suffix());
    }
    let ghost body = content@.subrange(9, n - 2);
    let mut out = String::new();
    let mut i: usize = 9;
    let end = n - 2;
    proof {
        assert(body.skip(0) =~= body);
        let whole = spec_unescape(body);
        if whole is Some {
            assert(Seq::<char>::empty() + whole->0 =~= whole->0);
        }
    }
    while i < end
        invariant
            9 <= i <= end,
            end == n - 2,
            n == content@.len(),
            n >= 11,
            body == content@.subrange(9, n - 2),
            spec_unescape(body) == (match spec_unescape(body.skip(i - 9)) {
                Some(rest) => Some(out@ + rest),
                None => Option::<Seq<char>>::None,
            }),
        decreases end - i,
    {
        let ghost s = body.skip(i - 9);
        let ghost out_old = out@;
        proof {
            assert(s.len() == end - i);
            assert(s[0] == body[i - 9]);
            assert(body[i - 9] == content@[i as int]);
        }
        let c = content.get_char(i);
        // What this step decodes, and how many characters it consumes.
        let u: char;
        let step: usize;
        if c == '\\' {
            if end - i < 2 {
                proof {
                    assert(s.len() < 2);
                    assert(spec_unescape(s) is None);
                }
                return String::new();
            }
            proof {
                assert(s[1] == body[i + 1 - 9]);
                assert(body[i + 1 - 9] == content@[i + 1]);
            }
            let d = content.get_char(i + 1);
            if d == 'u' {
                if end - i < 6 {
                    proof {
                        assert(s.len() < 6);
                        assert(spec_unescape(s) is None);
                    }
                    return String::new();
                }
                proof {
                    assert(s[2] == content@[i + 2]);
                    assert(s[3] == content@[i + 3]);
                    assert(s[4] == content@[i + 4]);
                    assert(s[5] == content@[i + 5]);
                }
                if content.get_char(i + 2) != '0' || content.get_char(i + 3) != '0' {
                    proof {
                        assert(spec_unescape(s) is None);
                    }
                    return String::new();
                }
                let h1 = hex_val_char(content.get_char(i + 4));
                let h2 = hex_val_char(content.get_char(i + 5));
                match (h1, h2) {
                    (Some(v1), Some(v2)) => {
                        let v: u32 = 16 * v1 + v2;
                        u = (v as u8) as char;
                        step = 6;
                        proof {
                            assert(s.skip(6) =~= body.skip(i + 6 - 9));
                            assert(16 * hex_val(s[4]) + hex_val(s[5]) == v);
                            assert(spec_unescape(s) == (match spec_unescape(body.skip(i + 6 - 9)) {
                                Some(rest) => Some(seq![u] + rest),
                                None => Option::<Seq<char>>::None,
                            }));
                        }
                    },
                    _ => {
                        proof {
                            assert(spec_unescape(s) is None);
                        }
                        return String::new();
                    },
                }
            } else {
                let named: Option<char> = if d == '"' {
                    Some('"')
                } else if d == '\\' {
                    Some('\\')
                } else if d == '/' {
                    Some('/')
                } else if d == 'n' {
                    Some('\n')
                } else if d == 'r' {
                    Some('\r')
                } else if d == 't' {
                    Some('\t')
                } else if d == 'b' {
                    Some('\u{8}')
                } else if d == 'f' {
                    Some('\u{c}')
                } else {
                    None
                };
                match named {
                    Some(w) => {
                        u = w;
                        step = 2;
                        proof {
                            assert(unescape_named(s[1]) == Some(u));
                            assert(s.skip(2) =~= body.skip(i + 2 - 9));
                            assert(spec_unescape(s) == (match spec_unescape(body.skip(i + 2 - 9)) {
                                Some(rest) => Some(seq![u] + rest),
                                None => Option::<Seq<char>>::None,
                            }));
                        }
                    },
                    None => {
                        proof {
                            assert(unescape_named(s[1]) is None);
                            assert(spec_unescape(s) is None);
                        }
                        return String::new();
                    },
                }
            }
        } else {
            u = c;
            step = 1;
            proof {
                assert(s.drop_first() =~= body.skip(i + 1 - 9));
                assert(spec_unescape(s) == (match spec_unescape(body.skip(i + 1 - 9)) {
                    Some(rest) => Some(seq![u] + rest),
                    None => Option::<Seq<char>>::None,
                }));
            }
        }
        out.push(u);
        i += step;
        proof {
            let tail = spec_unescape(body.skip(i - 9));
            if tail is Some {
                assert(out_old + (seq![u] + tail->0) =~= out@ + tail->0);
            }
        }
    }
    proof {
        assert(body.skip(end - 9) =~= Seq::<char>::empty());
        assert(spec_unescape(body) == Some(out@ + Seq::<char>::empty()));
        assert(out@ + Seq::<char>::empty() =~= out@);
    }
    out
}

/// Escaping one more character extends the escaped text at the end.
proof fn lemma_escape_snoc(s: Seq<char>, c: char)
    ensures
        spec_escape(s.push(c)) == spec_escape(s) + spec_escape_char(c),
    decreases s.len(),
{
    if s.len() == 0 {
        assert(s.push(c).drop_first() =~= Seq::<char>::empty());
        assert(s.push(c)[0] == c);
        assert(s.push(c).len() == 1);
        assert(spec_escape(s.push(c)) == spec_escape_char(c) + spec_escape(
            s.push(c).drop_first(),
        ));
        assert(spec_escape(Seq::<char>::empty()) == Seq::<char>::empty());
        assert(spec_escape_char(c) + Seq::<char>::empty() =~= Seq::<char>::empty()
            + spec_escape_char(c));
    } else {
        assert(s.push(c)[0] == s[0]);
        assert(s.push(c).drop_first() =~= s.drop_first().push(c));
        lemma_escape_snoc(s.drop_first(), c);
        assert(s.push(c).len() == s.len() + 1);
        assert(spec_escape(s.push(c)) == spec_escape_char(s[0]) + spec_escape(
            s.push(c).drop_first(),
        ));
        assert(spec_escape(s.push(c).drop_first()) == spec_escape(s.drop_first())
            + spec_escape_char(c));
        assert(spec_escape_char(s[0]) + (spec_escape(s.drop_first()) + spec_escape_char(c)) =~= (
        spec_escape_char(s[0]) + spec_escape(s.drop_first())) + spec_escape_char(c));
        assert(spec_escape(s) == spec_escape_char(s[0]) + spec_escape(s.drop_first()));
    }
}

/// A hexadecimal digit reads back as its value.
proof fn lemma_hex_roundtrip(x: int)
    requires
        0 <= x < 16,
    ensures
        is_hex_digit(hex_digit(x)),
        hex_val(hex_digit(x)) == x,
{
}

/// Unescaping undoes escaping: the escaped form of any memo decodes back
/// to that memo.
pub proof fn lemma_unescape_escape(m: Seq<char>)
    ensures
        spec_unescape(spec_escape(m)) == Some(m),
    decreases m.len(),
{
    if m.len() == 0 {
        assert(spec_escape(m) == Seq::<char>::empty());
        assert(m =~= Seq::<char>::empty());
    } else {
        let c = m[0];
        let rest = m.drop_first();
        lemma_unescape_escape(rest);
        let ec = spec_escape_char(c);
        let er = spec_escape(rest);
        let e = spec_escape(m);
        assert(e == ec + er);
        assert(seq![c] + rest =~= m);
        vstd::utf8::char_is_scalar(c);
        if c == '"' || c == '\\' || c == '\n' || c == '\r' || c == '\t' || c == '\u{8}' || c
            == '\u{c}' {
            assert(ec.len() == 2 && ec[0] == '\\');
            assert(e[0] == '\\' && e[1] == ec[1]);
            assert(e.len() >= 2);
            assert(e[1] != 'u');
            assert(unescape_named(e[1]) == Some(c));
            assert(e.skip(2) =~= er);
        } else if (c as u32) < 0x20 {
            let v = (c as u32) as int;
            assert(ec =~= seq!['\\', 'u', '0', '0', hex_digit(v / 16), hex_digit(v % 16)]);
            assert(e[0] == '\\' && e[1] == 'u' && e[2] == '0' && e[3] == '0');
            assert(e[4] == hex_digit(v / 16) && e[5] == hex_digit(v % 16));
            assert(e.len() >= 6);
            lemma_hex_roundtrip(v / 16);
            lemma_hex_roundtrip(v % 16);
            assert(16 * hex_val(e[4]) + hex_val(e[5]) == v);
            assert(((v as u8) as char) == c) by {
                vstd::utf8::char_u32_cast(c, c as u32);
            }
            assert(e.skip(6) =~= er);
        } else {
            assert(ec =~= seq![c]);
            assert(e[0] == c);
            assert(c != '\\');
            assert(e.drop_first() =~= er);
        }
    }
}

/// Round trip: the sidecar text written for a memo always reads back as
/// exactly that memo.
pub proof fn lemma_memo_roundtrip(m: Seq<char>)
    ensures
        spec_memo_of(spec_encode_memo(m)) == m,
{
    let e = spec_encode_memo(m);
    assert(e.len() == 11 + spec_escape(m).len());
    assert(e.take(9) =~= memo_prefix());
    assert(e.skip(e.len() - 2) =~= memo_suffix());
    assert(e.subrange(9, e.len() - 2) =~= spec_escape(m));
    lemma_unescape_escape(m);
}

/// Reads a possibly absent sidecar: no file, like a malformed file, means
/// the empty memo.
pub fn sidecar_memo(content: Option<&String>) -> (r: String)
    ensures
        r@ == match content {
            Some(s) => spec_memo_of(s@),
            None => Seq::<char>::empty(),
        },
{
    match content {
        Some(s) => parse_memo(s.as_str()),
        None => String::new(),
    }
}

/// Writes the sidecar text for a memo.
pub fn encode_memo(memo: &str) -> (r: String)
    ensures
        r@ == spec_encode_memo(memo@),
{
    let mut out = String::from_str("{\"memo\":\"");
    proof {
        reveal_strlit("{\"memo\":\"");
        assert(out@ =~= memo_prefix());
    }
    let n = memo.unicode_len();
    let mut i: usize = 0;
    while i < n
        invariant
            i <= n,
            n == memo@.len(),
            out@ == memo_prefix() + spec_escape(memo@.take(i as int)),
        decreases n - i,
    {
        let c = memo.get_char(i);
        if c == '"' {
            out.push('\\');
            out.push('"');
        } else if c == '\\' {
            out.push('\\');
            out.push('\\');
        } else if c == '\n' {
            out.push('\\');
            out.push('n');
        } else if c == '\r' {
            out.push('\\');
            out.push('r');
        } else if c == '\t' {
            out.push('\\');
            out.push('t');
        } else if c == '\u{8}' {
            out.push('\\');
            out.push('b');
        } else if c == '\u{c}' {
            out.push('\\');
            out.push('f');
        } else if (c as u32) < 0x20 {
            out.push('\\');
            out.push('u');
            out.push('0');
            out.push('0');
            out.push(hex_digit_char((c as u32) / 16));
            out.push(hex_digit_char((c as u32) % 16));
        } else {
            out.push(c);
        }
        proof {
            assert(memo@.take((i + 1) as int) =~= memo@.take(i as int).push(memo@[i as int]));
            lemma_escape_snoc(memo@.take(i as int), memo@[i as int]);
            assert(out@ =~= memo_prefix() + spec_escape(memo@.take((i + 1) as int)));
        }
        i += 1;
    }
    proof {
        assert(memo@.take(n as int) =~= memo@);
    }
    out.append("\"}");
    proof {
        reveal_strlit("\"}");
        assert("\"}"@ =~= memo_suffix());
        assert(out@ =~= spec_encode_memo(memo@));
    }
    out
}

} // verus!
