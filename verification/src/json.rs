//! The JSON fragments the vault's file formats are made of.
//!
//! Rendering is canonical: no whitespace, fields in a fixed order, and in
//! strings only the escapes `\"`, `\\` and `\u00XX` (for the control
//! characters, with lower-case hex). The parsers accept exactly that
//! canonical form; a reader of a vault file is allowed to be strict, and
//! a strict reader makes what was read provably identical to what a
//! writer lays down.

use vstd::prelude::*;
use vstd::utf8::decode_utf8;
use vstd::utf8::valid_utf8;

verus! {

/// The lower-case hexadecimal digit for a value below 16.
pub open spec fn hex_char(n: u8) -> char {
    if n < 10 {
        (((0x30 + n) as u8) as char)
    } else {
        (((0x57 + n) as u8) as char)
    }
}

/// How a character is written inside a canonical JSON string: itself,
/// unless it is the quote, the backslash, or a control character.
pub open spec fn esc_char(c: char) -> Seq<char> {
    if c == '"' {
        seq!['\\', '"']
    } else if c == '\\' {
        seq!['\\', '\\']
    } else if (c as u32) < 0x20 {
        seq!['\\', 'u', '0', '0', hex_char(((c as u32) / 16) as u8), hex_char(
            ((c as u32) % 16) as u8,
        )]
    } else {
        seq![c]
    }
}

/// A character sequence with each character escaped as JSON requires.
pub open spec fn esc_chars(s: Seq<char>) -> Seq<char>
    decreases s.len(),
{
    if s.len() == 0 {
        seq![]
    } else {
        esc_char(s[0]) + esc_chars(s.drop_first())
    }
}

/// The canonical JSON string literal for a character sequence.
pub open spec fn json_string(s: Seq<char>) -> Seq<char> {
    seq!['"'] + esc_chars(s) + seq!['"']
}

/// Escaping a concatenation escapes each part.
pub proof fn lemma_esc_chars_concat(a: Seq<char>, b: Seq<char>)
    ensures
        esc_chars(a + b) == esc_chars(a) + esc_chars(b),
    decreases a.len(),
{
    if a.len() == 0 {
        assert(a + b =~= b);
        assert(esc_chars(a) + esc_chars(b) =~= esc_chars(b));
    } else {
        assert((a + b).len() > 0);
        assert((a + b)[0] == a[0]);
        assert((a + b).drop_first() =~= a.drop_first() + b);
        lemma_esc_chars_concat(a.drop_first(), b);
        assert(esc_char(a[0]) + (esc_chars(a.drop_first()) + esc_chars(b)) =~= (esc_char(a[0])
            + esc_chars(a.drop_first())) + esc_chars(b));
    }
}

/// Escaping one more character appends its escape.
pub proof fn lemma_esc_chars_snoc(s: Seq<char>, k: int)
    requires
        0 <= k < s.len(),
    ensures
        esc_chars(s.take(k + 1)) == esc_chars(s.take(k)) + esc_char(s[k]),
{
    assert(s.take(k + 1) =~= s.take(k) + seq![s[k]]);
    lemma_esc_chars_concat(s.take(k), seq![s[k]]);
    assert(seq![s[k]].drop_first() =~= Seq::<char>::empty());
    assert(esc_chars(Seq::<char>::empty()) =~= Seq::<char>::empty());
    assert(seq![s[k]][0] == s[k]);
    assert(esc_chars(seq![s[k]]) =~= esc_char(s[k]));
}

/// How the escaped text splits at the next unescaped character: the
/// characters escaped so far, the escape of the character at `k`, and
/// the escape of what follows.
pub proof fn lemma_esc_chars_split(s: Seq<char>, k: int)
    requires
        0 <= k <= s.len(),
    ensures
        esc_chars(s) == esc_chars(s.take(k)) + esc_chars(s.skip(k)),
        k < s.len() ==> esc_chars(s.skip(k)) == esc_char(s[k]) + esc_chars(s.skip(k + 1)),
{
    assert(s =~= s.take(k) + s.skip(k));
    lemma_esc_chars_concat(s.take(k), s.skip(k));
    if k < s.len() {
        assert(s.skip(k).len() > 0);
        assert(s.skip(k)[0] == s[k]);
        assert(s.skip(k).drop_first() =~= s.skip(k + 1));
    }
}

/// Peeling a known prefix off a known suffix of the text: what starts
/// at `pos` splits into `a` and then `b`.
pub proof fn lemma_skip_concat(chars: Seq<char>, pos: int, a: Seq<char>, b: Seq<char>)
    requires
        0 <= pos <= chars.len(),
        chars.skip(pos) == a + b,
    ensures
        pos + a.len() <= chars.len(),
        chars.skip(pos + a.len() as int) == b,
        b.len() > 0 ==> chars[pos + a.len() as int] == b[0],
        chars.len() == pos + a.len() + b.len(),
{
    assert(chars.skip(pos).len() == a.len() + b.len());
    assert forall|t: int| 0 <= t < b.len() implies chars.skip(pos + a.len() as int)[t]
        == b[t] by {
        assert(chars.skip(pos + a.len() as int)[t] == chars[pos + a.len() + t]);
        assert(chars.skip(pos)[a.len() + t] == chars[pos + a.len() + t]);
        assert((a + b)[a.len() + t] == b[t]);
    }
    assert(chars.skip(pos + a.len() as int) =~= b);
}

/// The first character of an escape is never the quote.
pub proof fn lemma_esc_char_head(c: char)
    ensures
        esc_char(c)[0] != '"',
        1 <= esc_char(c).len() <= 6,
{
}

/// The decimal digits of a byte value, without leading zeros.
pub open spec fn dec_u8(n: u8) -> Seq<char> {
    if n < 10 {
        seq![hex_char(n)]
    } else if n < 100 {
        seq![hex_char(n / 10), hex_char(n % 10)]
    } else {
        seq![hex_char(n / 100), hex_char((n / 10) % 10), hex_char(n % 10)]
    }
}

/// Relies on str::chars: the characters of the string, in order.
#[verifier::external_body]
pub fn str_to_chars(s: &str) -> (chars: Vec<char>)
    ensures
        chars@ == s@,
{
    s.chars().collect()
}

/// Relies on String's FromIterator: the string made of exactly the given
/// characters, in order.
#[verifier::external_body]
pub fn chars_to_string(chars: &Vec<char>) -> (s: String)
    ensures
        s@ == chars@,
{
    chars.iter().collect()
}

/// Relies on String::from_utf8: it succeeds exactly on valid UTF-8 and
/// then returns the string those bytes encode.
#[verifier::external_body]
pub fn bytes_to_string(bytes: Vec<u8>) -> (r: Option<String>)
    ensures
        r matches Some(s) ==> valid_utf8(bytes@) && s@ == decode_utf8(bytes@),
        r is None ==> !valid_utf8(bytes@),
{
    match String::from_utf8(bytes) {
        Ok(s) => Some(s),
        Err(_) => None,
    }
}

/// Compares two character slices.
pub fn chars_eq(a: &[char], b: &[char]) -> (r: bool)
    ensures
        r <==> a@ == b@,
{
    if a.len() != b.len() {
        proof {
            assert(a@.len() != b@.len());
        }
        return false;
    }
    let mut i: usize = 0;
    while i < a.len()
        invariant
            i <= a@.len(),
            a@.len() == b@.len(),
            forall|j: int| 0 <= j < i ==> a@[j] == b@[j],
        decreases a@.len() - i,
    {
        if a[i] != b[i] {
            return false;
        }
        i = i + 1;
    }
    proof {
        assert(a@ =~= b@);
    }
    true
}

/// The lower-case hexadecimal digit for a value below 16.
fn hex_char_exec(n: u8) -> (c: char)
    requires
        n < 16,
    ensures
        c == hex_char(n),
{
    if n < 10 {
        (0x30 + n) as char
    } else {
        (0x57 + n) as char
    }
}

/// Appends the characters of `s`, escaped as JSON requires.
fn push_escaped(out: &mut Vec<char>, s: &[char])
    ensures
        final(out)@ == old(out)@ + esc_chars(s@),
{
    let ghost start = out@;
    proof {
        assert(s@.skip(0) =~= s@);
    }
    let mut i: usize = 0;
    while i < s.len()
        invariant
            i <= s@.len(),
            start + esc_chars(s@) =~= out@ + esc_chars(s@.skip(i as int)),
        decreases s@.len() - i,
    {
        let c = s[i];
        proof {
            assert(s@.skip(i as int).drop_first() =~= s@.skip(i + 1));
            assert(s@.skip(i as int)[0] == s@[i as int]);
        }
        if c == '"' {
            out.push('\\');
            out.push('"');
        } else if c == '\\' {
            out.push('\\');
            out.push('\\');
        } else if (c as u32) < 0x20 {
            let code = (c as u32) as u8;
            out.push('\\');
            out.push('u');
            out.push('0');
            out.push('0');
            out.push(hex_char_exec(code / 16));
            out.push(hex_char_exec(code % 16));
        } else {
            out.push(c);
        }
        i = i + 1;
    }
    proof {
        assert(esc_chars(s@.skip(s@.len() as int)) =~= Seq::<char>::empty());
        assert(out@ =~= start + esc_chars(s@));
    }
}

/// Appends the canonical JSON string literal for `s`.
pub fn push_json_string(out: &mut Vec<char>, s: &str)
    ensures
        final(out)@ == old(out)@ + json_string(s@),
{
    let chars = str_to_chars(s);
    out.push('"');
    push_escaped(out, chars.as_slice());
    out.push('"');
    proof {
        assert(out@ =~= old(out)@ + json_string(s@));
    }
}

/// Appends the decimal digits of `n`, without leading zeros.
pub fn push_dec_u8(out: &mut Vec<char>, n: u8)
    ensures
        final(out)@ == old(out)@ + dec_u8(n),
{
    if n < 10 {
        out.push(hex_char_exec(n));
    } else if n < 100 {
        out.push(hex_char_exec(n / 10));
        out.push(hex_char_exec(n % 10));
    } else {
        out.push(hex_char_exec(n / 100));
        out.push(hex_char_exec((n / 10) % 10));
        out.push(hex_char_exec(n % 10));
    }
    proof {
        assert(out@ =~= old(out)@ + dec_u8(n));
    }
}

/// A decimal digit character.
pub open spec fn is_dec_digit(c: char) -> bool {
    0x30 <= (c as u32) <= 0x39
}

/// No two values share a hexadecimal digit.
pub proof fn lemma_hex_char_injective(a: u8, b: u8)
    requires
        a < 16,
        b < 16,
        hex_char(a) == hex_char(b),
    ensures
        a == b,
{
    assert((hex_char(a) as u32) == (hex_char(b) as u32));
}

/// The value of a lower-case hexadecimal digit character.
fn hex_val(c: char) -> (r: Option<u8>)
    ensures
        r matches Some(n) ==> n < 16 && hex_char(n) == c,
        r is None ==> forall|n: u8| n < 16 ==> c != hex_char(n),
{
    let code = c as u32;
    if 0x30 <= code && code <= 0x39 {
        Some((code - 0x30) as u8)
    } else if 0x61 <= code && code <= 0x66 {
        Some((code - 0x57) as u8)
    } else {
        proof {
            assert forall|n: u8| n < 16 implies c != hex_char(n) by {
                assert((hex_char(n) as u32) == if n < 10 {
                    (0x30 + n) as u32
                } else {
                    (0x57 + n) as u32
                });
            }
        }
        None
    }
}

/// What the text of a partly read canonical string literal holds at and
/// after the reading position.
proof fn lemma_string_parse_step(
    input: Seq<char>,
    pos: int,
    outv: Seq<char>,
    s: Seq<char>,
    rest: Seq<char>,
)
    requires
        0 <= pos <= input.len(),
        input.skip(pos) == json_string(s) + rest,
        outv.len() <= s.len(),
        outv == s.take(outv.len() as int),
    ensures
        input.len() == pos + 2 + esc_chars(s).len() + rest.len(),
        esc_chars(s).len() >= esc_chars(outv).len(),
        input[pos] == '"',
        outv.len() == s.len() ==> input[pos + 1 + esc_chars(outv).len()] == '"'
            && esc_chars(outv).len() == esc_chars(s).len(),
{
    let js = json_string(s);
    let k = outv.len() as int;
    lemma_esc_chars_split(s, k);
    assert(esc_chars(s.take(k)) == esc_chars(outv));
    assert(input.skip(pos).len() == js.len() + rest.len());
    assert(js.len() == 2 + esc_chars(s).len());
    assert(input.skip(pos)[0] == input[pos]);
    assert((js + rest)[0] == js[0]);
    assert(js[0] == '"');
    if outv.len() == s.len() {
        assert(s.take(k) =~= s);
        assert(s.skip(k) =~= Seq::<char>::empty());
        assert(esc_chars(Seq::<char>::empty()) =~= Seq::<char>::empty());
        assert(input.skip(pos)[1 + esc_chars(s).len() as int] == input[pos + 1 + esc_chars(s).len() as int]);
        assert((js + rest)[1 + esc_chars(s).len() as int] == js[1 + esc_chars(s).len() as int]);
        assert(js[1 + esc_chars(s).len() as int] == '"');
    }
}

/// What the text of a partly read canonical string literal holds where
/// the next unescaped character begins: the escape of that character,
/// written out case by case.
#[verifier::rlimit(100)]
proof fn lemma_string_parse_case(
    input: Seq<char>,
    pos: int,
    outv: Seq<char>,
    s: Seq<char>,
    rest: Seq<char>,
)
    requires
        0 <= pos <= input.len(),
        input.skip(pos) == json_string(s) + rest,
        outv.len() < s.len(),
        outv == s.take(outv.len() as int),
    ensures
        ({
            let k = outv.len() as int;
            let c = s[k];
            let i = pos + 1 + esc_chars(outv).len();
            let e = esc_char(c);
            &&& i + e.len() + 1 <= input.len()
            &&& esc_chars(s.take(k + 1)) == esc_chars(outv) + e
            &&& (c == '"' ==> input[i] == '\\' && input[i + 1] == '"')
            &&& (c == '\\' ==> input[i] == '\\' && input[i + 1] == '\\')
            &&& ((c as u32) < 0x20 ==> input[i] == '\\' && input[i + 1] == 'u' && input[i + 2]
                == '0' && input[i + 3] == '0' && input[i + 4] == hex_char(
                ((c as u32) / 16) as u8,
            ) && input[i + 5] == hex_char(((c as u32) % 16) as u8))
            &&& (c != '"' && c != '\\' && (c as u32) >= 0x20 ==> input[i] == c)
        }),
{
    let js = json_string(s);
    let k = outv.len() as int;
    let c = s[k];
    let i = pos + 1 + esc_chars(outv).len();
    let e = esc_char(c);
    lemma_esc_chars_split(s, k);
    assert(esc_chars(s.take(k)) == esc_chars(outv));
    lemma_esc_chars_snoc(s, k);
    assert(input.skip(pos).len() == js.len() + rest.len());
    assert(js.len() == 2 + esc_chars(s).len());
    assert(esc_chars(s).len() == esc_chars(outv).len() + e.len() + esc_chars(
        s.skip(k + 1),
    ).len()) by {
        assert(esc_chars(s.skip(k)) == e + esc_chars(s.skip(k + 1)));
    }
    assert forall|t: int| 0 <= t < e.len() implies input[i + t] == e[t] by {
        let off = 1 + esc_chars(outv).len() + t;
        assert(input.skip(pos)[pos + off - pos] == input[pos + off]);
        assert((js + rest)[off] == js[off]);
        assert(js[off] == esc_chars(s)[off - 1]) by {
            assert(js == seq!['"'] + esc_chars(s) + seq!['"']);
        }
        assert(esc_chars(s)[esc_chars(outv).len() + t] == (esc_chars(outv) + esc_chars(
            s.skip(k),
        ))[esc_chars(outv).len() + t]);
        assert(esc_chars(s.skip(k))[t] == (e + esc_chars(s.skip(k + 1)))[t]);
    }
    if c == '"' || c == '\\' {
        assert(e.len() == 2);
        assert(input[i + 0] == e[0] && input[i + 1] == e[1]);
    } else if (c as u32) < 0x20 {
        assert(e.len() == 6);
        assert(input[i + 0] == e[0] && input[i + 1] == e[1] && input[i + 2] == e[2] && input[i + 3]
            == e[3] && input[i + 4] == e[4] && input[i + 5] == e[5]);
    } else {
        assert(e.len() == 1);
        assert(input[i + 0] == e[0]);
    }
}

/// Reads a canonical JSON string literal starting at `pos`. On success,
/// the unescaped contents and the position just past the closing quote
/// come back. Where the input from `pos` on is exactly a canonical
/// string literal followed by anything at all, its contents come back,
/// with the position just past the closing quote.
#[verifier::rlimit(100)]
pub fn parse_json_string(input: &[char], pos: usize) -> (r: Option<(Vec<char>, usize)>)
    requires
        pos <= input@.len(),
    ensures
        r matches Some((s, end)) ==> pos < end <= input@.len(),
        forall|s: Seq<char>, rest: Seq<char>|
            input@.skip(pos as int) == json_string(s) + rest ==> (r matches Some((out, end))
                && out@ == s && end == pos + json_string(s).len()),
{
    if pos >= input.len() || input[pos] != '"' {
        proof {
            assert forall|s: Seq<char>, rest: Seq<char>|
                input@.skip(pos as int) == json_string(s) + rest implies false by {
                assert(Seq::<char>::empty() =~= s.take(0));
                lemma_string_parse_step(input@, pos as int, Seq::<char>::empty(), s, rest);
            }
        }
        return None;
    }
    let mut i: usize = pos + 1;
    let mut out: Vec<char> = Vec::new();
    proof {
        assert(esc_chars(out@) =~= Seq::<char>::empty());
        assert forall|s: Seq<char>, rest: Seq<char>|
            input@.skip(pos as int) == json_string(s) + rest implies (out@.len() <= s.len()
            && out@ == s.take(out@.len() as int)) by {
            assert(out@ =~= s.take(0));
        }
    }
    loop
        invariant
            pos < i <= input@.len(),
            i == pos + 1 + esc_chars(out@).len(),
            forall|s: Seq<char>, rest: Seq<char>|
                input@.skip(pos as int) == json_string(s) + rest ==> (out@.len() <= s.len()
                    && out@ == s.take(out@.len() as int)),
        decreases input@.len() - i,
    {
        let ghost prev = out@;
        if i >= input.len() {
            proof {
                assert forall|s: Seq<char>, rest: Seq<char>|
                    input@.skip(pos as int) == json_string(s) + rest implies false by {
                    lemma_string_parse_step(input@, pos as int, prev, s, rest);
                    if prev.len() < s.len() {
                        lemma_string_parse_case(input@, pos as int, prev, s, rest);
                    }
                }
            }
            return None;
        }
        let c = input[i];
        if c == '"' {
            proof {
                assert forall|s: Seq<char>, rest: Seq<char>|
                    input@.skip(pos as int) == json_string(s) + rest implies (out@ == s && i + 1
                    == pos + json_string(s).len()) by {
                    lemma_string_parse_step(input@, pos as int, prev, s, rest);
                    if prev.len() < s.len() {
                        lemma_string_parse_case(input@, pos as int, prev, s, rest);
                        lemma_esc_char_head(s[prev.len() as int]);
                        assert(input@[i as int] == esc_char(s[prev.len() as int])[0]);
                        assert(false);
                    }
                    assert(out@ =~= s);
                }
            }
            return Some((out, i + 1));
        }
        if c == '\\' {
            proof {
                assert forall|s: Seq<char>, rest: Seq<char>|
                    input@.skip(pos as int) == json_string(s) + rest implies (prev.len() < s.len()
                    && esc_char(s[prev.len() as int])[0] == '\\') by {
                    lemma_string_parse_step(input@, pos as int, prev, s, rest);
                    if prev.len() < s.len() {
                        lemma_string_parse_case(input@, pos as int, prev, s, rest);
                        let sc = s[prev.len() as int];
                        if sc != '"' && sc != '\\' && (sc as u32) >= 0x20 {
                            assert(input@[i as int] == sc);
                            assert(esc_char(sc)[0] == sc);
                        }
                    }
                }
            }
            if i + 1 >= input.len() {
                proof {
                    assert forall|s: Seq<char>, rest: Seq<char>|
                        input@.skip(pos as int) == json_string(s) + rest implies false by {
                        lemma_string_parse_case(input@, pos as int, prev, s, rest);
                        lemma_esc_char_head(s[prev.len() as int]);
                        let sc = s[prev.len() as int];
                        if sc != '"' && sc != '\\' && (sc as u32) >= 0x20 {
                            assert(input@[i as int] == sc);
                        }
                    }
                }
                return None;
            }
            let e = input[i + 1];
            if e == '"' {
                proof {
                    string_escape_branch(input@, pos as int, i as int, prev, '"');
                }
                out.push('"');
                i = i + 2;
                proof {
                    assert(out@ =~= prev + seq!['"']);
                    lemma_esc_chars_concat(prev, seq!['"']);
                    assert(seq!['"'].drop_first() =~= Seq::<char>::empty());
                    assert(esc_chars(Seq::<char>::empty()) =~= Seq::<char>::empty());
                    assert(esc_chars(seq!['"']) =~= esc_char('"'));
                    assert forall|s: Seq<char>, rest: Seq<char>|
                        input@.skip(pos as int) == json_string(s) + rest implies (out@.len()
                        <= s.len() && out@ == s.take(out@.len() as int)) by {}
                }
            } else if e == '\\' {
                proof {
                    string_escape_branch(input@, pos as int, i as int, prev, '\\');
                }
                out.push('\\');
                i = i + 2;
                proof {
                    assert(out@ =~= prev + seq!['\\']);
                    lemma_esc_chars_concat(prev, seq!['\\']);
                    assert(seq!['\\'].drop_first() =~= Seq::<char>::empty());
                    assert(esc_chars(Seq::<char>::empty()) =~= Seq::<char>::empty());
                    assert(esc_chars(seq!['\\']) =~= esc_char('\\'));
                    assert forall|s: Seq<char>, rest: Seq<char>|
                        input@.skip(pos as int) == json_string(s) + rest implies (out@.len()
                        <= s.len() && out@ == s.take(out@.len() as int)) by {}
                }
            } else if e == 'u' {
                proof {
                    assert forall|s: Seq<char>, rest: Seq<char>|
                        input@.skip(pos as int) == json_string(s) + rest implies (prev.len()
                        < s.len() && ((s[prev.len() as int] as u32) < 0x20) && i + 7
                        <= input@.len()) by {
                        lemma_string_parse_case(input@, pos as int, prev, s, rest);
                        let sc = s[prev.len() as int];
                        if sc == '"' || sc == '\\' {
                            assert(input@[i as int + 1] == sc);
                        }
                        if sc != '"' && sc != '\\' && (sc as u32) >= 0x20 {
                            assert(input@[i as int] == sc);
                        }
                    }
                }
                if input.len() - i <= 5 {
                    proof {
                        assert forall|s: Seq<char>, rest: Seq<char>|
                            input@.skip(pos as int) == json_string(s) + rest implies false by {}
                    }
                    return None;
                }
                if input[i + 2] != '0' || input[i + 3] != '0' {
                    proof {
                        assert forall|s: Seq<char>, rest: Seq<char>|
                            input@.skip(pos as int) == json_string(s) + rest implies false by {
                            lemma_string_parse_case(input@, pos as int, prev, s, rest);
                        }
                    }
                    return None;
                }
                let high = match hex_val(input[i + 4]) {
                    Some(n) => n,
                    None => {
                        proof {
                            assert forall|s: Seq<char>, rest: Seq<char>|
                                input@.skip(pos as int) == json_string(s) + rest implies false by {
                                lemma_string_parse_case(input@, pos as int, prev, s, rest);
                                let sc = s[prev.len() as int];
                                assert(input@[i as int + 4] == hex_char(((sc as u32) / 16) as u8));
                            }
                        }
                        return None;
                    },
                };
                let low = match hex_val(input[i + 5]) {
                    Some(n) => n,
                    None => {
                        proof {
                            assert forall|s: Seq<char>, rest: Seq<char>|
                                input@.skip(pos as int) == json_string(s) + rest implies false by {
                                lemma_string_parse_case(input@, pos as int, prev, s, rest);
                                let sc = s[prev.len() as int];
                                assert(input@[i as int + 5] == hex_char(((sc as u32) % 16) as u8));
                            }
                        }
                        return None;
                    },
                };
                let value = high * 16 + low;
                proof {
                    assert forall|s: Seq<char>, rest: Seq<char>|
                        input@.skip(pos as int) == json_string(s) + rest implies (value < 0x20
                        && s[prev.len() as int] == (value as char)) by {
                        lemma_string_parse_case(input@, pos as int, prev, s, rest);
                        let sc = s[prev.len() as int];
                        assert(input@[i as int + 4] == hex_char(((sc as u32) / 16) as u8));
                        assert(input@[i as int + 5] == hex_char(((sc as u32) % 16) as u8));
                        lemma_hex_char_injective(high, ((sc as u32) / 16) as u8);
                        lemma_hex_char_injective(low, ((sc as u32) % 16) as u8);
                        assert(value as u32 == sc as u32);
                        assert((value as char) as u32 == value as u32);
                        vstd::utf8::char_u32_cast(sc, sc as u32);
                        vstd::utf8::char_u32_cast((value as char), (value as char) as u32);
                        assert((value as char) == sc);
                    }
                }
                if value >= 0x20 {
                    proof {
                        assert forall|s: Seq<char>, rest: Seq<char>|
                            input@.skip(pos as int) == json_string(s) + rest implies false by {}
                    }
                    return None;
                }
                proof {
                    assert(esc_char((value as char)) == seq!['\\', 'u', '0', '0', hex_char(
                        (((value as char) as u32) / 16) as u8,
                    ), hex_char((((value as char) as u32) % 16) as u8)]);
                }
                out.push(value as char);
                i = i + 6;
                proof {
                    assert(out@ =~= prev + seq![(value as char)]);
                    lemma_esc_chars_concat(prev, seq![(value as char)]);
                    assert(seq![(value as char)].drop_first() =~= Seq::<char>::empty());
                    assert(esc_chars(Seq::<char>::empty()) =~= Seq::<char>::empty());
                    assert(esc_chars(seq![(value as char)]) =~= esc_char((value as char)));
                    assert forall|s: Seq<char>, rest: Seq<char>|
                        input@.skip(pos as int) == json_string(s) + rest implies (out@.len()
                        <= s.len() && out@ == s.take(out@.len() as int)) by {
                        assert(s[prev.len() as int] == (value as char));
                        assert(out@ =~= s.take(prev.len() as int + 1));
                    }
                }
            } else {
                proof {
                    assert forall|s: Seq<char>, rest: Seq<char>|
                        input@.skip(pos as int) == json_string(s) + rest implies false by {
                        lemma_string_parse_case(input@, pos as int, prev, s, rest);
                        let sc = s[prev.len() as int];
                        if sc == '"' || sc == '\\' {
                            assert(input@[i as int + 1] == sc);
                        }
                        if sc != '"' && sc != '\\' && (sc as u32) >= 0x20 {
                            assert(input@[i as int] == sc);
                        }
                        if (sc as u32) < 0x20 {
                            assert(input@[i as int + 1] == 'u');
                        }
                    }
                }
                return None;
            }
        } else {
            proof {
                assert forall|s: Seq<char>, rest: Seq<char>|
                    input@.skip(pos as int) == json_string(s) + rest implies (prev.len() < s.len()
                    && s[prev.len() as int] == c && (c as u32) >= 0x20) by {
                    lemma_string_parse_step(input@, pos as int, prev, s, rest);
                    if prev.len() < s.len() {
                        lemma_string_parse_case(input@, pos as int, prev, s, rest);
                        let sc = s[prev.len() as int];
                        if sc == '"' || sc == '\\' || (sc as u32) < 0x20 {
                            assert(input@[i as int] == '\\');
                        }
                    }
                }
            }
            if (c as u32) < 0x20 {
                proof {
                    assert forall|s: Seq<char>, rest: Seq<char>|
                        input@.skip(pos as int) == json_string(s) + rest implies false by {}
                }
                return None;
            }
            proof {
                assert(esc_char(c) == seq![c]);
            }
            out.push(c);
            i = i + 1;
            proof {
                assert(out@ =~= prev + seq![c]);
                lemma_esc_chars_concat(prev, seq![c]);
                assert(seq![c].drop_first() =~= Seq::<char>::empty());
                assert(esc_chars(Seq::<char>::empty()) =~= Seq::<char>::empty());
                assert(esc_chars(seq![c]) =~= esc_char(c));
                assert forall|s: Seq<char>, rest: Seq<char>|
                    input@.skip(pos as int) == json_string(s) + rest implies (out@.len() <= s.len()
                    && out@ == s.take(out@.len() as int)) by {
                    assert(s[prev.len() as int] == c);
                    assert(out@ =~= s.take(prev.len() as int + 1));
                }
            }
        }
    }
}

/// What holds when the parser reads the two-character escape of `sc`
/// (the quote or the backslash): the next unescaped character is `sc`
/// itself, and consuming its escape keeps the contents a prefix.
proof fn string_escape_branch(input: Seq<char>, pos: int, i: int, prev: Seq<char>, sc: char)
    requires
        0 <= pos <= input.len(),
        sc == '"' || sc == '\\',
        i == pos + 1 + esc_chars(prev).len(),
        i + 1 < input.len(),
        input[i] == '\\',
        input[i + 1] == sc,
        forall|s: Seq<char>, rest: Seq<char>|
            input.skip(pos) == json_string(s) + rest ==> (prev.len() < s.len() && prev == s.take(
                prev.len() as int,
            )),
    ensures
        forall|s: Seq<char>, rest: Seq<char>|
            input.skip(pos) == json_string(s) + rest ==> (s[prev.len() as int] == sc && (prev
                + seq![sc]).len() <= s.len() && prev + seq![sc] == s.take(
                (prev + seq![sc]).len() as int,
            ) && esc_chars(prev + seq![sc]) == esc_chars(prev) + seq!['\\', sc]),
{
    assert forall|s: Seq<char>, rest: Seq<char>|
        input.skip(pos) == json_string(s) + rest implies (s[prev.len() as int] == sc && (prev
        + seq![sc]).len() <= s.len() && prev + seq![sc] == s.take((prev + seq![sc]).len() as int)
        && esc_chars(prev + seq![sc]) == esc_chars(prev) + seq!['\\', sc]) by {
        lemma_string_parse_case(input, pos, prev, s, rest);
        let c = s[prev.len() as int];
        if c != '"' && c != '\\' && (c as u32) >= 0x20 {
            assert(input[i] == c);
        }
        if (c as u32) < 0x20 {
            assert(input[i + 1] == 'u');
        }
        if c == '"' || c == '\\' {
            assert(input[i + 1] == c);
        }
        assert(c == sc);
        assert(prev + seq![sc] =~= s.take(prev.len() as int + 1));
        lemma_esc_chars_concat(prev, seq![sc]);
        assert(seq![sc].drop_first() =~= Seq::<char>::empty());
        assert(esc_chars(Seq::<char>::empty()) =~= Seq::<char>::empty());
        assert(esc_chars(seq![sc]) =~= esc_char(sc));
        assert(esc_char(sc) =~= seq!['\\', sc]);
    }
}

/// Reads a canonical decimal byte value starting at `pos`: one to three
/// digits, no leading zero, at most 255. Where the input from `pos` on
/// is exactly the canonical digits of a value followed by anything but
/// a digit, that value comes back, with the position just past its
/// digits.
#[verifier::rlimit(50)]
pub fn parse_dec_u8(input: &[char], pos: usize) -> (r: Option<(u8, usize)>)
    requires
        pos <= input@.len(),
    ensures
        r matches Some((n, end)) ==> pos < end <= input@.len(),
        forall|n: u8, rest: Seq<char>|
            input@.skip(pos as int) == dec_u8(n) + rest && (rest.len() == 0 || !is_dec_digit(
                rest[0],
            )) ==> (r matches Some((m, end)) && m == n && end == pos + dec_u8(n).len()),
{
    if pos >= input.len() {
        proof {
            assert forall|n: u8, rest: Seq<char>|
                input@.skip(pos as int) == dec_u8(n) + rest && (rest.len() == 0 || !is_dec_digit(
                    rest[0],
                )) implies false by {
                assert(input@.skip(pos as int).len() == 0);
                assert(dec_u8(n).len() >= 1);
            }
        }
        return None;
    }
    let first = hex_val(input[pos]);
    let d0 = match first {
        Some(d) if d < 10 => d,
        _ => {
            proof {
                assert forall|n: u8, rest: Seq<char>|
                    input@.skip(pos as int) == dec_u8(n) + rest && (rest.len() == 0
                        || !is_dec_digit(rest[0])) implies false by {
                    let fd: u8 = if n < 10 { n } else if n < 100 { (n / 10) as u8 } else { (n / 100) as u8 };
                    assert(input@.skip(pos as int)[0] == input@[pos as int]);
                    assert(input@[pos as int] == hex_char(fd));
                    assert(fd < 10);
                    match first {
                        Some(d) => {
                            lemma_hex_char_injective(d, fd);
                        },
                        None => {},
                    }
                }
            }
            return None;
        },
    };
    if d0 == 0 {
        proof {
            assert forall|n: u8, rest: Seq<char>|
                input@.skip(pos as int) == dec_u8(n) + rest && (rest.len() == 0 || !is_dec_digit(
                    rest[0],
                )) implies (n == 0 && pos + 1 == pos + dec_u8(n).len()) by {
                let fd: u8 = if n < 10 { n } else if n < 100 { (n / 10) as u8 } else { (n / 100) as u8 };
                assert(input@.skip(pos as int)[0] == input@[pos as int]);
                assert(input@[pos as int] == hex_char(fd));
                assert(fd < 10);
                lemma_hex_char_injective(d0, fd);
            }
        }
        return Some((0, pos + 1));
    }
    let one_more = pos + 1;
    if one_more >= input.len() {
        proof {
            lemma_dec_one_digit(input@, pos as int, d0, input@.len() as int);
        }
        return Some((d0, one_more));
    }
    let second = hex_val(input[one_more]);
    let d1 = match second {
        Some(d) if d < 10 => d,
        _ => {
            proof {
                assert forall|n: u8, rest: Seq<char>|
                    input@.skip(pos as int) == dec_u8(n) + rest && (rest.len() == 0
                        || !is_dec_digit(rest[0])) implies (n == d0 && pos + 1 == pos + dec_u8(
                    n,
                ).len()) by {
                    lemma_dec_head(input@, pos as int, n, rest, d0);
                    if n >= 10 {
                        let sd: u8 = if n < 100 { (n % 10) as u8 } else { ((n / 10) % 10) as u8 };
                        assert(input@.skip(pos as int)[1] == input@[pos as int + 1]);
                        assert(input@[pos as int + 1] == hex_char(sd));
                        assert(sd < 10);
                        match second {
                            Some(d) => {
                                lemma_hex_char_injective(d, sd);
                            },
                            None => {},
                        }
                    }
                }
            }
            return Some((d0, one_more));
        },
    };
    let value2: u16 = (d0 as u16) * 10 + (d1 as u16);
    let two_more = pos + 2;
    if two_more >= input.len() {
        proof {
            assert forall|n: u8, rest: Seq<char>|
                input@.skip(pos as int) == dec_u8(n) + rest && (rest.len() == 0 || !is_dec_digit(
                    rest[0],
                )) implies (n == value2 && two_more == pos + dec_u8(n).len()) by {
                lemma_dec_two_digits(input@, pos as int, n, rest, d0, d1, true);
            }
        }
        return Some(((value2 as u8), two_more));
    }
    let third = hex_val(input[two_more]);
    let d2 = match third {
        Some(d) if d < 10 => d,
        _ => {
            proof {
                assert forall|n: u8, rest: Seq<char>|
                    input@.skip(pos as int) == dec_u8(n) + rest && (rest.len() == 0
                        || !is_dec_digit(rest[0])) implies (n == value2 && two_more == pos
                    + dec_u8(n).len()) by {
                    lemma_dec_two_digits(input@, pos as int, n, rest, d0, d1, false);
                    if n >= 100 {
                        let td: u8 = (n % 10) as u8;
                        assert(input@.skip(pos as int)[2] == input@[pos as int + 2]);
                        assert(input@[pos as int + 2] == hex_char(td));
                        assert(td < 10);
                        match third {
                            Some(d) => {
                                lemma_hex_char_injective(d, td);
                            },
                            None => {},
                        }
                    }
                }
            }
            return Some(((value2 as u8), two_more));
        },
    };
    let value3: u32 = (value2 as u32) * 10 + (d2 as u32);
    proof {
        assert forall|n: u8, rest: Seq<char>|
            input@.skip(pos as int) == dec_u8(n) + rest && (rest.len() == 0 || !is_dec_digit(
                rest[0],
            )) implies (n == value3 && pos + 3 == pos + dec_u8(n).len()) by {
            lemma_dec_three_digits(input@, pos as int, n, rest, d0, d1, d2);
        }
    }
    if value3 > 255 {
        return None;
    }
    Some(((value3 as u8), two_more + 1))
}

/// Every character of a canonical decimal is a digit.
pub proof fn lemma_dec_u8_digits(n: u8)
    ensures
        1 <= dec_u8(n).len() <= 3,
        forall|t: int| 0 <= t < dec_u8(n).len() ==> is_dec_digit(#[trigger] dec_u8(n)[t]),
{
    assert forall|t: int| 0 <= t < dec_u8(n).len() implies is_dec_digit(#[trigger] dec_u8(n)[t]) by {
        if n < 10 {
            assert(dec_u8(n)[t] == hex_char(n));
        }
    }
}

/// A character sequence starts with the canonical decimal of at most
/// one value, when what follows the digits is not a digit.
#[verifier::rlimit(50)]
pub proof fn lemma_dec_u8_unique(a: u8, b: u8, rest_a: Seq<char>, rest_b: Seq<char>)
    requires
        dec_u8(a) + rest_a == dec_u8(b) + rest_b,
        rest_a.len() == 0 || !is_dec_digit(rest_a[0]),
        rest_b.len() == 0 || !is_dec_digit(rest_b[0]),
    ensures
        a == b,
        rest_a == rest_b,
{
    let s = dec_u8(a) + rest_a;
    lemma_dec_u8_digits(a);
    lemma_dec_u8_digits(b);
    let la = dec_u8(a).len() as int;
    let lb = dec_u8(b).len() as int;
    if la < lb {
        assert(rest_a[0] == s[la]);
        assert(s[la] == dec_u8(b)[la]);
        assert(false);
    }
    if lb < la {
        assert(rest_b[0] == s[lb]);
        assert(s[lb] == dec_u8(a)[lb]);
        assert(false);
    }
    assert(la == lb);
    assert forall|t: int| 0 <= t < dec_u8(a).len() implies dec_u8(a)[t] == dec_u8(b)[t] by {
        assert(dec_u8(a)[t] == s[t]);
        assert(dec_u8(b)[t] == s[t]);
    }
    lemma_dec_u8_unique_same_len(a, b);
    assert(s.len() == dec_u8(a).len() + rest_a.len());
    assert(s == dec_u8(b) + rest_b);
    assert(s.len() == dec_u8(b).len() + rest_b.len());
    assert(rest_a.len() == rest_b.len());
    assert forall|j: int| 0 <= j < rest_a.len() implies rest_a[j] == rest_b[j] by {
        assert(rest_a[j] == s[la + j]);
        assert(rest_b[j] == s[lb + j]);
    }
    assert(rest_a =~= rest_b);
}

proof fn lemma_dec_u8_unique_same_len(a: u8, b: u8)
    requires
        dec_u8(a).len() == dec_u8(b).len(),
        forall|t: int| 0 <= t < dec_u8(a).len() ==> dec_u8(a)[t] == dec_u8(b)[t],
    ensures
        a == b,
{
    if a < 10 {
        assert(b < 10);
        assert(dec_u8(a)[0] == hex_char(a));
        assert(dec_u8(b)[0] == hex_char(b));
        lemma_hex_char_injective(a, b);
    } else if a < 100 {
        assert(10 <= b < 100);
        assert(dec_u8(a)[0] == hex_char((a / 10) as u8));
        assert(dec_u8(b)[0] == hex_char((b / 10) as u8));
        assert(dec_u8(a)[1] == hex_char((a % 10) as u8));
        assert(dec_u8(b)[1] == hex_char((b % 10) as u8));
        lemma_hex_char_injective((a / 10) as u8, (b / 10) as u8);
        lemma_hex_char_injective((a % 10) as u8, (b % 10) as u8);
        assert(a == (a / 10) * 10 + a % 10);
        assert(b == (b / 10) * 10 + b % 10);
    } else {
        assert(100 <= b);
        assert(dec_u8(a)[0] == hex_char((a / 100) as u8));
        assert(dec_u8(b)[0] == hex_char((b / 100) as u8));
        assert(dec_u8(a)[1] == hex_char(((a / 10) % 10) as u8));
        assert(dec_u8(b)[1] == hex_char(((b / 10) % 10) as u8));
        assert(dec_u8(a)[2] == hex_char((a % 10) as u8));
        assert(dec_u8(b)[2] == hex_char((b % 10) as u8));
        lemma_hex_char_injective((a / 100) as u8, (b / 100) as u8);
        lemma_hex_char_injective(((a / 10) % 10) as u8, ((b / 10) % 10) as u8);
        lemma_hex_char_injective((a % 10) as u8, (b % 10) as u8);
        assert(a == (a / 100) * 100 + ((a / 10) % 10) * 10 + a % 10);
        assert(b == (b / 100) * 100 + ((b / 10) % 10) * 10 + b % 10);
    }
}

/// Facts that the first digit of a canonical decimal pins down: the
/// character at `pos` is the digit character of the value's leading
/// digit.
proof fn lemma_dec_head(input: Seq<char>, pos: int, n: u8, rest: Seq<char>, d0: u8)
    requires
        0 <= pos <= input.len(),
        input.skip(pos) == dec_u8(n) + rest,
        d0 < 10,
        input[pos] == hex_char(d0),
    ensures
        n < 10 ==> n == d0,
        10 <= n < 100 ==> n / 10 == d0,
        100 <= n ==> n / 100 == d0,
{
    let fd: u8 = if n < 10 { n } else if n < 100 { (n / 10) as u8 } else { (n / 100) as u8 };
    assert(input.skip(pos).len() == dec_u8(n).len() + rest.len());
    assert(dec_u8(n).len() >= 1);
    assert(pos < input.len());
    assert(input.skip(pos)[0] == input[pos]);
    assert(input[pos] == hex_char(fd));
    assert(fd < 10);
    lemma_hex_char_injective(d0, fd);
}

/// A canonical decimal whose first two characters are the digits of
/// `d0` and `d1` and whose third character - if the decimal went on -
/// would not be a digit, is the two-digit value.
proof fn lemma_dec_one_digit(input: Seq<char>, pos: int, d0: u8, len: int)
    requires
        0 <= pos < input.len(),
        1 <= d0 < 10,
        input[pos] == hex_char(d0),
        len == input.len(),
        pos + 1 >= len,
    ensures
        forall|n: u8, rest: Seq<char>|
            input.skip(pos) == dec_u8(n) + rest && (rest.len() == 0 || !is_dec_digit(rest[0]))
                ==> (n == d0 && pos + 1 == pos + dec_u8(n).len()),
{
    assert forall|n: u8, rest: Seq<char>|
        input.skip(pos) == dec_u8(n) + rest && (rest.len() == 0 || !is_dec_digit(rest[0]))
            implies (n == d0 && pos + 1 == pos + dec_u8(n).len()) by {
        lemma_dec_head(input, pos, n, rest, d0);
        assert(input.skip(pos).len() == input.len() - pos);
        assert(dec_u8(n).len() + rest.len() == 1);
        assert(dec_u8(n).len() == 1);
    }
}

proof fn lemma_dec_two_digits(
    input: Seq<char>,
    pos: int,
    n: u8,
    rest: Seq<char>,
    d0: u8,
    d1: u8,
    at_end: bool,
)
    requires
        0 <= pos,
        pos + 2 <= input.len(),
        input.skip(pos) == dec_u8(n) + rest,
        rest.len() == 0 || !is_dec_digit(rest[0]),
        1 <= d0 < 10,
        d1 < 10,
        input[pos] == hex_char(d0),
        input[pos + 1] == hex_char(d1),
        at_end ==> pos + 2 >= input.len(),
    ensures
        n >= 100 || (n == d0 * 10 + d1 && dec_u8(n).len() == 2),
        at_end ==> (n == d0 * 10 + d1 && dec_u8(n).len() == 2),
{
    lemma_dec_head(input, pos, n, rest, d0);
    assert(input.skip(pos).len() == input.len() - pos);
    if n < 10 {
        // rest would start with the digit at pos + 1
        assert(rest.len() >= 1);
        assert(input.skip(pos)[1] == input[pos + 1]);
        assert(rest[0] == input[pos + 1]);
        assert(is_dec_digit(hex_char(d1)));
        assert(false);
    } else if n < 100 {
        let sd: u8 = (n % 10) as u8;
        assert(input.skip(pos)[1] == input[pos + 1]);
        assert(input[pos + 1] == hex_char(sd));
        assert(sd < 10);
        lemma_hex_char_injective(d1, sd);
        assert(n == (n / 10) * 10 + n % 10);
    } else {
        if at_end {
            assert(dec_u8(n).len() == 3);
            assert(input.skip(pos).len() >= 3);
            assert(false);
        }
    }
}

proof fn lemma_dec_three_digits(
    input: Seq<char>,
    pos: int,
    n: u8,
    rest: Seq<char>,
    d0: u8,
    d1: u8,
    d2: u8,
)
    requires
        0 <= pos,
        pos + 3 <= input.len(),
        input.skip(pos) == dec_u8(n) + rest,
        rest.len() == 0 || !is_dec_digit(rest[0]),
        1 <= d0 < 10,
        d1 < 10,
        d2 < 10,
        input[pos] == hex_char(d0),
        input[pos + 1] == hex_char(d1),
        input[pos + 2] == hex_char(d2),
    ensures
        n == d0 * 100 + d1 * 10 + d2,
        dec_u8(n).len() == 3,
{
    lemma_dec_head(input, pos, n, rest, d0);
    lemma_dec_two_digits(input, pos, n, rest, d0, d1, false);
    if n < 100 {
        // rest would start with the digit at pos + 2
        assert(rest.len() >= 1);
        assert(input.skip(pos)[2] == input[pos + 2]);
        assert(rest[0] == input[pos + 2]);
        assert(is_dec_digit(hex_char(d2)));
        assert(false);
    }
    let sd: u8 = ((n / 10) % 10) as u8;
    let td: u8 = (n % 10) as u8;
    assert(input.skip(pos)[1] == input[pos + 1]);
    assert(input[pos + 1] == hex_char(sd));
    assert(sd < 10);
    lemma_hex_char_injective(d1, sd);
    assert(input.skip(pos)[2] == input[pos + 2]);
    assert(input[pos + 2] == hex_char(td));
    assert(td < 10);
    lemma_hex_char_injective(d2, td);
    assert(n == (n / 100) * 100 + ((n / 10) % 10) * 10 + n % 10);
}

} // verus!
