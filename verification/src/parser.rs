//! The JSON decoding of the completion documents: spec-level parsers over
//! character sequences, mirrored by verified executable parsers. The
//! request parser reads back exactly what the encoder writes; the
//! response parser reads the documented shape liberally: members in any
//! order, unknown members skipped, JSON whitespace allowed, string
//! escapes `\"` `\\` `\/` `\b` `\f` `\n` `\r` `\t`, `\uXXXX` and
//! surrogate pairs.

use vstd::prelude::*;
use crate::numerals::{
    digits_prefix_len, digits_run, digits_val, is_digit, is_num_char, is_valid_number,
    check_number_chars, lemma_digits_prefix_bounds, pow10,
};
use crate::utils::{chars_of, match_at, string_from_chars};
use crate::json::{
    esc, esc_char, hex_digit, ser_bool, ser_msg, ser_msg_array, ser_msgs, ser_request, ser_str_array,
    ser_string, ser_strs,
};
use crate::numerals::{
    dec_digits, int_digits, lemma_dec_digits, lemma_dec_digits_len, lemma_digits_prefix_concat,
    lemma_valid_number_chars,
};
use crate::models::{
    RequestBody, RequestBodyV, RequestMessage, RequestMessageV, ResponseBody, ResponseBodyV,
    ResponseContent, ResponseContentV, ResponseMessage, ResponseMessageV, Number, Settings,
    SettingsV,
};

verus! {

/// Consumes an exact literal prefix.
pub open spec fn p_lit(s: Seq<char>, l: Seq<char>) -> Option<Seq<char>> {
    if s.len() >= l.len() && s.take(l.len() as int) == l {
        Some(s.skip(l.len() as int))
    } else {
        None
    }
}

/// True for hexadecimal digit characters, either case.
pub open spec fn is_hex(c: char) -> bool {
    is_digit(c) || (97 <= c as int && c as int <= 102) || (65 <= c as int && c as int <= 70)
}

/// The value of a hexadecimal digit character.
pub open spec fn hex_val(c: char) -> int {
    if c as int <= 57 {
        c as int - 48
    } else if c as int >= 97 {
        c as int - 87
    } else {
        c as int - 55
    }
}

/// A code point a `char` can carry: anything but the surrogates.
pub open spec fn valid_code(v: int) -> bool {
    (0 <= v && v < 0xD800) || (0xE000 <= v && v < 0x110000)
}

/// Reads one escape, the character after the backslash onward; yields the
/// escaped character and how many characters were read.
pub open spec fn p_esc_char(s: Seq<char>) -> Option<(char, int)> {
    if s.len() == 0 {
        None
    } else if s[0] == '"' {
        Some(('"', 1))
    } else if s[0] == '\\' {
        Some(('\\', 1))
    } else if s[0] == '/' {
        Some(('/', 1))
    } else if s[0] == 'b' {
        Some(('\u{8}', 1))
    } else if s[0] == 'f' {
        Some(('\u{c}', 1))
    } else if s[0] == 'n' {
        Some(('\n', 1))
    } else if s[0] == 'r' {
        Some(('\r', 1))
    } else if s[0] == 't' {
        Some(('\t', 1))
    } else if s[0] == 'u' {
        if s.len() >= 5 && is_hex(s[1]) && is_hex(s[2]) && is_hex(s[3]) && is_hex(s[4]) {
            let v = hex_val(s[1]) * 4096 + hex_val(s[2]) * 256 + hex_val(s[3]) * 16 + hex_val(
                s[4],
            );
            if valid_code(v) {
                Some((((v as u32) as char), 5))
            } else if 0xD800 <= v && v < 0xDC00 {
                if s.len() >= 11 && s[5] == '\\' && s[6] == 'u' && is_hex(s[7]) && is_hex(s[8])
                    && is_hex(s[9]) && is_hex(s[10]) {
                    let w = hex_val(s[7]) * 4096 + hex_val(s[8]) * 256 + hex_val(s[9]) * 16
                        + hex_val(s[10]);
                    if 0xDC00 <= w && w < 0xE000 {
                        let code = 0x10000 + (v - 0xD800) * 0x400 + (w - 0xDC00);
                        Some((((code as u32) as char), 11))
                    } else {
                        None
                    }
                } else {
                    None
                }
            } else {
                None
            }
        } else {
            None
        }
    } else {
        None
    }
}

/// Reads a string body up to and including the closing quote.
pub open spec fn p_str_body(s: Seq<char>) -> Option<(Seq<char>, Seq<char>)>
    decreases s.len(),
{
    if s.len() == 0 {
        None
    } else if s[0] == '"' {
        Some((Seq::<char>::empty(), s.skip(1)))
    } else if s[0] == '\\' {
        match p_esc_char(s.skip(1)) {
            Some(ck) => {
                if 1 <= ck.1 && 1 + ck.1 <= s.len() {
                    match p_str_body(s.skip(1 + ck.1)) {
                        Some(vr) => Some((seq![ck.0] + vr.0, vr.1)),
                        None => None,
                    }
                } else {
                    None
                }
            },
            None => None,
        }
    } else {
        match p_str_body(s.skip(1)) {
            Some(vr) => Some((seq![s[0]] + vr.0, vr.1)),
            None => None,
        }
    }
}

/// Reads a JSON string, quotes included.
pub open spec fn p_string(s: Seq<char>) -> Option<(Seq<char>, Seq<char>)> {
    if s.len() > 0 && s[0] == '"' {
        p_str_body(s.skip(1))
    } else {
        None
    }
}

/// Length of the longest prefix of numeral characters.
pub open spec fn num_prefix_len(s: Seq<char>) -> int
    decreases s.len(),
{
    if s.len() > 0 && is_num_char(s[0]) {
        1 + num_prefix_len(s.skip(1))
    } else {
        0
    }
}

/// Reads a numeral: the longest run of numeral characters, accepted only
/// in the documented shape, kept as text.
pub open spec fn p_number(s: Seq<char>) -> Option<(Seq<char>, Seq<char>)> {
    let k = num_prefix_len(s);
    if 1 <= k <= s.len() && is_valid_number(s.take(k)) {
        Some((s.take(k), s.skip(k)))
    } else {
        None
    }
}

/// Reads an integer of at most eighteen digits, an optional minus sign
/// first.
pub open spec fn p_int(s: Seq<char>) -> Option<(int, Seq<char>)> {
    let neg = s.len() > 0 && s[0] == '-';
    let u = if neg {
        s.skip(1)
    } else {
        s
    };
    let k = digits_prefix_len(u);
    if 1 <= k <= 18 && k <= u.len() {
        let m = digits_val(u.take(k));
        Some(((if neg { -m } else { m }), u.skip(k)))
    } else {
        None
    }
}

/// Reads a boolean literal.
pub open spec fn p_bool(s: Seq<char>) -> Option<(bool, Seq<char>)> {
    if s.len() >= 4 && s.take(4) == "true"@ {
        Some((true, s.skip(4)))
    } else if s.len() >= 5 && s.take(5) == "false"@ {
        Some((false, s.skip(5)))
    } else {
        None
    }
}

/// The numeral prefix length, computed from a given index.
proof fn lemma_num_prefix_from(s: Seq<char>, i: int)
    requires
        0 <= i <= s.len(),
        forall|j: int| 0 <= j < i ==> is_num_char(s[j]),
        i == s.len() || !is_num_char(s[i]),
    ensures
        num_prefix_len(s) == i,
    decreases i,
{
    if i == 0 {
    } else {
        assert(is_num_char(s[0]));
        lemma_num_prefix_from(s.skip(1), i - 1);
    }
}

fn num_char(c: char) -> (b: bool)
    ensures
        b == is_num_char(c),
{
    let u = c as u32;
    (48 <= u && u <= 57) || c == '-' || c == '.'
}

fn hex_char_val(c: char) -> (r: Option<u8>)
    ensures
        match r {
            Some(h) => is_hex(c) && hex_val(c) == h as int,
            None => !is_hex(c),
        },
{
    let u = c as u32;
    if 48 <= u && u <= 57 {
        Some((u - 48) as u8)
    } else if 97 <= u && u <= 102 {
        Some((u - 87) as u8)
    } else if 65 <= u && u <= 70 {
        Some((u - 55) as u8)
    } else {
        None
    }
}

/// Relies on `char::from_u32`: gives the character with the given code
/// point; the surrogate range is kept out by the precondition.
#[verifier::external_body]
fn char_from_u32(code: u32) -> (r: char)
    requires
        valid_code(code as int),
    ensures
        r == (code as char),
{
    char::from_u32(code).unwrap()
}

/// Reads an exact literal at `pos`.
fn e_lit(v: &Vec<char>, pos: usize, lit: &str) -> (r: Option<usize>)
    requires
        pos <= v@.len(),
    ensures
        match r {
            Some(np) => {
                &&& pos <= np <= v@.len()
                &&& np - pos == lit@.len()
                &&& p_lit(v@.skip(pos as int), lit@) == Some(v@.skip(np as int))
            },
            None => p_lit(v@.skip(pos as int), lit@) is None,
        },
{
    let tok = chars_of(lit);
    let n: usize = tok.len();
    let vlen: usize = v.len();
    if match_at(v, &tok, pos) {
        proof {
            assert(pos + n <= vlen);
            assert(v@.skip(pos as int).take(tok@.len() as int) =~= v@.subrange(
                pos as int,
                pos + tok@.len() as int,
            ));
            assert(v@.skip(pos as int).skip(tok@.len() as int) =~= v@.skip(pos + tok@.len()));
        }
        Some(pos + n)
    } else {
        proof {
            let s = v@.skip(pos as int);
            if s.len() >= lit@.len() && s.take(lit@.len() as int) == lit@ {
                assert(v@.subrange(pos as int, pos + lit@.len() as int) =~= s.take(
                    lit@.len() as int,
                ));
            }
        }
        None
    }
}

/// Reads a JSON string at `pos`.
#[verifier::rlimit(100)]
#[verifier::spinoff_prover]
fn e_string(v: &Vec<char>, pos: usize) -> (r: Option<(String, usize)>)
    requires
        pos <= v@.len(),
    ensures
        match r {
            Some(t) => {
                &&& pos < t.1 <= v@.len()
                &&& p_string(v@.skip(pos as int)) == Some((t.0@, v@.skip(t.1 as int)))
            },
            None => p_string(v@.skip(pos as int)) is None,
        },
{
    let n: usize = v.len();
    if pos >= n || v[pos] != '"' {
        return None;
    }
    let mut acc: Vec<char> = Vec::new();
    let mut i: usize = pos + 1;
    proof {
        assert(v@.skip(pos as int)[0] == '"');
        assert(v@.skip(pos as int).skip(1) =~= v@.skip(pos + 1));
        match p_str_body(v@.skip(pos + 1)) {
            Some(vr) => {
                assert(Seq::<char>::empty() + vr.0 =~= vr.0);
            },
            None => {},
        }
    }
    loop
        invariant
            n == v@.len(),
            pos + 1 <= i <= n,
            p_string(v@.skip(pos as int)) == p_str_body(v@.skip(pos + 1)),
            match p_str_body(v@.skip(i as int)) {
                Some(vr) => p_str_body(v@.skip(pos + 1)) == Some((acc@ + vr.0, vr.1)),
                None => p_str_body(v@.skip(pos + 1)) is None,
            },
        decreases n - i,
    {
        let ghost s = v@.skip(i as int);
        if i >= n {
            return None;
        }
        proof {
            assert(s.len() > 0);
            assert(s[0] == v@[i as int]);
        }
        let c = v[i];
        if c == '"' {
            proof {
                assert(p_str_body(s) == Some((Seq::<char>::empty(), s.skip(1))));
                assert(acc@ + Seq::<char>::empty() =~= acc@);
                assert(s.skip(1) =~= v@.skip(i + 1));
            }
            let out = string_from_chars(&acc);
            return Some((out, i + 1));
        } else if c == '\\' {
            proof {
                assert(s.skip(1) =~= v@.skip(i + 1));
            }
            if i + 1 >= n {
                proof {
                    assert(v@.skip(i + 1).len() == 0);
                    assert(p_esc_char(s.skip(1)) is None);
                }
                return None;
            }
            let e = v[i + 1];
            proof {
                assert(s.skip(1)[0] == v@[i + 1]);
            }
            if e == '"' || e == '\\' || e == '/' {
                let ghost pre = acc@;
                acc.push(e);
                proof {
                    assert(p_esc_char(s.skip(1)) == Some((v@[i + 1], 1int)));
                    step_escape(v@, pos as int, i as int, 1, pre, e);
                }
                i += 2;
            } else if e == 'b' {
                let ghost pre = acc@;
                acc.push('\u{8}');
                proof {
                    assert(p_esc_char(s.skip(1)) == Some(('\u{8}', 1int)));
                    step_escape(v@, pos as int, i as int, 1, pre, '\u{8}');
                }
                i += 2;
            } else if e == 'f' {
                let ghost pre = acc@;
                acc.push('\u{c}');
                proof {
                    assert(p_esc_char(s.skip(1)) == Some(('\u{c}', 1int)));
                    step_escape(v@, pos as int, i as int, 1, pre, '\u{c}');
                }
                i += 2;
            } else if e == 'n' {
                let ghost pre = acc@;
                acc.push('\n');
                proof {
                    assert(p_esc_char(s.skip(1)) == Some(('\n', 1int)));
                    step_escape(v@, pos as int, i as int, 1, pre, '\n');
                }
                i += 2;
            } else if e == 'r' {
                let ghost pre = acc@;
                acc.push('\r');
                proof {
                    assert(p_esc_char(s.skip(1)) == Some(('\r', 1int)));
                    step_escape(v@, pos as int, i as int, 1, pre, '\r');
                }
                i += 2;
            } else if e == 't' {
                let ghost pre = acc@;
                acc.push('\t');
                proof {
                    assert(p_esc_char(s.skip(1)) == Some(('\t', 1int)));
                    step_escape(v@, pos as int, i as int, 1, pre, '\t');
                }
                i += 2;
            } else if e == 'u' {
                if n - i < 6 {
                    proof {
                        assert(s.skip(1).len() < 5);
                        assert(p_esc_char(s.skip(1)) is None);
                    }
                    return None;
                }
                proof {
                    assert(s.skip(1)[1] == v@[i + 2]);
                    assert(s.skip(1)[2] == v@[i + 3]);
                    assert(s.skip(1)[3] == v@[i + 4]);
                    assert(s.skip(1)[4] == v@[i + 5]);
                }
                let h1 = hex_char_val(v[i + 2]);
                let h2 = hex_char_val(v[i + 3]);
                let h3 = hex_char_val(v[i + 4]);
                let h4 = hex_char_val(v[i + 5]);
                match (h1, h2, h3, h4) {
                    (Some(a), Some(b), Some(cc), Some(d)) => {
                        let code: u32 = (a as u32) * 4096 + (b as u32) * 256 + (cc as u32) * 16
                            + (d as u32);
                        if code < 0xD800 || code >= 0xE000 {
                            let ch = char_from_u32(code);
                            let ghost pre = acc@;
                            acc.push(ch);
                            proof {
                                assert(p_esc_char(s.skip(1)) == Some((ch, 5int)));
                                step_escape(v@, pos as int, i as int, 5, pre, ch);
                            }
                            i += 6;
                        } else if code < 0xDC00 {
                            if n - i < 12 {
                                proof {
                                    assert(s.skip(1).len() < 11);
                                    assert(p_esc_char(s.skip(1)) is None);
                                }
                                return None;
                            }
                            proof {
                                assert(s.skip(1)[5] == v@[i + 6]);
                                assert(s.skip(1)[6] == v@[i + 7]);
                                assert(s.skip(1)[7] == v@[i + 8]);
                                assert(s.skip(1)[8] == v@[i + 9]);
                                assert(s.skip(1)[9] == v@[i + 10]);
                                assert(s.skip(1)[10] == v@[i + 11]);
                            }
                            if v[i + 6] != '\\' || v[i + 7] != 'u' {
                                proof {
                                    assert(p_esc_char(s.skip(1)) is None);
                                }
                                return None;
                            }
                            let g1 = hex_char_val(v[i + 8]);
                            let g2 = hex_char_val(v[i + 9]);
                            let g3 = hex_char_val(v[i + 10]);
                            let g4 = hex_char_val(v[i + 11]);
                            match (g1, g2, g3, g4) {
                                (Some(e1), Some(e2), Some(e3), Some(e4)) => {
                                    let low: u32 = (e1 as u32) * 4096 + (e2 as u32) * 256 + (
                                    e3 as u32) * 16 + (e4 as u32);
                                    if 0xDC00 <= low && low < 0xE000 {
                                        let full: u32 = 0x10000 + (code - 0xD800) * 0x400 + (low
                                            - 0xDC00);
                                        let ch = char_from_u32(full);
                                        let ghost pre = acc@;
                                        acc.push(ch);
                                        proof {
                                            assert(p_esc_char(s.skip(1)) == Some((ch, 11int)));
                                            step_escape(v@, pos as int, i as int, 11, pre, ch);
                                        }
                                        i += 12;
                                    } else {
                                        proof {
                                            assert(p_esc_char(s.skip(1)) is None);
                                        }
                                        return None;
                                    }
                                },
                                _ => {
                                    proof {
                                        assert(p_esc_char(s.skip(1)) is None);
                                    }
                                    return None;
                                },
                            }
                        } else {
                            proof {
                                assert(p_esc_char(s.skip(1)) is None);
                            }
                            return None;
                        }
                    },
                    _ => {
                        proof {
                            assert(p_esc_char(s.skip(1)) is None);
                        }
                        return None;
                    },
                }
            } else {
                proof {
                    assert(p_esc_char(s.skip(1)) is None);
                }
                return None;
            }
        } else {
            acc.push(c);
            proof {
                assert(s.skip(1) =~= v@.skip(i + 1));
                let ghost pre = acc@.drop_last();
                assert(pre.push(c) =~= acc@);
                match p_str_body(v@.skip(i + 1)) {
                    Some(vr) => {
                        assert(p_str_body(s) == Some((seq![s[0]] + vr.0, vr.1)));
                        assert(pre + (seq![s[0]] + vr.0) =~= acc@ + vr.0);
                    },
                    None => {
                        assert(p_str_body(s) is None);
                    },
                }
            }
            i += 1;
        }
    }
}

/// The step fact for escapes in the string-body loop: consuming a
/// backslash escape of `k` further characters keeps the loop invariant,
/// with `acc` already extended by the escaped character.
proof fn step_escape(w: Seq<char>, pos: int, i: int, k: int, pre: Seq<char>, c: char)
    requires
        0 <= pos < i,
        pos + 1 <= i,
        i < w.len(),
        w[i] == '\\',
        k >= 1,
        p_esc_char(w.skip(i).skip(1)) == Some((c, k)),
        i + 1 + k <= w.len(),
        match p_str_body(w.skip(i)) {
            Some(vr) => p_str_body(w.skip(pos + 1)) == Some((pre + vr.0, vr.1)),
            None => p_str_body(w.skip(pos + 1)) is None,
        },
    ensures
        match p_str_body(w.skip(i + 1 + k)) {
            Some(vr) => p_str_body(w.skip(pos + 1)) == Some((pre.push(c) + vr.0, vr.1)),
            None => p_str_body(w.skip(pos + 1)) is None,
        },
{
    let s = w.skip(i);
    assert(s[0] == '\\');
    assert(s.len() >= 1 + k);
    assert(s.skip(1).skip(k) =~= w.skip(i + 1 + k));
    assert(s.skip(1 + k) =~= w.skip(i + 1 + k));
    match p_str_body(w.skip(i + 1 + k)) {
        Some(vr) => {
            assert(p_str_body(s) == Some((seq![c] + vr.0, vr.1)));
            assert(pre + (seq![c] + vr.0) =~= pre.push(c) + vr.0);
        },
        None => {
            assert(p_str_body(s) is None);
        },
    }
}

/// The concrete powers of ten that bound the integer parser.
proof fn lemma_pow10_vals()
    ensures
        pow10(17) == 0x16345785D8A0000,
        pow10(18) == 0xDE0B6B3A7640000,
{
    assert(pow10(0) == 1);
    assert(pow10(1) == 10);
    assert(pow10(2) == 100);
    assert(pow10(3) == 1000);
    assert(pow10(4) == 10000);
    assert(pow10(5) == 100000);
    assert(pow10(6) == 1000000);
    assert(pow10(7) == 10000000);
    assert(pow10(8) == 100000000);
    assert(pow10(9) == 1000000000);
    assert(pow10(10) == 10000000000);
    assert(pow10(11) == 100000000000);
    assert(pow10(12) == 1000000000000);
    assert(pow10(13) == 10000000000000);
    assert(pow10(14) == 100000000000000);
    assert(pow10(15) == 1000000000000000);
    assert(pow10(16) == 10000000000000000);
    assert(pow10(17) == 100000000000000000);
    assert(pow10(18) == 1000000000000000000);
    assert(pow10(17) == 0x16345785D8A0000);
    assert(pow10(18) == 0xDE0B6B3A7640000);
}

/// Powers of ten grow with the exponent.
proof fn lemma_pow10_mono(a: nat, b: nat)
    requires
        a <= b,
    ensures
        pow10(a) <= pow10(b),
    decreases b,
{
    if a < b {
        lemma_pow10_mono(a, (b - 1) as nat);
        assert(pow10(b) == 10 * pow10((b - 1) as nat));
        assert(pow10((b - 1) as nat) >= 1) by {
            lemma_pow10_ge_one((b - 1) as nat);
        }
    }
}

proof fn lemma_pow10_ge_one(k: nat)
    ensures
        pow10(k) >= 1,
    decreases k,
{
    if k > 0 {
        lemma_pow10_ge_one((k - 1) as nat);
    }
}

/// The index where the run of numeral characters starting at `from` ends.
fn num_run(v: &Vec<char>, from: usize) -> (j: usize)
    requires
        from <= v@.len(),
    ensures
        from <= j <= v@.len(),
        num_prefix_len(v@.skip(from as int)) == j - from,
{
    let n: usize = v.len();
    let mut j: usize = from;
    while j < n && num_char(v[j])
        invariant
            n == v@.len(),
            from <= j <= n,
            forall|k: int| from <= k < j ==> is_num_char(v@[k]),
        decreases n - j,
    {
        j += 1;
    }
    proof {
        assert forall|k: int| 0 <= k < j - from implies is_num_char(v@.skip(from as int)[k]) by {
            assert(v@.skip(from as int)[k] == v@[from + k]);
        }
        lemma_num_prefix_from(v@.skip(from as int), j - from);
    }
    j
}

/// Reads a numeral at `pos`, kept as its exact text.
fn e_number(v: &Vec<char>, pos: usize) -> (r: Option<(String, usize)>)
    requires
        pos <= v@.len(),
    ensures
        match r {
            Some(t) => {
                &&& pos < t.1 <= v@.len()
                &&& p_number(v@.skip(pos as int)) == Some((t.0@, v@.skip(t.1 as int)))
            },
            None => p_number(v@.skip(pos as int)) is None,
        },
{
    let ghost s = v@.skip(pos as int);
    let j = num_run(v, pos);
    let ghost k = j - pos;
    if j == pos {
        return None;
    }
    let mut sub: Vec<char> = Vec::new();
    let mut m: usize = pos;
    while m < j
        invariant
            pos <= m <= j <= v@.len(),
            sub@ == v@.subrange(pos as int, m as int),
        decreases j - m,
    {
        sub.push(v[m]);
        proof {
            assert(sub@ =~= v@.subrange(pos as int, m + 1 as int));
        }
        m += 1;
    }
    proof {
        assert(sub@ =~= s.take(k));
        assert(s.skip(k) =~= v@.skip(j as int));
    }
    if check_number_chars(&sub) {
        Some((string_from_chars(&sub), j))
    } else {
        None
    }
}

/// Reads an integer at `pos`.
fn e_int(v: &Vec<char>, pos: usize) -> (r: Option<(i64, usize)>)
    requires
        pos <= v@.len(),
    ensures
        match r {
            Some(t) => {
                &&& pos < t.1 <= v@.len()
                &&& p_int(v@.skip(pos as int)) == Some((t.0 as int, v@.skip(t.1 as int)))
            },
            None => p_int(v@.skip(pos as int)) is None,
        },
{
    let n: usize = v.len();
    let neg = pos < n && v[pos] == '-';
    let start: usize = if neg {
        pos + 1
    } else {
        pos
    };
    let ghost s = v@.skip(pos as int);
    let ghost u = if neg {
        s.skip(1)
    } else {
        s
    };
    proof {
        assert(s.len() > 0 ==> s[0] == v@[pos as int]);
        assert(u =~= v@.skip(start as int));
    }
    let j = digits_run(v, start);
    let k: usize = j - start;
    if k == 0 || k > 18 {
        return None;
    }
    let mut acc: i64 = 0;
    let mut m: usize = start;
    proof {
        lemma_pow10_vals();
        assert(u.take(0) =~= Seq::<char>::empty());
        assert(pow10(0) == 1);
    }
    while m < j
        invariant
            start <= m <= j <= v@.len(),
            j - start <= 18,
            u == v@.skip(start as int),
            forall|idx: int| start <= idx < j ==> is_digit(v@[idx]),
            acc == digits_val(u.take((m - start) as int)),
            0 <= acc < pow10((m - start) as nat),
            pow10(17) == 0x16345785D8A0000,
            pow10(18) == 0xDE0B6B3A7640000,
        decreases j - m,
    {
        let c = v[m];
        let d: i64 = (c as u32 - 48) as i64;
        proof {
            assert(is_digit(v@[m as int]));
            assert(0 <= d <= 9);
            assert((m - start) as nat <= 17);
            lemma_pow10_mono((m - start) as nat, 17);
            assert(acc < pow10(17));
        }
        acc = acc * 10 + d;
        proof {
            let x = (m - start) as int;
            assert(u.take(x + 1).drop_last() =~= u.take(x));
            assert(u.take(x + 1).last() == u[x]);
            assert(u[x] == v@[m as int]);
            assert(digits_val(u.take(x + 1)) == digits_val(u.take(x)) * 10 + (v@[m as int] as int
                - 48));
            assert(pow10((x + 1) as nat) == 10 * pow10(x as nat));
        }
        m += 1;
    }
    proof {
        assert((j - start) as int == k as int);
        assert(acc == digits_val(u.take(k as int)));
        assert(u.skip(k as int) =~= v@.skip(j as int));
    }
    if neg {
        Some((-acc, j))
    } else {
        Some((acc, j))
    }
}

/// Reads a boolean literal at `pos`.
fn e_bool(v: &Vec<char>, pos: usize) -> (r: Option<(bool, usize)>)
    requires
        pos <= v@.len(),
    ensures
        match r {
            Some(t) => {
                &&& pos < t.1 <= v@.len()
                &&& p_bool(v@.skip(pos as int)) == Some((t.0, v@.skip(t.1 as int)))
            },
            None => p_bool(v@.skip(pos as int)) is None,
        },
{
    proof {
        reveal_strlit("true");
        reveal_strlit("false");
    }
    match e_lit(v, pos, "true") {
        Some(np) => Some((true, np)),
        None => {
            match e_lit(v, pos, "false") {
                Some(np) => Some((false, np)),
                None => None,
            }
        },
    }
}

/// A key literal followed by a string value.
pub open spec fn p_field_str(s: Seq<char>, key: Seq<char>) -> Option<(Seq<char>, Seq<char>)> {
    match p_lit(s, key) {
        Some(r) => p_string(r),
        None => None,
    }
}

/// A key literal followed by a numeral value.
pub open spec fn p_field_num(s: Seq<char>, key: Seq<char>) -> Option<(Seq<char>, Seq<char>)> {
    match p_lit(s, key) {
        Some(r) => p_number(r),
        None => None,
    }
}

/// A key literal followed by an integer value.
pub open spec fn p_field_int(s: Seq<char>, key: Seq<char>) -> Option<(int, Seq<char>)> {
    match p_lit(s, key) {
        Some(r) => p_int(r),
        None => None,
    }
}

/// A key literal followed by a boolean value.
pub open spec fn p_field_bool(s: Seq<char>, key: Seq<char>) -> Option<(bool, Seq<char>)> {
    match p_lit(s, key) {
        Some(r) => p_bool(r),
        None => None,
    }
}

/// One message object.
pub open spec fn p_msg(s: Seq<char>) -> Option<(RequestMessageV, Seq<char>)> {
    match p_field_str(s, "{\"role\":"@) {
        Some(role_r) => match p_field_str(role_r.1, ",\"content\":"@) {
            Some(content_r) => match p_lit(content_r.1, "}"@) {
                Some(rest) => Some(
                    (RequestMessageV { role: role_r.0, content: content_r.0 }, rest),
                ),
                None => None,
            },
            None => None,
        },
        None => None,
    }
}

/// One or more comma-separated messages, up to and including the closing
/// bracket.
pub open spec fn p_msgs(s: Seq<char>) -> Option<(Seq<RequestMessageV>, Seq<char>)>
    decreases s.len(),
{
    match p_msg(s) {
        Some(vr) => {
            let r = vr.1;
            if r.len() < s.len() {
                if r.len() > 0 && r[0] == ',' {
                    match p_msgs(r.skip(1)) {
                        Some(wr) => Some((seq![vr.0] + wr.0, wr.1)),
                        None => None,
                    }
                } else if r.len() > 0 && r[0] == ']' {
                    Some((seq![vr.0], r.skip(1)))
                } else {
                    None
                }
            } else {
                None
            }
        },
        None => None,
    }
}

/// A message array, brackets included.
pub open spec fn p_msg_array(s: Seq<char>) -> Option<(Seq<RequestMessageV>, Seq<char>)> {
    if s.len() >= 2 && s[0] == '[' && s[1] == ']' {
        Some((Seq::<RequestMessageV>::empty(), s.skip(2)))
    } else if s.len() >= 1 && s[0] == '[' {
        p_msgs(s.skip(1))
    } else {
        None
    }
}

/// One or more comma-separated strings, up to and including the closing
/// bracket.
pub open spec fn p_strs(s: Seq<char>) -> Option<(Seq<Seq<char>>, Seq<char>)>
    decreases s.len(),
{
    match p_string(s) {
        Some(vr) => {
            let r = vr.1;
            if r.len() < s.len() {
                if r.len() > 0 && r[0] == ',' {
                    match p_strs(r.skip(1)) {
                        Some(wr) => Some((seq![vr.0] + wr.0, wr.1)),
                        None => None,
                    }
                } else if r.len() > 0 && r[0] == ']' {
                    Some((seq![vr.0], r.skip(1)))
                } else {
                    None
                }
            } else {
                None
            }
        },
        None => None,
    }
}

/// A string array, brackets included.
pub open spec fn p_str_array(s: Seq<char>) -> Option<(Seq<Seq<char>>, Seq<char>)> {
    if s.len() >= 2 && s[0] == '[' && s[1] == ']' {
        Some((Seq::<Seq<char>>::empty(), s.skip(2)))
    } else if s.len() >= 1 && s[0] == '[' {
        p_strs(s.skip(1))
    } else {
        None
    }
}

/// The whole request document; succeeds only when the input is consumed
/// entirely and the integer fields fit their machine types.
pub open spec fn p_request(s: Seq<char>) -> Option<RequestBodyV> {
    match p_field_str(s, "{\"model\":"@) {
        Some(model_r) => match p_lit(model_r.1, ",\"messages\":"@) {
            Some(msgs_in) => match p_msg_array(msgs_in) {
                Some(msgs_r) => match p_field_num(msgs_r.1, ",\"temperature\":"@) {
                    Some(temp_r) => match p_field_int(temp_r.1, ",\"max_tokens\":"@) {
                        Some(maxt_r) => match p_field_bool(maxt_r.1, ",\"stream\":"@) {
                            Some(stream_r) => match p_field_num(
                                stream_r.1,
                                ",\"presence_penalty\":"@,
                            ) {
                                Some(pp_r) => match p_field_num(
                                    pp_r.1,
                                    ",\"frequency_penalty\":"@,
                                ) {
                                    Some(fp_r) => match p_field_num(fp_r.1, ",\"top_p\":"@) {
                                        Some(topp_r) => match p_field_int(
                                            topp_r.1,
                                            ",\"top_k\":"@,
                                        ) {
                                            Some(topk_r) => match p_lit(
                                                topk_r.1,
                                                ",\"transforms\":"@,
                                            ) {
                                                Some(tr_in) => match p_str_array(tr_in) {
                                                    Some(tr_r) => match p_field_num(
                                                        tr_r.1,
                                                        ",\"min_p\":"@,
                                                    ) {
                                                        Some(minp_r) => match p_field_num(
                                                            minp_r.1,
                                                            ",\"top_a\":"@,
                                                        ) {
                                                            Some(topa_r) => match p_lit(
                                                                topa_r.1,
                                                                "}"@,
                                                            ) {
                                                                Some(rest) => {
                                                                    if rest.len() == 0
                                                                        && i32::MIN <= maxt_r.0
                                                                        <= i32::MAX && i32::MIN
                                                                        <= topk_r.0 <= i32::MAX {
                                                                        Some(
                                                                            RequestBodyV {
                                                                                messages: msgs_r.0,
                                                                                settings: SettingsV {
                                                                                    model: model_r.0,
                                                                                    temperature: temp_r.0,
                                                                                    max_tokens: maxt_r.0,
                                                                                    stream: stream_r.0,
                                                                                    presence_penalty: pp_r.0,
                                                                                    frequency_penalty: fp_r.0,
                                                                                    top_p: topp_r.0,
                                                                                    top_k: topk_r.0,
                                                                                    transforms: tr_r.0,
                                                                                    min_p: minp_r.0,
                                                                                    top_a: topa_r.0,
                                                                                },
                                                                            },
                                                                        )
                                                                    } else {
                                                                        None
                                                                    }
                                                                },
                                                                None => None,
                                                            },
                                                            None => None,
                                                        },
                                                        None => None,
                                                    },
                                                    None => None,
                                                },
                                                None => None,
                                            },
                                            None => None,
                                        },
                                        None => None,
                                    },
                                    None => None,
                                },
                                None => None,
                            },
                            None => None,
                        },
                        None => None,
                    },
                    None => None,
                },
                None => None,
            },
            None => None,
        },
        None => None,
    }
}


/// The whitespace JSON allows between tokens.
pub open spec fn is_jws(c: char) -> bool {
    c == ' ' || c == '\t' || c == '\n' || c == '\r'
}

/// Length of the longest JSON-whitespace prefix.
pub open spec fn jws_len(s: Seq<char>) -> int
    decreases s.len(),
{
    if s.len() > 0 && is_jws(s[0]) {
        1 + jws_len(s.skip(1))
    } else {
        0
    }
}

pub proof fn lemma_jws_bounds(s: Seq<char>)
    ensures
        0 <= jws_len(s) <= s.len(),
    decreases s.len(),
{
    if s.len() > 0 && is_jws(s[0]) {
        lemma_jws_bounds(s.skip(1));
    }
}

pub proof fn lemma_jws_from(s: Seq<char>, i: int)
    requires
        0 <= i <= s.len(),
        forall|j: int| 0 <= j < i ==> is_jws(s[j]),
        i == s.len() || !is_jws(s[i]),
    ensures
        jws_len(s) == i,
    decreases i,
{
    if i > 0 {
        assert(is_jws(s[0]));
        lemma_jws_from(s.skip(1), i - 1);
    }
}

/// A character that can stand anywhere in a JSON number.
pub open spec fn is_jnum(c: char) -> bool {
    is_digit(c) || c == '-' || c == '+' || c == '.' || c == 'e' || c == 'E'
}

/// Length of the longest prefix of number characters.
pub open spec fn jnum_len(s: Seq<char>) -> int
    decreases s.len(),
{
    if s.len() > 0 && is_jnum(s[0]) {
        1 + jnum_len(s.skip(1))
    } else {
        0
    }
}

pub proof fn lemma_jnum_bounds(s: Seq<char>)
    ensures
        0 <= jnum_len(s) <= s.len(),
    decreases s.len(),
{
    if s.len() > 0 && is_jnum(s[0]) {
        lemma_jnum_bounds(s.skip(1));
    }
}

pub proof fn lemma_jnum_from(s: Seq<char>, i: int)
    requires
        0 <= i <= s.len(),
        forall|j: int| 0 <= j < i ==> is_jnum(s[j]),
        i == s.len() || !is_jnum(s[i]),
    ensures
        jnum_len(s) == i,
    decreases i,
{
    if i > 0 {
        assert(is_jnum(s[0]));
        lemma_jnum_from(s.skip(1), i - 1);
    }
}

/// Skips one JSON value of any kind — string, object, array, literal or
/// number — and yields what follows it. Numbers are taken as a bare run
/// of number characters: skipped members are not valued, only crossed.
pub open spec fn p_skip_value(s: Seq<char>) -> Option<Seq<char>>
    decreases s.len(), 0int,
{
    if s.len() == 0 {
        None
    } else if s[0] == '"' {
        match p_string(s) {
            Some(vr) => Some(vr.1),
            None => None,
        }
    } else if s[0] == '{' {
        p_skip_obj(s.skip(1))
    } else if s[0] == '[' {
        p_skip_arr(s.skip(1))
    } else if s.len() >= 4 && s.take(4) == "true"@ {
        Some(s.skip(4))
    } else if s.len() >= 5 && s.take(5) == "false"@ {
        Some(s.skip(5))
    } else if s.len() >= 4 && s.take(4) == "null"@ {
        Some(s.skip(4))
    } else if is_jnum(s[0]) {
        let k = jnum_len(s);
        proof {
            lemma_jnum_bounds(s);
        }
        Some(s.skip(k))
    } else {
        None
    }
}

/// After an opening bracket: the rest of an array being skipped.
pub open spec fn p_skip_arr(s: Seq<char>) -> Option<Seq<char>>
    decreases s.len(), 2int,
{
    let a = jws_len(s);
    proof {
        lemma_jws_bounds(s);
    }
    if a < s.len() {
        if s[a] == ']' {
            Some(s.skip(a + 1))
        } else {
            p_skip_items(s.skip(a))
        }
    } else {
        None
    }
}

/// One or more array elements being skipped, commas between, up to and
/// including the closing bracket.
pub open spec fn p_skip_items(s: Seq<char>) -> Option<Seq<char>>
    decreases s.len(), 1int,
{
    match p_skip_value(s) {
        Some(r) => {
            if r.len() < s.len() {
                let a = jws_len(r);
                proof {
                    lemma_jws_bounds(r);
                }
                if a < r.len() {
                    if r[a] == ',' {
                        let nx = r.skip(a + 1);
                        let b = jws_len(nx);
                        proof {
                            lemma_jws_bounds(nx);
                        }
                        p_skip_items(nx.skip(b))
                    } else if r[a] == ']' {
                        Some(r.skip(a + 1))
                    } else {
                        None
                    }
                } else {
                    None
                }
            } else {
                None
            }
        },
        None => None,
    }
}

/// After an opening brace: the rest of an object being skipped.
pub open spec fn p_skip_obj(s: Seq<char>) -> Option<Seq<char>>
    decreases s.len(), 2int,
{
    let a = jws_len(s);
    proof {
        lemma_jws_bounds(s);
    }
    if a < s.len() {
        if s[a] == '}' {
            Some(s.skip(a + 1))
        } else {
            p_skip_members(s.skip(a))
        }
    } else {
        None
    }
}

/// One or more object members being skipped, up to and including the
/// closing brace.
pub open spec fn p_skip_members(s: Seq<char>) -> Option<Seq<char>>
    decreases s.len(), 1int,
{
    match p_string(s) {
        Some(kr) => {
            let r1 = kr.1;
            if r1.len() < s.len() {
                let a = jws_len(r1);
                proof {
                    lemma_jws_bounds(r1);
                }
                if a < r1.len() && r1[a] == ':' {
                    let v_in = r1.skip(a + 1);
                    let b = jws_len(v_in);
                    proof {
                        lemma_jws_bounds(v_in);
                    }
                    match p_skip_value(v_in.skip(b)) {
                        Some(r2) => {
                            if r2.len() < s.len() {
                                let c = jws_len(r2);
                                proof {
                                    lemma_jws_bounds(r2);
                                }
                                if c < r2.len() {
                                    if r2[c] == ',' {
                                        let nx = r2.skip(c + 1);
                                        let d = jws_len(nx);
                                        proof {
                                            lemma_jws_bounds(nx);
                                        }
                                        p_skip_members(nx.skip(d))
                                    } else if r2[c] == '}' {
                                        Some(r2.skip(c + 1))
                                    } else {
                                        None
                                    }
                                } else {
                                    None
                                }
                            } else {
                                None
                            }
                        },
                        None => None,
                    }
                } else {
                    None
                }
            } else {
                None
            }
        },
        None => None,
    }
}

/// The `content` and `role` members of a choice's message, as far as they
/// have been met.
#[verifier::ext_equal]
pub struct ContentFields {
    pub content: Option<Seq<char>>,
    pub role: Option<Seq<char>>,
}

/// The members of a message object, in any order; `content` and `role`
/// are read, anything else is skipped. `s` starts at a key.
pub open spec fn p_content_members(s: Seq<char>, acc: ContentFields) -> Option<
    (ContentFields, Seq<char>),
>
    decreases s.len(),
{
    match p_string(s) {
        Some(kr) => {
            let key = kr.0;
            let r1 = kr.1;
            if r1.len() < s.len() {
                let a = jws_len(r1);
                proof {
                    lemma_jws_bounds(r1);
                }
                if a < r1.len() && r1[a] == ':' {
                    let v_in = r1.skip(a + 1);
                    let b = jws_len(v_in);
                    proof {
                        lemma_jws_bounds(v_in);
                    }
                    let t = v_in.skip(b);
                    let step: Option<(ContentFields, Seq<char>)> = if key == "content"@ {
                        match p_string(t) {
                            Some(vr) => Some(
                                (ContentFields { content: Some(vr.0), ..acc }, vr.1),
                            ),
                            None => None,
                        }
                    } else if key == "role"@ {
                        match p_string(t) {
                            Some(vr) => Some((ContentFields { role: Some(vr.0), ..acc }, vr.1)),
                            None => None,
                        }
                    } else {
                        match p_skip_value(t) {
                            Some(r2) => Some((acc, r2)),
                            None => None,
                        }
                    };
                    match step {
                        Some(fr) => {
                            let acc2 = fr.0;
                            let r2 = fr.1;
                            if r2.len() < s.len() {
                                let c = jws_len(r2);
                                proof {
                                    lemma_jws_bounds(r2);
                                }
                                if c < r2.len() {
                                    if r2[c] == ',' {
                                        let nx = r2.skip(c + 1);
                                        let d = jws_len(nx);
                                        proof {
                                            lemma_jws_bounds(nx);
                                        }
                                        p_content_members(nx.skip(d), acc2)
                                    } else if r2[c] == '}' {
                                        Some((acc2, r2.skip(c + 1)))
                                    } else {
                                        None
                                    }
                                } else {
                                    None
                                }
                            } else {
                                None
                            }
                        },
                        None => None,
                    }
                } else {
                    None
                }
            } else {
                None
            }
        },
        None => None,
    }
}

/// A whole message object: both documented members must be present.
pub open spec fn p_content_obj(s: Seq<char>) -> Option<(ResponseContentV, Seq<char>)> {
    if s.len() > 0 && s[0] == '{' {
        let r = s.skip(1);
        let a = jws_len(r);
        if a < r.len() && r[a] != '}' {
            match p_content_members(r.skip(a), ContentFields { content: None, role: None }) {
                Some(fr) => match (fr.0.content, fr.0.role) {
                    (Some(content), Some(role)) => Some(
                        (ResponseContentV { content, role }, fr.1),
                    ),
                    _ => None,
                },
                None => None,
            }
        } else {
            None
        }
    } else {
        None
    }
}

/// The members of a choice object, in any order; `message` is read,
/// anything else is skipped. `s` starts at a key.
pub open spec fn p_choice_members(s: Seq<char>, acc: Option<ResponseContentV>) -> Option<
    (Option<ResponseContentV>, Seq<char>),
>
    decreases s.len(),
{
    match p_string(s) {
        Some(kr) => {
            let key = kr.0;
            let r1 = kr.1;
            if r1.len() < s.len() {
                let a = jws_len(r1);
                proof {
                    lemma_jws_bounds(r1);
                }
                if a < r1.len() && r1[a] == ':' {
                    let v_in = r1.skip(a + 1);
                    let b = jws_len(v_in);
                    proof {
                        lemma_jws_bounds(v_in);
                    }
                    let t = v_in.skip(b);
                    let step: Option<(Option<ResponseContentV>, Seq<char>)> = if key
                        == "message"@ {
                        match p_content_obj(t) {
                            Some(cr) => Some((Some(cr.0), cr.1)),
                            None => None,
                        }
                    } else {
                        match p_skip_value(t) {
                            Some(r2) => Some((acc, r2)),
                            None => None,
                        }
                    };
                    match step {
                        Some(fr) => {
                            let acc2 = fr.0;
                            let r2 = fr.1;
                            if r2.len() < s.len() {
                                let c = jws_len(r2);
                                proof {
                                    lemma_jws_bounds(r2);
                                }
                                if c < r2.len() {
                                    if r2[c] == ',' {
                                        let nx = r2.skip(c + 1);
                                        let d = jws_len(nx);
                                        proof {
                                            lemma_jws_bounds(nx);
                                        }
                                        p_choice_members(nx.skip(d), acc2)
                                    } else if r2[c] == '}' {
                                        Some((acc2, r2.skip(c + 1)))
                                    } else {
                                        None
                                    }
                                } else {
                                    None
                                }
                            } else {
                                None
                            }
                        },
                        None => None,
                    }
                } else {
                    None
                }
            } else {
                None
            }
        },
        None => None,
    }
}

/// A whole choice object: the `message` member must be present.
pub open spec fn p_choice_obj(s: Seq<char>) -> Option<(ResponseMessageV, Seq<char>)> {
    if s.len() > 0 && s[0] == '{' {
        let r = s.skip(1);
        let a = jws_len(r);
        if a < r.len() && r[a] != '}' {
            match p_choice_members(r.skip(a), None) {
                Some(fr) => match fr.0 {
                    Some(content) => Some((ResponseMessageV { message: content }, fr.1)),
                    None => None,
                },
                None => None,
            }
        } else {
            None
        }
    } else {
        None
    }
}

/// One or more choice objects, commas between, up to and including the
/// closing bracket.
pub open spec fn p_choices_items(s: Seq<char>) -> Option<(Seq<ResponseMessageV>, Seq<char>)>
    decreases s.len(),
{
    match p_choice_obj(s) {
        Some(vr) => {
            let r = vr.1;
            if r.len() < s.len() {
                let a = jws_len(r);
                proof {
                    lemma_jws_bounds(r);
                }
                if a < r.len() {
                    if r[a] == ',' {
                        let nx = r.skip(a + 1);
                        let b = jws_len(nx);
                        proof {
                            lemma_jws_bounds(nx);
                        }
                        match p_choices_items(nx.skip(b)) {
                            Some(wr) => Some((seq![vr.0] + wr.0, wr.1)),
                            None => None,
                        }
                    } else if r[a] == ']' {
                        Some((seq![vr.0], r.skip(a + 1)))
                    } else {
                        None
                    }
                } else {
                    None
                }
            } else {
                None
            }
        },
        None => None,
    }
}

/// A choices array, brackets included; `s` starts at the bracket.
pub open spec fn p_choices_arr(s: Seq<char>) -> Option<(Seq<ResponseMessageV>, Seq<char>)> {
    if s.len() > 0 && s[0] == '[' {
        let r = s.skip(1);
        let a = jws_len(r);
        if a < r.len() {
            if r[a] == ']' {
                Some((Seq::<ResponseMessageV>::empty(), r.skip(a + 1)))
            } else {
                p_choices_items(r.skip(a))
            }
        } else {
            None
        }
    } else {
        None
    }
}

/// The documented response members, as far as they have been met.
#[verifier::ext_equal]
pub struct RespFields {
    pub id: Option<Seq<char>>,
    pub model: Option<Seq<char>>,
    pub created: Option<int>,
    pub object: Option<Seq<char>>,
    pub choices: Option<Seq<ResponseMessageV>>,
}

/// The members of the response object, in any order; the five documented
/// members are read, anything else is skipped. `s` starts at a key.
pub open spec fn p_resp_members(s: Seq<char>, acc: RespFields) -> Option<(RespFields, Seq<char>)>
    decreases s.len(),
{
    match p_string(s) {
        Some(kr) => {
            let key = kr.0;
            let r1 = kr.1;
            if r1.len() < s.len() {
                let a = jws_len(r1);
                proof {
                    lemma_jws_bounds(r1);
                }
                if a < r1.len() && r1[a] == ':' {
                    let v_in = r1.skip(a + 1);
                    let b = jws_len(v_in);
                    proof {
                        lemma_jws_bounds(v_in);
                    }
                    let t = v_in.skip(b);
                    let step: Option<(RespFields, Seq<char>)> = if key == "id"@ {
                        match p_string(t) {
                            Some(vr) => Some((RespFields { id: Some(vr.0), ..acc }, vr.1)),
                            None => None,
                        }
                    } else if key == "model"@ {
                        match p_string(t) {
                            Some(vr) => Some((RespFields { model: Some(vr.0), ..acc }, vr.1)),
                            None => None,
                        }
                    } else if key == "created"@ {
                        match p_int(t) {
                            Some(vr) => Some((RespFields { created: Some(vr.0), ..acc }, vr.1)),
                            None => None,
                        }
                    } else if key == "object"@ {
                        match p_string(t) {
                            Some(vr) => Some((RespFields { object: Some(vr.0), ..acc }, vr.1)),
                            None => None,
                        }
                    } else if key == "choices"@ {
                        match p_choices_arr(t) {
                            Some(vr) => Some((RespFields { choices: Some(vr.0), ..acc }, vr.1)),
                            None => None,
                        }
                    } else {
                        match p_skip_value(t) {
                            Some(r2) => Some((acc, r2)),
                            None => None,
                        }
                    };
                    match step {
                        Some(fr) => {
                            let acc2 = fr.0;
                            let r2 = fr.1;
                            if r2.len() < s.len() {
                                let c = jws_len(r2);
                                proof {
                                    lemma_jws_bounds(r2);
                                }
                                if c < r2.len() {
                                    if r2[c] == ',' {
                                        let nx = r2.skip(c + 1);
                                        let d = jws_len(nx);
                                        proof {
                                            lemma_jws_bounds(nx);
                                        }
                                        p_resp_members(nx.skip(d), acc2)
                                    } else if r2[c] == '}' {
                                        Some((acc2, r2.skip(c + 1)))
                                    } else {
                                        None
                                    }
                                } else {
                                    None
                                }
                            } else {
                                None
                            }
                        },
                        None => None,
                    }
                } else {
                    None
                }
            } else {
                None
            }
        },
        None => None,
    }
}

/// The whole response document, read by shape: members in any order,
/// unknown members skipped, JSON whitespace allowed; it succeeds exactly
/// when the text is one such object with all five documented members,
/// and nothing but whitespace around it.
pub open spec fn p_response(s: Seq<char>) -> Option<ResponseBodyV> {
    let a = jws_len(s);
    if a < s.len() && s[a] == '{' {
        let r = s.skip(a + 1);
        let b = jws_len(r);
        if b < r.len() && r[b] != '}' {
            match p_resp_members(
                r.skip(b),
                RespFields { id: None, model: None, created: None, object: None, choices: None },
            ) {
                Some(fr) => {
                    let rest = fr.1;
                    if jws_len(rest) == rest.len() {
                        match (fr.0.id, fr.0.model, fr.0.created, fr.0.object, fr.0.choices) {
                            (
                                Some(id),
                                Some(model),
                                Some(created),
                                Some(object),
                                Some(choices),
                            ) => Some(ResponseBodyV { choices, id, model, created, object }),
                            _ => None,
                        }
                    } else {
                        None
                    }
                },
                None => None,
            }
        } else {
            None
        }
    } else {
        None
    }
}

fn e_field_str(v: &Vec<char>, pos: usize, key: &str) -> (r: Option<(String, usize)>)
    requires
        pos <= v@.len(),
    ensures
        match r {
            Some(t) => {
                &&& pos < t.1 <= v@.len()
                &&& p_field_str(v@.skip(pos as int), key@) == Some((t.0@, v@.skip(t.1 as int)))
            },
            None => p_field_str(v@.skip(pos as int), key@) is None,
        },
{
    match e_lit(v, pos, key) {
        Some(np) => e_string(v, np),
        None => None,
    }
}

fn e_field_num(v: &Vec<char>, pos: usize, key: &str) -> (r: Option<(String, usize)>)
    requires
        pos <= v@.len(),
    ensures
        match r {
            Some(t) => {
                &&& pos < t.1 <= v@.len()
                &&& p_field_num(v@.skip(pos as int), key@) == Some((t.0@, v@.skip(t.1 as int)))
            },
            None => p_field_num(v@.skip(pos as int), key@) is None,
        },
{
    match e_lit(v, pos, key) {
        Some(np) => e_number(v, np),
        None => None,
    }
}

fn e_field_int(v: &Vec<char>, pos: usize, key: &str) -> (r: Option<(i64, usize)>)
    requires
        pos <= v@.len(),
    ensures
        match r {
            Some(t) => {
                &&& pos < t.1 <= v@.len()
                &&& p_field_int(v@.skip(pos as int), key@) == Some((t.0 as int, v@.skip(
                    t.1 as int,
                )))
            },
            None => p_field_int(v@.skip(pos as int), key@) is None,
        },
{
    match e_lit(v, pos, key) {
        Some(np) => e_int(v, np),
        None => None,
    }
}

fn e_field_bool(v: &Vec<char>, pos: usize, key: &str) -> (r: Option<(bool, usize)>)
    requires
        pos <= v@.len(),
    ensures
        match r {
            Some(t) => {
                &&& pos < t.1 <= v@.len()
                &&& p_field_bool(v@.skip(pos as int), key@) == Some((t.0, v@.skip(t.1 as int)))
            },
            None => p_field_bool(v@.skip(pos as int), key@) is None,
        },
{
    match e_lit(v, pos, key) {
        Some(np) => e_bool(v, np),
        None => None,
    }
}

fn e_msg(v: &Vec<char>, pos: usize) -> (r: Option<(RequestMessage, usize)>)
    requires
        pos <= v@.len(),
    ensures
        match r {
            Some(t) => {
                &&& pos < t.1 <= v@.len()
                &&& p_msg(v@.skip(pos as int)) == Some((t.0@, v@.skip(t.1 as int)))
            },
            None => p_msg(v@.skip(pos as int)) is None,
        },
{
    match e_field_str(v, pos, "{\"role\":") {
        Some(role_t) => {
            match e_field_str(v, role_t.1, ",\"content\":") {
                Some(content_t) => {
                    match e_lit(v, content_t.1, "}") {
                        Some(np) => {
                            let m = RequestMessage { role: role_t.0, content: content_t.0 };
                            Some((m, np))
                        },
                        None => None,
                    }
                },
                None => None,
            }
        },
        None => None,
    }
}

fn e_msgs(v: &Vec<char>, pos: usize) -> (r: Option<(Vec<RequestMessage>, usize)>)
    requires
        pos <= v@.len(),
    ensures
        match r {
            Some(t) => {
                &&& pos < t.1 <= v@.len()
                &&& p_msgs(v@.skip(pos as int)) == Some((t.0@.map_values(
                    |m: RequestMessage| m@,
                ), v@.skip(t.1 as int)))
            },
            None => p_msgs(v@.skip(pos as int)) is None,
        },
{
    let n: usize = v.len();
    let mut acc: Vec<RequestMessage> = Vec::new();
    let mut cur: usize = pos;
    proof {
        assert(acc@.map_values(|m: RequestMessage| m@) =~= Seq::<RequestMessageV>::empty());
        match p_msgs(v@.skip(pos as int)) {
            Some(wr) => {
                assert(Seq::<RequestMessageV>::empty() + wr.0 =~= wr.0);
            },
            None => {},
        }
    }
    loop
        invariant
            n == v@.len(),
            pos <= cur <= n,
            match p_msgs(v@.skip(cur as int)) {
                Some(wr) => p_msgs(v@.skip(pos as int)) == Some((acc@.map_values(
                    |m: RequestMessage| m@,
                ) + wr.0, wr.1)),
                None => p_msgs(v@.skip(pos as int)) is None,
            },
        decreases n - cur,
    {
        let ghost fm = |m: RequestMessage| m@;
        match e_msg(v, cur) {
            None => {
                return None;
            },
            Some((msg, np)) => {
                proof {
                    assert(v@.skip(np as int).len() < v@.skip(cur as int).len());
                }
                if np >= n {
                    return None;
                }
                let c = v[np];
                proof {
                    assert(v@.skip(np as int)[0] == v@[np as int]);
                    assert(v@.skip(np as int).skip(1) =~= v@.skip(np + 1));
                }
                if c == ',' {
                    let ghost pre = acc@;
                    acc.push(msg);
                    proof {
                        assert(acc@.map_values(fm) =~= pre.map_values(fm).push(msg@));
                        match p_msgs(v@.skip(np + 1)) {
                            Some(wr) => {
                                assert(p_msgs(v@.skip(cur as int)) == Some(
                                    (seq![msg@] + wr.0, wr.1),
                                ));
                                assert(pre.map_values(fm) + (seq![msg@] + wr.0) =~= acc@.map_values(
                                    fm,
                                ) + wr.0);
                            },
                            None => {
                                assert(p_msgs(v@.skip(cur as int)) is None);
                            },
                        }
                    }
                    cur = np + 1;
                } else if c == ']' {
                    let ghost pre = acc@;
                    acc.push(msg);
                    proof {
                        assert(p_msgs(v@.skip(cur as int)) == Some((seq![msg@], v@.skip(np + 1))));
                        assert(acc@.map_values(fm) =~= pre.map_values(fm).push(msg@));
                        assert(pre.map_values(fm) + seq![msg@] =~= acc@.map_values(fm));
                    }
                    return Some((acc, np + 1));
                } else {
                    proof {
                        assert(p_msgs(v@.skip(cur as int)) is None);
                    }
                    return None;
                }
            },
        }
    }
}

fn e_msg_array(v: &Vec<char>, pos: usize) -> (r: Option<(Vec<RequestMessage>, usize)>)
    requires
        pos <= v@.len(),
    ensures
        match r {
            Some(t) => {
                &&& pos < t.1 <= v@.len()
                &&& p_msg_array(v@.skip(pos as int)) == Some((t.0@.map_values(
                    |m: RequestMessage| m@,
                ), v@.skip(t.1 as int)))
            },
            None => p_msg_array(v@.skip(pos as int)) is None,
        },
{
    let n: usize = v.len();
    let ghost s = v@.skip(pos as int);
    if pos >= n || v[pos] != '[' {
        return None;
    }
    proof {
        assert(s[0] == v@[pos as int]);
        assert(s.skip(1) =~= v@.skip(pos + 1));
    }
    if pos + 1 < n && v[pos + 1] == ']' {
        proof {
            assert(s[1] == v@[pos + 1]);
            assert(s.skip(2) =~= v@.skip(pos + 2));
        }
        let out: Vec<RequestMessage> = Vec::new();
        proof {
            assert(out@.map_values(|m: RequestMessage| m@) =~= Seq::<RequestMessageV>::empty());
        }
        return Some((out, pos + 2));
    }
    proof {
        if s.len() >= 2 {
            assert(s[1] == v@[pos + 1]);
        }
    }
    e_msgs(v, pos + 1)
}

fn e_strs(v: &Vec<char>, pos: usize) -> (r: Option<(Vec<String>, usize)>)
    requires
        pos <= v@.len(),
    ensures
        match r {
            Some(t) => {
                &&& pos < t.1 <= v@.len()
                &&& p_strs(v@.skip(pos as int)) == Some((t.0@.map_values(|x: String| x@), v@.skip(
                    t.1 as int,
                )))
            },
            None => p_strs(v@.skip(pos as int)) is None,
        },
{
    let n: usize = v.len();
    let mut acc: Vec<String> = Vec::new();
    let mut cur: usize = pos;
    proof {
        assert(acc@.map_values(|x: String| x@) =~= Seq::<Seq<char>>::empty());
        match p_strs(v@.skip(pos as int)) {
            Some(wr) => {
                assert(Seq::<Seq<char>>::empty() + wr.0 =~= wr.0);
            },
            None => {},
        }
    }
    loop
        invariant
            n == v@.len(),
            pos <= cur <= n,
            match p_strs(v@.skip(cur as int)) {
                Some(wr) => p_strs(v@.skip(pos as int)) == Some((acc@.map_values(
                    |x: String| x@,
                ) + wr.0, wr.1)),
                None => p_strs(v@.skip(pos as int)) is None,
            },
        decreases n - cur,
    {
        let ghost fs = |x: String| x@;
        match e_string(v, cur) {
            None => {
                return None;
            },
            Some((x, np)) => {
                proof {
                    assert(v@.skip(np as int).len() < v@.skip(cur as int).len());
                }
                if np >= n {
                    return None;
                }
                let c = v[np];
                proof {
                    assert(v@.skip(np as int)[0] == v@[np as int]);
                    assert(v@.skip(np as int).skip(1) =~= v@.skip(np + 1));
                }
                if c == ',' {
                    let ghost pre = acc@;
                    acc.push(x);
                    proof {
                        assert(acc@.map_values(fs) =~= pre.map_values(fs).push(acc@.last()@));
                        match p_strs(v@.skip(np + 1)) {
                            Some(wr) => {
                                assert(p_strs(v@.skip(cur as int)) == Some(
                                    (seq![acc@.last()@] + wr.0, wr.1),
                                ));
                                assert(pre.map_values(fs) + (seq![acc@.last()@] + wr.0)
                                    =~= acc@.map_values(fs) + wr.0);
                            },
                            None => {
                                assert(p_strs(v@.skip(cur as int)) is None);
                            },
                        }
                    }
                    cur = np + 1;
                } else if c == ']' {
                    let ghost pre = acc@;
                    acc.push(x);
                    proof {
                        assert(p_strs(v@.skip(cur as int)) == Some(
                            (seq![acc@.last()@], v@.skip(np + 1)),
                        ));
                        assert(acc@.map_values(fs) =~= pre.map_values(fs).push(acc@.last()@));
                        assert(pre.map_values(fs) + seq![acc@.last()@] =~= acc@.map_values(fs));
                    }
                    return Some((acc, np + 1));
                } else {
                    proof {
                        assert(p_strs(v@.skip(cur as int)) is None);
                    }
                    return None;
                }
            },
        }
    }
}

fn e_str_array(v: &Vec<char>, pos: usize) -> (r: Option<(Vec<String>, usize)>)
    requires
        pos <= v@.len(),
    ensures
        match r {
            Some(t) => {
                &&& pos < t.1 <= v@.len()
                &&& p_str_array(v@.skip(pos as int)) == Some((t.0@.map_values(
                    |x: String| x@,
                ), v@.skip(t.1 as int)))
            },
            None => p_str_array(v@.skip(pos as int)) is None,
        },
{
    let n: usize = v.len();
    let ghost s = v@.skip(pos as int);
    if pos >= n || v[pos] != '[' {
        return None;
    }
    proof {
        assert(s[0] == v@[pos as int]);
        assert(s.skip(1) =~= v@.skip(pos + 1));
    }
    if pos + 1 < n && v[pos + 1] == ']' {
        proof {
            assert(s[1] == v@[pos + 1]);
            assert(s.skip(2) =~= v@.skip(pos + 2));
        }
        let out: Vec<String> = Vec::new();
        proof {
            assert(out@.map_values(|x: String| x@) =~= Seq::<Seq<char>>::empty());
        }
        return Some((out, pos + 2));
    }
    proof {
        if s.len() >= 2 {
            assert(s[1] == v@[pos + 1]);
        }
    }
    e_strs(v, pos + 1)
}


fn jws_char(c: char) -> (b: bool)
    ensures
        b == is_jws(c),
{
    c == ' ' || c == '\t' || c == '\n' || c == '\r'
}

/// The absolute position where the JSON whitespace starting at `pos` ends.
fn e_jws(v: &Vec<char>, pos: usize) -> (np: usize)
    requires
        pos <= v@.len(),
    ensures
        pos <= np <= v@.len(),
        jws_len(v@.skip(pos as int)) == np - pos,
        np == v@.len() || !is_jws(v@[np as int]),
{
    let n: usize = v.len();
    let mut j: usize = pos;
    while j < n && jws_char(v[j])
        invariant
            n == v@.len(),
            pos <= j <= n,
            forall|k: int| pos <= k < j ==> is_jws(v@[k]),
        decreases n - j,
    {
        j += 1;
    }
    proof {
        assert forall|k: int| 0 <= k < j - pos implies is_jws(v@.skip(pos as int)[k]) by {
            assert(v@.skip(pos as int)[k] == v@[pos + k]);
        }
        lemma_jws_from(v@.skip(pos as int), j - pos);
    }
    j
}

fn jnum_char(c: char) -> (b: bool)
    ensures
        b == is_jnum(c),
{
    let u = c as u32;
    (48 <= u && u <= 57) || c == '-' || c == '+' || c == '.' || c == 'e' || c == 'E'
}

/// The absolute position where the number-character run at `pos` ends.
fn e_jnum_run(v: &Vec<char>, pos: usize) -> (np: usize)
    requires
        pos <= v@.len(),
    ensures
        pos <= np <= v@.len(),
        jnum_len(v@.skip(pos as int)) == np - pos,
{
    let n: usize = v.len();
    let mut j: usize = pos;
    while j < n && jnum_char(v[j])
        invariant
            n == v@.len(),
            pos <= j <= n,
            forall|k: int| pos <= k < j ==> is_jnum(v@[k]),
        decreases n - j,
    {
        j += 1;
    }
    proof {
        assert forall|k: int| 0 <= k < j - pos implies is_jnum(v@.skip(pos as int)[k]) by {
            assert(v@.skip(pos as int)[k] == v@[pos + k]);
        }
        lemma_jnum_from(v@.skip(pos as int), j - pos);
    }
    j
}

/// Skips one JSON value at `pos`.
fn e_skip_value(v: &Vec<char>, pos: usize) -> (r: Option<usize>)
    requires
        pos <= v@.len(),
    ensures
        match r {
            Some(np) => {
                &&& pos < np <= v@.len()
                &&& p_skip_value(v@.skip(pos as int)) == Some(v@.skip(np as int))
            },
            None => p_skip_value(v@.skip(pos as int)) is None,
        },
    decreases v@.len() - pos, 0int,
{
    let n: usize = v.len();
    let ghost s = v@.skip(pos as int);
    if pos >= n {
        return None;
    }
    proof {
        assert(s[0] == v@[pos as int]);
        assert(s.skip(1) =~= v@.skip(pos + 1));
        reveal_strlit("true");
        reveal_strlit("false");
        reveal_strlit("null");
    }
    let c = v[pos];
    if c == '"' {
        match e_string(v, pos) {
            Some(t) => Some(t.1),
            None => None,
        }
    } else if c == '{' {
        e_skip_obj(v, pos + 1)
    } else if c == '[' {
        e_skip_arr(v, pos + 1)
    } else {
        match e_lit(v, pos, "true") {
            Some(np) => Some(np),
            None => {
                match e_lit(v, pos, "false") {
                    Some(np) => Some(np),
                    None => {
                        match e_lit(v, pos, "null") {
                            Some(np) => Some(np),
                            None => {
                                if jnum_char(v[pos]) {
                                    let np = e_jnum_run(v, pos);
                                    proof {
                                        lemma_jnum_bounds(s.skip(1));
                                        assert(jnum_len(s) >= 1);
                                        assert(s.skip(np - pos) =~= v@.skip(np as int));
                                    }
                                    Some(np)
                                } else {
                                    None
                                }
                            },
                        }
                    },
                }
            },
        }
    }
}

/// Skips the rest of an array, `pos` standing just after the bracket.
fn e_skip_arr(v: &Vec<char>, pos: usize) -> (r: Option<usize>)
    requires
        pos <= v@.len(),
    ensures
        match r {
            Some(np) => {
                &&& pos < np <= v@.len()
                &&& p_skip_arr(v@.skip(pos as int)) == Some(v@.skip(np as int))
            },
            None => p_skip_arr(v@.skip(pos as int)) is None,
        },
    decreases v@.len() - pos, 2int,
{
    let n: usize = v.len();
    let ghost s = v@.skip(pos as int);
    let a = e_jws(v, pos);
    if a >= n {
        return None;
    }
    proof {
        assert(s[a - pos] == v@[a as int]);
        assert(s.skip(a - pos + 1) =~= v@.skip(a + 1));
        assert(s.skip(a - pos) =~= v@.skip(a as int));
    }
    if v[a] == ']' {
        Some(a + 1)
    } else {
        e_skip_items(v, a)
    }
}

/// Skips array elements up to and past the closing bracket.
fn e_skip_items(v: &Vec<char>, pos: usize) -> (r: Option<usize>)
    requires
        pos <= v@.len(),
    ensures
        match r {
            Some(np) => {
                &&& pos < np <= v@.len()
                &&& p_skip_items(v@.skip(pos as int)) == Some(v@.skip(np as int))
            },
            None => p_skip_items(v@.skip(pos as int)) is None,
        },
    decreases v@.len() - pos, 1int,
{
    let n: usize = v.len();
    let ghost s = v@.skip(pos as int);
    match e_skip_value(v, pos) {
        None => None,
        Some(np1) => {
            proof {
                assert(v@.skip(np1 as int).len() < s.len());
            }
            let a = e_jws(v, np1);
            if a >= n {
                return None;
            }
            proof {
                let r = v@.skip(np1 as int);
                assert(r[a - np1] == v@[a as int]);
                assert(r.skip(a - np1 + 1) =~= v@.skip(a + 1));
            }
            if v[a] == ',' {
                let b = e_jws(v, a + 1);
                proof {
                    assert(v@.skip(a + 1).skip(b - (a + 1)) =~= v@.skip(b as int));
                }
                e_skip_items(v, b)
            } else if v[a] == ']' {
                Some(a + 1)
            } else {
                None
            }
        },
    }
}

/// Skips the rest of an object, `pos` standing just after the brace.
fn e_skip_obj(v: &Vec<char>, pos: usize) -> (r: Option<usize>)
    requires
        pos <= v@.len(),
    ensures
        match r {
            Some(np) => {
                &&& pos < np <= v@.len()
                &&& p_skip_obj(v@.skip(pos as int)) == Some(v@.skip(np as int))
            },
            None => p_skip_obj(v@.skip(pos as int)) is None,
        },
    decreases v@.len() - pos, 2int,
{
    let n: usize = v.len();
    let ghost s = v@.skip(pos as int);
    let a = e_jws(v, pos);
    if a >= n {
        return None;
    }
    proof {
        assert(s[a - pos] == v@[a as int]);
        assert(s.skip(a - pos + 1) =~= v@.skip(a + 1));
        assert(s.skip(a - pos) =~= v@.skip(a as int));
    }
    if v[a] == '}' {
        Some(a + 1)
    } else {
        e_skip_members(v, a)
    }
}

/// Skips object members up to and past the closing brace.
fn e_skip_members(v: &Vec<char>, pos: usize) -> (r: Option<usize>)
    requires
        pos <= v@.len(),
    ensures
        match r {
            Some(np) => {
                &&& pos < np <= v@.len()
                &&& p_skip_members(v@.skip(pos as int)) == Some(v@.skip(np as int))
            },
            None => p_skip_members(v@.skip(pos as int)) is None,
        },
    decreases v@.len() - pos, 1int,
{
    let n: usize = v.len();
    let ghost s = v@.skip(pos as int);
    match e_string(v, pos) {
        None => None,
        Some((_key, np1)) => {
            proof {
                assert(v@.skip(np1 as int).len() < s.len());
            }
            let a = e_jws(v, np1);
            if a >= n {
                return None;
            }
            proof {
                let r1 = v@.skip(np1 as int);
                assert(r1[a - np1] == v@[a as int]);
                assert(r1.skip(a - np1 + 1) =~= v@.skip(a + 1));
            }
            if v[a] != ':' {
                return None;
            }
            let b = e_jws(v, a + 1);
            proof {
                assert(v@.skip(a + 1).skip(b - (a + 1)) =~= v@.skip(b as int));
            }
            match e_skip_value(v, b) {
                None => None,
                Some(np2) => {
                    proof {
                        assert(v@.skip(np2 as int).len() < s.len());
                    }
                    let c = e_jws(v, np2);
                    if c >= n {
                        return None;
                    }
                    proof {
                        let r2 = v@.skip(np2 as int);
                        assert(r2[c - np2] == v@[c as int]);
                        assert(r2.skip(c - np2 + 1) =~= v@.skip(c + 1));
                    }
                    if v[c] == ',' {
                        let d = e_jws(v, c + 1);
                        proof {
                            assert(v@.skip(c + 1).skip(d - (c + 1)) =~= v@.skip(d as int));
                        }
                        e_skip_members(v, d)
                    } else if v[c] == '}' {
                        Some(c + 1)
                    } else {
                        None
                    }
                },
            }
        },
    }
}

/// The views of the gathered message members.
pub open spec fn content_fields_of(content: Option<String>, role: Option<String>) -> ContentFields {
    ContentFields {
        content: match content {
            Some(x) => Some(x@),
            None => None,
        },
        role: match role {
            Some(x) => Some(x@),
            None => None,
        },
    }
}

/// Reads the members of a message object, any order, skipping unknown
/// ones.
#[verifier::rlimit(100)]
#[verifier::spinoff_prover]
fn e_content_members(v: &Vec<char>, pos: usize, content: Option<String>, role: Option<String>) -> (r:
    Option<(Option<String>, Option<String>, usize)>)
    requires
        pos <= v@.len(),
    ensures
        match r {
            Some(t) => {
                &&& pos < t.2 <= v@.len()
                &&& p_content_members(v@.skip(pos as int), content_fields_of(content, role))
                    == Some((content_fields_of(t.0, t.1), v@.skip(t.2 as int)))
            },
            None => p_content_members(v@.skip(pos as int), content_fields_of(content, role))
                is None,
        },
    decreases v@.len() - pos,
{
    let n: usize = v.len();
    let ghost s = v@.skip(pos as int);
    let ghost acc = content_fields_of(content, role);
    match e_string(v, pos) {
        None => None,
        Some((key, np1)) => {
            proof {
                assert(v@.skip(np1 as int).len() < s.len());
            }
            let a = e_jws(v, np1);
            if a >= n {
                return None;
            }
            proof {
                let r1 = v@.skip(np1 as int);
                assert(r1[a - np1] == v@[a as int]);
                assert(r1.skip(a - np1 + 1) =~= v@.skip(a + 1));
            }
            if v[a] != ':' {
                return None;
            }
            let b = e_jws(v, a + 1);
            proof {
                assert(v@.skip(a + 1).skip(b - (a + 1)) =~= v@.skip(b as int));
            }
            let step: Option<(Option<String>, Option<String>, usize)> = if key == String::from_str(
                "content",
            ) {
                match e_string(v, b) {
                    Some((val, np2)) => Some((Some(val), role, np2)),
                    None => None,
                }
            } else if key == String::from_str("role") {
                match e_string(v, b) {
                    Some((val, np2)) => Some((content, Some(val), np2)),
                    None => None,
                }
            } else {
                match e_skip_value(v, b) {
                    Some(np2) => Some((content, role, np2)),
                    None => None,
                }
            };
            match step {
                None => None,
                Some((c2, r2, np2)) => {
                    proof {
                        assert(v@.skip(np2 as int).len() < s.len());
                    }
                    let c = e_jws(v, np2);
                    if c >= n {
                        return None;
                    }
                    proof {
                        let rr = v@.skip(np2 as int);
                        assert(rr[c - np2] == v@[c as int]);
                        assert(rr.skip(c - np2 + 1) =~= v@.skip(c + 1));
                    }
                    if v[c] == ',' {
                        let d = e_jws(v, c + 1);
                        proof {
                            assert(v@.skip(c + 1).skip(d - (c + 1)) =~= v@.skip(d as int));
                        }
                        e_content_members(v, d, c2, r2)
                    } else if v[c] == '}' {
                        Some((c2, r2, c + 1))
                    } else {
                        None
                    }
                },
            }
        },
    }
}

/// Reads a whole message object at `pos`.
fn e_content_obj(v: &Vec<char>, pos: usize) -> (r: Option<(ResponseContent, usize)>)
    requires
        pos <= v@.len(),
    ensures
        match r {
            Some(t) => {
                &&& pos < t.1 <= v@.len()
                &&& p_content_obj(v@.skip(pos as int)) == Some((t.0@, v@.skip(t.1 as int)))
            },
            None => p_content_obj(v@.skip(pos as int)) is None,
        },
{
    let n: usize = v.len();
    let ghost s = v@.skip(pos as int);
    if pos >= n || v[pos] != '"' && v[pos] != '{' {
        if pos >= n {
            return None;
        }
    }
    proof {
        assert(s.len() > 0 ==> s[0] == v@[pos as int]);
    }
    if v[pos] != '{' {
        return None;
    }
    proof {
        assert(s.skip(1) =~= v@.skip(pos + 1));
    }
    let a = e_jws(v, pos + 1);
    if a >= n {
        return None;
    }
    proof {
        let rr = v@.skip(pos + 1);
        assert(rr[a - (pos + 1)] == v@[a as int]);
        assert(rr.skip(a - (pos + 1)) =~= v@.skip(a as int));
    }
    if v[a] == '}' {
        return None;
    }
    match e_content_members(v, a, None, None) {
        None => None,
        Some((c2, r2, np)) => {
            match (c2, r2) {
                (Some(content), Some(role)) => Some((ResponseContent { content, role }, np)),
                _ => None,
            }
        },
    }
}

/// The view of the gathered choice member.
pub open spec fn opt_content_view(m: Option<ResponseContent>) -> Option<ResponseContentV> {
    match m {
        Some(x) => Some(x@),
        None => None,
    }
}

/// Reads the members of a choice object, any order, skipping unknown
/// ones.
#[verifier::rlimit(100)]
#[verifier::spinoff_prover]
fn e_choice_members(v: &Vec<char>, pos: usize, msg: Option<ResponseContent>) -> (r: Option<
    (Option<ResponseContent>, usize),
>)
    requires
        pos <= v@.len(),
    ensures
        match r {
            Some(t) => {
                &&& pos < t.1 <= v@.len()
                &&& p_choice_members(v@.skip(pos as int), opt_content_view(msg)) == Some(
                    (opt_content_view(t.0), v@.skip(t.1 as int)),
                )
            },
            None => p_choice_members(v@.skip(pos as int), opt_content_view(msg)) is None,
        },
    decreases v@.len() - pos,
{
    let n: usize = v.len();
    let ghost s = v@.skip(pos as int);
    match e_string(v, pos) {
        None => None,
        Some((key, np1)) => {
            proof {
                assert(v@.skip(np1 as int).len() < s.len());
            }
            let a = e_jws(v, np1);
            if a >= n {
                return None;
            }
            proof {
                let r1 = v@.skip(np1 as int);
                assert(r1[a - np1] == v@[a as int]);
                assert(r1.skip(a - np1 + 1) =~= v@.skip(a + 1));
            }
            if v[a] != ':' {
                return None;
            }
            let b = e_jws(v, a + 1);
            proof {
                assert(v@.skip(a + 1).skip(b - (a + 1)) =~= v@.skip(b as int));
            }
            let step: Option<(Option<ResponseContent>, usize)> = if key == String::from_str(
                "message",
            ) {
                match e_content_obj(v, b) {
                    Some((val, np2)) => Some((Some(val), np2)),
                    None => None,
                }
            } else {
                match e_skip_value(v, b) {
                    Some(np2) => Some((msg, np2)),
                    None => None,
                }
            };
            match step {
                None => None,
                Some((m2, np2)) => {
                    proof {
                        assert(v@.skip(np2 as int).len() < s.len());
                    }
                    let c = e_jws(v, np2);
                    if c >= n {
                        return None;
                    }
                    proof {
                        let rr = v@.skip(np2 as int);
                        assert(rr[c - np2] == v@[c as int]);
                        assert(rr.skip(c - np2 + 1) =~= v@.skip(c + 1));
                    }
                    if v[c] == ',' {
                        let d = e_jws(v, c + 1);
                        proof {
                            assert(v@.skip(c + 1).skip(d - (c + 1)) =~= v@.skip(d as int));
                        }
                        e_choice_members(v, d, m2)
                    } else if v[c] == '}' {
                        Some((m2, c + 1))
                    } else {
                        None
                    }
                },
            }
        },
    }
}

/// Reads a whole choice object at `pos`.
fn e_choice_obj(v: &Vec<char>, pos: usize) -> (r: Option<(ResponseMessage, usize)>)
    requires
        pos <= v@.len(),
    ensures
        match r {
            Some(t) => {
                &&& pos < t.1 <= v@.len()
                &&& p_choice_obj(v@.skip(pos as int)) == Some((t.0@, v@.skip(t.1 as int)))
            },
            None => p_choice_obj(v@.skip(pos as int)) is None,
        },
{
    let n: usize = v.len();
    let ghost s = v@.skip(pos as int);
    if pos >= n {
        return None;
    }
    proof {
        assert(s[0] == v@[pos as int]);
    }
    if v[pos] != '{' {
        return None;
    }
    proof {
        assert(s.skip(1) =~= v@.skip(pos + 1));
    }
    let a = e_jws(v, pos + 1);
    if a >= n {
        return None;
    }
    proof {
        let rr = v@.skip(pos + 1);
        assert(rr[a - (pos + 1)] == v@[a as int]);
        assert(rr.skip(a - (pos + 1)) =~= v@.skip(a as int));
    }
    if v[a] == '}' {
        return None;
    }
    match e_choice_members(v, a, None) {
        None => None,
        Some((m2, np)) => {
            match m2 {
                Some(content) => Some((ResponseMessage { message: content }, np)),
                None => None,
            }
        },
    }
}

/// Reads the choice objects of the array, commas between, up to and past
/// the closing bracket.
fn e_choices_items(v: &Vec<char>, pos: usize) -> (r: Option<(Vec<ResponseMessage>, usize)>)
    requires
        pos <= v@.len(),
    ensures
        match r {
            Some(t) => {
                &&& pos < t.1 <= v@.len()
                &&& p_choices_items(v@.skip(pos as int)) == Some((t.0@.map_values(
                    |m: ResponseMessage| m@,
                ), v@.skip(t.1 as int)))
            },
            None => p_choices_items(v@.skip(pos as int)) is None,
        },
    decreases v@.len() - pos,
{
    let n: usize = v.len();
    let ghost s = v@.skip(pos as int);
    match e_choice_obj(v, pos) {
        None => None,
        Some((m, np1)) => {
            proof {
                assert(v@.skip(np1 as int).len() < s.len());
            }
            let a = e_jws(v, np1);
            if a >= n {
                return None;
            }
            proof {
                let r1 = v@.skip(np1 as int);
                assert(r1[a - np1] == v@[a as int]);
                assert(r1.skip(a - np1 + 1) =~= v@.skip(a + 1));
            }
            if v[a] == ',' {
                let b = e_jws(v, a + 1);
                proof {
                    assert(v@.skip(a + 1).skip(b - (a + 1)) =~= v@.skip(b as int));
                }
                match e_choices_items(v, b) {
                    None => None,
                    Some((mut ms, np2)) => {
                        let ghost tailv = ms@.map_values(|x: ResponseMessage| x@);
                        ms.insert(0, m);
                        proof {
                            assert(ms@.map_values(|x: ResponseMessage| x@) =~= seq![m@] + tailv);
                        }
                        Some((ms, np2))
                    },
                }
            } else if v[a] == ']' {
                let mut ms: Vec<ResponseMessage> = Vec::new();
                ms.push(m);
                proof {
                    assert(ms@.map_values(|x: ResponseMessage| x@) =~= seq![m@]);
                }
                Some((ms, a + 1))
            } else {
                None
            }
        },
    }
}

/// Reads the choices array at `pos`, brackets included.
fn e_choices_arr(v: &Vec<char>, pos: usize) -> (r: Option<(Vec<ResponseMessage>, usize)>)
    requires
        pos <= v@.len(),
    ensures
        match r {
            Some(t) => {
                &&& pos < t.1 <= v@.len()
                &&& p_choices_arr(v@.skip(pos as int)) == Some((t.0@.map_values(
                    |m: ResponseMessage| m@,
                ), v@.skip(t.1 as int)))
            },
            None => p_choices_arr(v@.skip(pos as int)) is None,
        },
{
    let n: usize = v.len();
    let ghost s = v@.skip(pos as int);
    if pos >= n {
        return None;
    }
    proof {
        assert(s[0] == v@[pos as int]);
    }
    if v[pos] != '[' {
        return None;
    }
    proof {
        assert(s.skip(1) =~= v@.skip(pos + 1));
    }
    let a = e_jws(v, pos + 1);
    if a >= n {
        return None;
    }
    proof {
        let rr = v@.skip(pos + 1);
        assert(rr[a - (pos + 1)] == v@[a as int]);
        assert(rr.skip(a - (pos + 1) + 1) =~= v@.skip(a + 1));
        assert(rr.skip(a - (pos + 1)) =~= v@.skip(a as int));
    }
    if v[a] == ']' {
        let out: Vec<ResponseMessage> = Vec::new();
        proof {
            assert(out@.map_values(|m: ResponseMessage| m@) =~= Seq::<ResponseMessageV>::empty());
        }
        Some((out, a + 1))
    } else {
        e_choices_items(v, a)
    }
}

/// The views of the gathered response members.
pub open spec fn resp_fields_of(
    id: Option<String>,
    model: Option<String>,
    created: Option<i64>,
    object: Option<String>,
    choices: Option<Vec<ResponseMessage>>,
) -> RespFields {
    RespFields {
        id: match id {
            Some(x) => Some(x@),
            None => None,
        },
        model: match model {
            Some(x) => Some(x@),
            None => None,
        },
        created: match created {
            Some(x) => Some(x as int),
            None => None,
        },
        object: match object {
            Some(x) => Some(x@),
            None => None,
        },
        choices: match choices {
            Some(x) => Some(x@.map_values(|m: ResponseMessage| m@)),
            None => None,
        },
    }
}

/// Reads the members of the response object, any order, skipping unknown
/// ones.
#[verifier::rlimit(100)]
#[verifier::spinoff_prover]
fn e_resp_members(
    v: &Vec<char>,
    pos: usize,
    id: Option<String>,
    model: Option<String>,
    created: Option<i64>,
    object: Option<String>,
    choices: Option<Vec<ResponseMessage>>,
) -> (r: Option<
    (
        Option<String>,
        Option<String>,
        Option<i64>,
        Option<String>,
        Option<Vec<ResponseMessage>>,
        usize,
    ),
>)
    requires
        pos <= v@.len(),
    ensures
        match r {
            Some(t) => {
                &&& pos < t.5 <= v@.len()
                &&& p_resp_members(
                    v@.skip(pos as int),
                    resp_fields_of(id, model, created, object, choices),
                ) == Some((resp_fields_of(t.0, t.1, t.2, t.3, t.4), v@.skip(t.5 as int)))
            },
            None => p_resp_members(
                v@.skip(pos as int),
                resp_fields_of(id, model, created, object, choices),
            ) is None,
        },
    decreases v@.len() - pos,
{
    let n: usize = v.len();
    let ghost s = v@.skip(pos as int);
    match e_string(v, pos) {
        None => None,
        Some((key, np1)) => {
            proof {
                assert(v@.skip(np1 as int).len() < s.len());
            }
            let a = e_jws(v, np1);
            if a >= n {
                return None;
            }
            proof {
                let r1 = v@.skip(np1 as int);
                assert(r1[a - np1] == v@[a as int]);
                assert(r1.skip(a - np1 + 1) =~= v@.skip(a + 1));
            }
            if v[a] != ':' {
                return None;
            }
            let b = e_jws(v, a + 1);
            proof {
                assert(v@.skip(a + 1).skip(b - (a + 1)) =~= v@.skip(b as int));
            }
            let step: Option<
                (
                    Option<String>,
                    Option<String>,
                    Option<i64>,
                    Option<String>,
                    Option<Vec<ResponseMessage>>,
                    usize,
                ),
            > = if key == String::from_str("id") {
                match e_string(v, b) {
                    Some((val, np2)) => Some((Some(val), model, created, object, choices, np2)),
                    None => None,
                }
            } else if key == String::from_str("model") {
                match e_string(v, b) {
                    Some((val, np2)) => Some((id, Some(val), created, object, choices, np2)),
                    None => None,
                }
            } else if key == String::from_str("created") {
                match e_int(v, b) {
                    Some((val, np2)) => Some((id, model, Some(val), object, choices, np2)),
                    None => None,
                }
            } else if key == String::from_str("object") {
                match e_string(v, b) {
                    Some((val, np2)) => Some((id, model, created, Some(val), choices, np2)),
                    None => None,
                }
            } else if key == String::from_str("choices") {
                match e_choices_arr(v, b) {
                    Some((val, np2)) => Some((id, model, created, object, Some(val), np2)),
                    None => None,
                }
            } else {
                match e_skip_value(v, b) {
                    Some(np2) => Some((id, model, created, object, choices, np2)),
                    None => None,
                }
            };
            match step {
                None => None,
                Some((f1, f2, f3, f4, f5, np2)) => {
                    proof {
                        assert(v@.skip(np2 as int).len() < s.len());
                    }
                    let c = e_jws(v, np2);
                    if c >= n {
                        return None;
                    }
                    proof {
                        let rr = v@.skip(np2 as int);
                        assert(rr[c - np2] == v@[c as int]);
                        assert(rr.skip(c - np2 + 1) =~= v@.skip(c + 1));
                    }
                    if v[c] == ',' {
                        let d = e_jws(v, c + 1);
                        proof {
                            assert(v@.skip(c + 1).skip(d - (c + 1)) =~= v@.skip(d as int));
                        }
                        e_resp_members(v, d, f1, f2, f3, f4, f5)
                    } else if v[c] == '}' {
                        Some((f1, f2, f3, f4, f5, c + 1))
                    } else {
                        None
                    }
                },
            }
        },
    }
}

/// Parses a full completion-response text by its documented shape:
/// members in any order, unknown members skipped, JSON whitespace
/// allowed. `None` exactly where the text is not one such document.
pub fn parse_response(text: &str) -> (r: Option<ResponseBody>)
    ensures
        match r {
            Some(b) => p_response(text@) == Some(b@),
            None => p_response(text@) is None,
        },
{
    let v = chars_of(text);
    let n: usize = v.len();
    proof {
        assert(v@.skip(0) =~= v@);
    }
    let a = e_jws(&v, 0);
    if a >= n {
        return None;
    }
    if v[a] != '{' {
        return None;
    }
    proof {
        assert(v@.skip(a + 1) =~= v@.skip(a as int).skip(1));
    }
    let b = e_jws(&v, a + 1);
    if b >= n {
        return None;
    }
    proof {
        let rr = v@.skip(a + 1);
        assert(rr[b - (a + 1)] == v@[b as int]);
        assert(rr.skip(b - (a + 1)) =~= v@.skip(b as int));
    }
    if v[b] == '}' {
        return None;
    }
    match e_resp_members(&v, b, None, None, None, None, None) {
        None => None,
        Some((id, model, created, object, choices, np)) => {
            let e = e_jws(&v, np);
            if e != n {
                return None;
            }
            proof {
                assert(jws_len(v@.skip(np as int)) == v@.skip(np as int).len());
            }
            match (id, model, created, object, choices) {
                (Some(id), Some(model), Some(created), Some(object), Some(choices)) => {
                    let body = ResponseBody { choices, id, model, created, object };
                    Some(body)
                },
                _ => None,
            }
        },
    }
}

/// Parses the full completion-request document; `None` exactly where the
/// text does not follow the documented shape.
pub fn parse_request(text: &str) -> (r: Option<RequestBody>)
    ensures
        match r {
            Some(b) => p_request(text@) == Some(b@) && b@.wf(),
            None => p_request(text@) is None,
        },
{
    let v = chars_of(text);
    let n: usize = v.len();
    proof {
        assert(v@.skip(0) =~= v@);
    }
    match e_field_str(&v, 0, "{\"model\":") {
        None => None,
        Some(model_t) => match e_lit(&v, model_t.1, ",\"messages\":") {
            None => None,
            Some(msgs_pos) => match e_msg_array(&v, msgs_pos) {
                None => None,
                Some(msgs_t) => match e_field_num(&v, msgs_t.1, ",\"temperature\":") {
                    None => None,
                    Some(temp_t) => match e_field_int(&v, temp_t.1, ",\"max_tokens\":") {
                        None => None,
                        Some(maxt_t) => match e_field_bool(&v, maxt_t.1, ",\"stream\":") {
                            None => None,
                            Some(stream_t) => match e_field_num(
                                &v,
                                stream_t.1,
                                ",\"presence_penalty\":",
                            ) {
                                None => None,
                                Some(pp_t) => match e_field_num(
                                    &v,
                                    pp_t.1,
                                    ",\"frequency_penalty\":",
                                ) {
                                    None => None,
                                    Some(fp_t) => match e_field_num(&v, fp_t.1, ",\"top_p\":") {
                                        None => None,
                                        Some(topp_t) => match e_field_int(
                                            &v,
                                            topp_t.1,
                                            ",\"top_k\":",
                                        ) {
                                            None => None,
                                            Some(topk_t) => match e_lit(
                                                &v,
                                                topk_t.1,
                                                ",\"transforms\":",
                                            ) {
                                                None => None,
                                                Some(tr_pos) => match e_str_array(&v, tr_pos) {
                                                    None => None,
                                                    Some(tr_t) => match e_field_num(
                                                        &v,
                                                        tr_t.1,
                                                        ",\"min_p\":",
                                                    ) {
                                                        None => None,
                                                        Some(minp_t) => match e_field_num(
                                                            &v,
                                                            minp_t.1,
                                                            ",\"top_a\":",
                                                        ) {
                                                            None => None,
                                                            Some(topa_t) => match e_lit(
                                                                &v,
                                                                topa_t.1,
                                                                "}",
                                                            ) {
                                                                None => None,
                                                                Some(endp) => {
                                                                    if endp == n && maxt_t.0
                                                                        >= -2147483648i64
                                                                        && maxt_t.0
                                                                        <= 2147483647i64
                                                                        && topk_t.0
                                                                        >= -2147483648i64
                                                                        && topk_t.0
                                                                        <= 2147483647i64 {
                                                                        proof {
                                                                            assert(v@.skip(
                                                                                endp as int,
                                                                            ).len() == 0);
                                                                        }
                                                                        let b = RequestBody {
                                                                            messages: msgs_t.0,
                                                                            settings: Settings {
                                                                                model: model_t.0,
                                                                                temperature: Number { text: temp_t.0 },
                                                                                max_tokens: maxt_t.0 as i32,
                                                                                stream: stream_t.0,
                                                                                presence_penalty: Number { text: pp_t.0 },
                                                                                frequency_penalty: Number { text: fp_t.0 },
                                                                                top_p: Number { text: topp_t.0 },
                                                                                top_k: topk_t.0 as i32,
                                                                                transforms: tr_t.0,
                                                                                min_p: Number { text: minp_t.0 },
                                                                                top_a: Number { text: topa_t.0 },
                                                                            },
                                                                        };
                                                                        Some(b)
                                                                    } else {
                                                                        proof {
                                                                            if endp != n {
                                                                                assert(v@.skip(
                                                                                    endp as int,
                                                                                ).len() > 0);
                                                                            }
                                                                        }
                                                                        None
                                                                    }
                                                                },
                                                            },
                                                        },
                                                    },
                                                },
                                            },
                                        },
                                    },
                                },
                            },
                        },
                    },
                },
            },
        },
    }
}


/// A literal prefix parses off exactly.
proof fn lemma_p_lit(l: Seq<char>, rest: Seq<char>)
    ensures
        p_lit(l + rest, l) == Some(rest),
{
    assert((l + rest).take(l.len() as int) =~= l);
    assert((l + rest).skip(l.len() as int) =~= rest);
}

/// Each hexadecimal digit character reads back as its value.
proof fn lemma_hex_digit_rt(n: int)
    requires
        0 <= n < 16,
    ensures
        is_hex(hex_digit(n)),
        hex_val(hex_digit(n)) == n,
{
    let tbl = seq!['0', '1', '2', '3', '4', '5', '6', '7', '8', '9', 'a', 'b', 'c', 'd', 'e', 'f'];
    if n < 10 {
        assert(tbl[n] == seq!['0', '1', '2', '3', '4', '5', '6', '7', '8', '9'].push('a').push(
            'b',
        ).push('c').push('d').push('e').push('f')[n]) by {
            assert(tbl =~= seq!['0', '1', '2', '3', '4', '5', '6', '7', '8', '9'].push('a').push(
                'b',
            ).push('c').push('d').push('e').push('f'));
        }
        assert(is_digit(tbl[n]) && hex_val(tbl[n]) == n) by {
            if n == 0 {
                assert(tbl[0] == '0');
            } else if n == 1 {
                assert(tbl[1] == '1');
            } else if n == 2 {
                assert(tbl[2] == '2');
            } else if n == 3 {
                assert(tbl[3] == '3');
            } else if n == 4 {
                assert(tbl[4] == '4');
            } else if n == 5 {
                assert(tbl[5] == '5');
            } else if n == 6 {
                assert(tbl[6] == '6');
            } else if n == 7 {
                assert(tbl[7] == '7');
            } else if n == 8 {
                assert(tbl[8] == '8');
            } else {
                assert(tbl[9] == '9');
            }
        }
    } else {
        assert(is_hex(tbl[n]) && hex_val(tbl[n]) == n) by {
            if n == 10 {
                assert(tbl[10] == 'a');
            } else if n == 11 {
                assert(tbl[11] == 'b');
            } else if n == 12 {
                assert(tbl[12] == 'c');
            } else if n == 13 {
                assert(tbl[13] == 'd');
            } else if n == 14 {
                assert(tbl[14] == 'e');
            } else {
                assert(tbl[15] == 'f');
            }
        }
    }
}

/// An escaped string body, closing quote appended, parses back to the
/// original characters.
#[verifier::rlimit(100)]
#[verifier::spinoff_prover]
proof fn lemma_esc_rt(v: Seq<char>, rest: Seq<char>)
    ensures
        p_str_body(esc(v) + (seq!['"'] + rest)) == Some((v, rest)),
    decreases v.len(),
{
    let tail = seq!['"'] + rest;
    let s = esc(v) + tail;
    if v.len() == 0 {
        assert(s =~= tail);
        assert(s[0] == '"');
        assert(s.skip(1) =~= rest);
    } else {
        let c = v[0];
        let vrest = v.skip(1);
        assert(esc(v) == esc_char(c) + esc(vrest));
        assert(s =~= esc_char(c) + (esc(vrest) + tail));
        lemma_esc_rt(vrest, rest);
        let srec = esc(vrest) + tail;
        assert(seq![c] + vrest =~= v);
        if c == '"' {
            assert(esc_char(c) =~= seq!['\\', '"']);
            assert(s[0] == '\\');
            assert(s.skip(1) =~= seq!['"'] + srec);
            assert(s.skip(1)[0] == '"');
            assert(p_esc_char(s.skip(1)) == Some(('"', 1int)));
            assert(s.skip(2) =~= srec);
            assert(s.skip(2int) =~= srec);
        } else if c == '\\' {
            assert(esc_char(c) =~= seq!['\\', '\\']);
            assert(s[0] == '\\');
            assert(s.skip(1) =~= seq!['\\'] + srec);
            assert(s.skip(1)[0] == '\\');
            assert(p_esc_char(s.skip(1)) == Some(('\\', 1int)));
            assert(s.skip(2int) =~= srec);
        } else if (c as u32) < 32 {
            let cc = (c as u32) as int;
            let n1 = cc / 16;
            let n2 = cc % 16;
            assert(esc_char(c) =~= seq!['\\', 'u', '0', '0', hex_digit(n1), hex_digit(n2)]);
            assert(s[0] == '\\');
            let e = s.skip(1);
            assert(e =~= seq!['u', '0', '0', hex_digit(n1), hex_digit(n2)] + srec);
            assert(e[0] == 'u');
            assert(e[1] == '0' && e[2] == '0' && e[3] == hex_digit(n1) && e[4] == hex_digit(n2));
            assert(is_hex('0') && hex_val('0') == 0);
            lemma_hex_digit_rt(n1);
            lemma_hex_digit_rt(n2);
            assert(hex_val(e[1]) * 4096 + hex_val(e[2]) * 256 + hex_val(e[3]) * 16 + hex_val(e[4])
                == n1 * 16 + n2);
            assert(n1 * 16 + n2 == cc);
            assert(valid_code(cc));
            assert(cc as u32 == c as u32);
            vstd::utf8::char_u32_cast(c, c as u32);
            assert(((cc as u32) as char) == c);
            assert(p_esc_char(e) == Some((c, 5int)));
            assert(s.skip(6int) =~= srec);
        } else {
            assert(esc_char(c) =~= seq![c]);
            assert(s[0] == c);
            assert(c != '"' && c != '\\');
            assert(s.skip(1) =~= srec);
        }
    }
}

/// A serialized string parses back exactly.
proof fn lemma_ser_string_rt(v: Seq<char>, rest: Seq<char>)
    ensures
        p_string(ser_string(v) + rest) == Some((v, rest)),
{
    let s = ser_string(v) + rest;
    assert(s =~= seq!['"'] + (esc(v) + (seq!['"'] + rest)));
    assert(s[0] == '"');
    assert(s.len() > 0);
    assert(s.skip(1) =~= esc(v) + (seq!['"'] + rest));
    lemma_esc_rt(v, rest);
}

/// Numeral characters run to exactly the end of the numeral.
proof fn lemma_num_prefix_concat(a: Seq<char>, b: Seq<char>)
    requires
        forall|i: int| 0 <= i < a.len() ==> is_num_char(#[trigger] a[i]),
        b.len() == 0 || !is_num_char(b[0]),
    ensures
        num_prefix_len(a + b) == a.len(),
    decreases a.len(),
{
    if a.len() == 0 {
        assert(a + b =~= b);
    } else {
        assert((a + b)[0] == a[0]);
        assert((a + b).skip(1) =~= a.skip(1) + b);
        lemma_num_prefix_concat(a.skip(1), b);
    }
}

/// A well-shaped numeral, followed by anything that cannot extend it,
/// parses back exactly.
proof fn lemma_p_number_rt(t: Seq<char>, rest: Seq<char>)
    requires
        is_valid_number(t),
        rest.len() == 0 || !is_num_char(rest[0]),
    ensures
        p_number(t + rest) == Some((t, rest)),
{
    lemma_valid_number_chars(t);
    lemma_num_prefix_concat(t, rest);
    let s = t + rest;
    assert(num_prefix_len(s) == t.len());
    assert(s.take(t.len() as int) =~= t);
    assert(s.skip(t.len() as int) =~= rest);
}

/// A rendered integer in `i32` range, followed by anything that is not a
/// digit, parses back exactly.
proof fn lemma_p_int_rt(val: int, rest: Seq<char>)
    requires
        i32::MIN <= val <= i32::MAX,
        rest.len() == 0 || !is_digit(rest[0]),
    ensures
        p_int(int_digits(val) + rest) == Some((val, rest)),
{
    let mag: nat = if val < 0 {
        (-val) as nat
    } else {
        val as nat
    };
    lemma_dec_digits(mag);
    assert(mag < pow10(10)) by {
        assert(pow10(0) == 1);
        assert(pow10(1) == 10);
        assert(pow10(2) == 100);
        assert(pow10(3) == 1000);
        assert(pow10(4) == 10000);
        assert(pow10(5) == 100000);
        assert(pow10(6) == 1000000);
        assert(pow10(7) == 10000000);
        assert(pow10(8) == 100000000);
        assert(pow10(9) == 1000000000);
        assert(pow10(10) == 10000000000);
    }
    lemma_dec_digits_len(mag, 10);
    let d = dec_digits(mag);
    let s = int_digits(val) + rest;
    if val < 0 {
        assert(int_digits(val) =~= seq!['-'] + d);
        assert(s =~= seq!['-'] + (d + rest));
        assert(s[0] == '-');
        assert(s.skip(1) =~= d + rest);
        lemma_digits_prefix_concat(d, rest);
        let u = s.skip(1);
        let k = digits_prefix_len(u);
        assert(k == d.len());
        assert(1 <= k <= 18);
        assert(u.take(k) =~= d);
        assert(digits_val(u.take(k)) == mag);
        assert(u.skip(k) =~= rest);
    } else {
        assert(int_digits(val) =~= d);
        assert(s =~= d + rest);
        assert(s[0] == d[0]);
        assert(is_digit(d[0]));
        assert(d[0] != '-') by {
            assert(('-' as int) == 45);
        }
        lemma_digits_prefix_concat(d, rest);
        let k = digits_prefix_len(s);
        assert(k == d.len());
        assert(1 <= k <= 18);
        assert(s.take(k) =~= d);
        assert(digits_val(s.take(k)) == mag);
        assert(s.skip(k) =~= rest);
    }
}

/// A serialized boolean parses back exactly.
proof fn lemma_p_bool_rt(b: bool, rest: Seq<char>)
    ensures
        p_bool(ser_bool(b) + rest) == Some((b, rest)),
{
    reveal_strlit("true");
    reveal_strlit("false");
    let s = ser_bool(b) + rest;
    if b {
        assert(s.take(4) =~= "true"@);
        assert(s.skip(4) =~= rest);
    } else {
        assert(s.take(5) =~= "false"@);
        assert(s.skip(5) =~= rest);
        assert(s[0] == 'f');
        if s.len() >= 4 && s.take(4) == "true"@ {
            assert(s.take(4)[0] == 'f' && "true"@[0] == 't');
        }
    }
}

/// A serialized message object parses back exactly.
#[verifier::rlimit(100)]
#[verifier::spinoff_prover]
proof fn lemma_p_msg_rt(m: RequestMessageV, rest: Seq<char>)
    ensures
        p_msg(ser_msg(m) + rest) == Some((m, rest)),
{
    let s = ser_msg(m) + rest;
    let r2 = ",\"content\":"@ + (ser_string(m.content) + ("}"@ + rest));
    assert(s =~= "{\"role\":"@ + (ser_string(m.role) + r2));
    lemma_p_lit("{\"role\":"@, ser_string(m.role) + r2);
    lemma_ser_string_rt(m.role, r2);
    lemma_p_lit(",\"content\":"@, ser_string(m.content) + ("}"@ + rest));
    lemma_ser_string_rt(m.content, "}"@ + rest);
    lemma_p_lit("}"@, rest);
    assert(RequestMessageV { role: m.role, content: m.content } =~= m);
}

/// A nonempty serialized message list, closing bracket appended, parses
/// back exactly.
#[verifier::rlimit(100)]
#[verifier::spinoff_prover]
proof fn lemma_p_msgs_rt(ms: Seq<RequestMessageV>, rest: Seq<char>)
    requires
        ms.len() >= 1,
    ensures
        p_msgs(ser_msgs(ms) + (seq![']'] + rest)) == Some((ms, rest)),
    decreases ms.len(),
{
    reveal_strlit("{\"role\":");
    let s = ser_msgs(ms) + (seq![']'] + rest);
    if ms.len() == 1 {
        assert(ser_msgs(ms) == ser_msg(ms[0]));
        lemma_p_msg_rt(ms[0], seq![']'] + rest);
        assert(s =~= ser_msg(ms[0]) + (seq![']'] + rest));
        let r = seq![']'] + rest;
        assert(ser_msg(ms[0]).len() > 0) by {
            assert(ser_msg(ms[0])[0] == "{\"role\":"@[0]);
        }
        assert(r.len() < s.len());
        assert(r[0] == ']');
        assert(r.skip(1) =~= rest);
        assert(seq![ms[0]] =~= ms);
    } else {
        assert(ser_msgs(ms) == ser_msg(ms[0]) + seq![','] + ser_msgs(ms.skip(1)));
        let r = seq![','] + (ser_msgs(ms.skip(1)) + (seq![']'] + rest));
        assert(s =~= ser_msg(ms[0]) + r);
        lemma_p_msg_rt(ms[0], r);
        assert(ser_msg(ms[0]).len() > 0) by {
            assert(ser_msg(ms[0])[0] == "{\"role\":"@[0]);
        }
        assert(r.len() < s.len());
        assert(r[0] == ',');
        assert(r.skip(1) =~= ser_msgs(ms.skip(1)) + (seq![']'] + rest));
        lemma_p_msgs_rt(ms.skip(1), rest);
        assert(seq![ms[0]] + ms.skip(1) =~= ms);
    }
}

/// A serialized message array parses back exactly.
proof fn lemma_p_msg_array_rt(ms: Seq<RequestMessageV>, rest: Seq<char>)
    ensures
        p_msg_array(ser_msg_array(ms) + rest) == Some((ms, rest)),
{
    reveal_strlit("{\"role\":");
    let s = ser_msg_array(ms) + rest;
    if ms.len() == 0 {
        assert(ser_msgs(ms) == Seq::<char>::empty());
        assert(s =~= seq!['[', ']'] + rest);
        assert(s[0] == '[' && s[1] == ']');
        assert(s.skip(2) =~= rest);
        assert(Seq::<RequestMessageV>::empty() =~= ms);
    } else {
        assert(s =~= seq!['['] + (ser_msgs(ms) + (seq![']'] + rest)));
        assert(s[0] == '[');
        assert(ser_msgs(ms).len() > 0 && ser_msgs(ms)[0] == '{') by {
            if ms.len() == 1 {
                assert(ser_msgs(ms) == ser_msg(ms[0]));
            } else {
                assert(ser_msgs(ms) == ser_msg(ms[0]) + seq![','] + ser_msgs(ms.skip(1)));
            }
            assert(ser_msg(ms[0])[0] == "{\"role\":"@[0]);
            assert("{\"role\":"@[0] == '{');
        }
        assert(s[1] == '{');
        assert(s.skip(1) =~= ser_msgs(ms) + (seq![']'] + rest));
        lemma_p_msgs_rt(ms, rest);
    }
}

/// A nonempty serialized string list, closing bracket appended, parses
/// back exactly.
#[verifier::rlimit(100)]
#[verifier::spinoff_prover]
proof fn lemma_p_strs_rt(xs: Seq<Seq<char>>, rest: Seq<char>)
    requires
        xs.len() >= 1,
    ensures
        p_strs(ser_strs(xs) + (seq![']'] + rest)) == Some((xs, rest)),
    decreases xs.len(),
{
    let s = ser_strs(xs) + (seq![']'] + rest);
    if xs.len() == 1 {
        assert(ser_strs(xs) == ser_string(xs[0]));
        lemma_ser_string_rt(xs[0], seq![']'] + rest);
        assert(s =~= ser_string(xs[0]) + (seq![']'] + rest));
        let r = seq![']'] + rest;
        assert(ser_string(xs[0]).len() > 0) by {
            assert(ser_string(xs[0])[0] == '"');
        }
        assert(r.len() < s.len());
        assert(r[0] == ']');
        assert(r.skip(1) =~= rest);
        assert(seq![xs[0]] =~= xs);
    } else {
        assert(ser_strs(xs) == ser_string(xs[0]) + seq![','] + ser_strs(xs.skip(1)));
        let r = seq![','] + (ser_strs(xs.skip(1)) + (seq![']'] + rest));
        assert(s =~= ser_string(xs[0]) + r);
        lemma_ser_string_rt(xs[0], r);
        assert(ser_string(xs[0]).len() > 0) by {
            assert(ser_string(xs[0])[0] == '"');
        }
        assert(r.len() < s.len());
        assert(r[0] == ',');
        assert(r.skip(1) =~= ser_strs(xs.skip(1)) + (seq![']'] + rest));
        lemma_p_strs_rt(xs.skip(1), rest);
        assert(seq![xs[0]] + xs.skip(1) =~= xs);
    }
}

/// A serialized string array parses back exactly.
proof fn lemma_p_str_array_rt(xs: Seq<Seq<char>>, rest: Seq<char>)
    ensures
        p_str_array(ser_str_array(xs) + rest) == Some((xs, rest)),
{
    let s = ser_str_array(xs) + rest;
    if xs.len() == 0 {
        assert(ser_strs(xs) == Seq::<char>::empty());
        assert(s =~= seq!['[', ']'] + rest);
        assert(s[0] == '[' && s[1] == ']');
        assert(s.skip(2) =~= rest);
        assert(Seq::<Seq<char>>::empty() =~= xs);
    } else {
        assert(s =~= seq!['['] + (ser_strs(xs) + (seq![']'] + rest)));
        assert(s[0] == '[');
        assert(ser_strs(xs).len() > 0 && ser_strs(xs)[0] == '"') by {
            if xs.len() == 1 {
                assert(ser_strs(xs) == ser_string(xs[0]));
            } else {
                assert(ser_strs(xs) == ser_string(xs[0]) + seq![','] + ser_strs(xs.skip(1)));
            }
            assert(ser_string(xs[0])[0] == '"');
        }
        assert(s[1] == '"');
        assert(s.skip(1) =~= ser_strs(xs) + (seq![']'] + rest));
        lemma_p_strs_rt(xs, rest);
    }
}


/// `ser_request`, re-bracketed from the right: the same characters, in
/// the shape the parser consumes them.
spec fn ser_request_nested(r: RequestBodyV) -> Seq<char> {
    let st = r.settings;
    "{\"model\":"@ + (ser_string(st.model) + (",\"messages\":"@ + (ser_msg_array(r.messages) + (
    ",\"temperature\":"@ + (st.temperature + (",\"max_tokens\":"@ + (int_digits(st.max_tokens)
        + (",\"stream\":"@ + (ser_bool(st.stream) + (",\"presence_penalty\":"@ + (
    st.presence_penalty + (",\"frequency_penalty\":"@ + (st.frequency_penalty + (",\"top_p\":"@
        + (st.top_p + (",\"top_k\":"@ + (int_digits(st.top_k) + (",\"transforms\":"@ + (
    ser_str_array(st.transforms) + (",\"min_p\":"@ + (st.min_p + (",\"top_a\":"@ + (st.top_a
        + "}"@)))))))))))))))))))))))
}

/// The serialized request re-bracketed: plain associativity, one step at
/// a time.
#[verifier::rlimit(100)]
#[verifier::spinoff_prover]
proof fn lemma_ser_request_shape(r: RequestBodyV)
    ensures
        ser_request(r) == ser_request_nested(r),
{
    let st = r.settings;
    let p1 = "{\"model\":"@;
    let p2 = ser_string(st.model);
    let p3 = ",\"messages\":"@;
    let p4 = ser_msg_array(r.messages);
    let p5 = ",\"temperature\":"@;
    let p6 = st.temperature;
    let p7 = ",\"max_tokens\":"@;
    let p8 = int_digits(st.max_tokens);
    let p9 = ",\"stream\":"@;
    let p10 = ser_bool(st.stream);
    let p11 = ",\"presence_penalty\":"@;
    let p12 = st.presence_penalty;
    let p13 = ",\"frequency_penalty\":"@;
    let p14 = st.frequency_penalty;
    let p15 = ",\"top_p\":"@;
    let p16 = st.top_p;
    let p17 = ",\"top_k\":"@;
    let p18 = int_digits(st.top_k);
    let p19 = ",\"transforms\":"@;
    let p20 = ser_str_array(st.transforms);
    let p21 = ",\"min_p\":"@;
    let p22 = st.min_p;
    let p23 = ",\"top_a\":"@;
    let p24 = st.top_a;
    let p25 = "}"@;
    let t25 = p25;
    let t24 = p24 + t25;
    let t23 = p23 + t24;
    let t22 = p22 + t23;
    let t21 = p21 + t22;
    let t20 = p20 + t21;
    let t19 = p19 + t20;
    let t18 = p18 + t19;
    let t17 = p17 + t18;
    let t16 = p16 + t17;
    let t15 = p15 + t16;
    let t14 = p14 + t15;
    let t13 = p13 + t14;
    let t12 = p12 + t13;
    let t11 = p11 + t12;
    let t10 = p10 + t11;
    let t9 = p9 + t10;
    let t8 = p8 + t9;
    let t7 = p7 + t8;
    let t6 = p6 + t7;
    let t5 = p5 + t6;
    let t4 = p4 + t5;
    let t3 = p3 + t4;
    let t2 = p2 + t3;
    let l1 = p1;
    let l2 = l1 + p2;
    let l3 = l2 + p3;
    let l4 = l3 + p4;
    let l5 = l4 + p5;
    let l6 = l5 + p6;
    let l7 = l6 + p7;
    let l8 = l7 + p8;
    let l9 = l8 + p9;
    let l10 = l9 + p10;
    let l11 = l10 + p11;
    let l12 = l11 + p12;
    let l13 = l12 + p13;
    let l14 = l13 + p14;
    let l15 = l14 + p15;
    let l16 = l15 + p16;
    let l17 = l16 + p17;
    let l18 = l17 + p18;
    let l19 = l18 + p19;
    let l20 = l19 + p20;
    let l21 = l20 + p21;
    let l22 = l21 + p22;
    let l23 = l22 + p23;
    let l24 = l23 + p24;
    let l25 = l24 + p25;
    assert(ser_request(r) == l25);
    assert(l25 =~= l24 + t25);
    assert(l24 + t25 =~= l23 + t24);
    assert(l23 + t24 =~= l22 + t23);
    assert(l22 + t23 =~= l21 + t22);
    assert(l21 + t22 =~= l20 + t21);
    assert(l20 + t21 =~= l19 + t20);
    assert(l19 + t20 =~= l18 + t19);
    assert(l18 + t19 =~= l17 + t18);
    assert(l17 + t18 =~= l16 + t17);
    assert(l16 + t17 =~= l15 + t16);
    assert(l15 + t16 =~= l14 + t15);
    assert(l14 + t15 =~= l13 + t14);
    assert(l13 + t14 =~= l12 + t13);
    assert(l12 + t13 =~= l11 + t12);
    assert(l11 + t12 =~= l10 + t11);
    assert(l10 + t11 =~= l9 + t10);
    assert(l9 + t10 =~= l8 + t9);
    assert(l8 + t9 =~= l7 + t8);
    assert(l7 + t8 =~= l6 + t7);
    assert(l6 + t7 =~= l5 + t6);
    assert(l5 + t6 =~= l4 + t5);
    assert(l4 + t5 =~= l3 + t4);
    assert(l3 + t4 =~= l2 + t3);
    assert(l2 + t3 =~= l1 + t2);
    assert(ser_request_nested(r) == p1 + t2);
}

/// Round trip: serializing any well-formed request and parsing the text
/// back yields the request again, field for field.
#[verifier::rlimit(100)]
#[verifier::spinoff_prover]
pub proof fn lemma_request_round_trip(r: RequestBodyV)
    requires
        r.wf(),
    ensures
        p_request(ser_request(r)) == Some(r),
{
    let st = r.settings;
    let r12: Seq<char> = "}"@;
    let r11 = ",\"top_a\":"@ + (st.top_a + r12);
    let r10 = ",\"min_p\":"@ + (st.min_p + r11);
    let r9 = ",\"transforms\":"@ + (ser_str_array(st.transforms) + r10);
    let r8 = ",\"top_k\":"@ + (int_digits(st.top_k) + r9);
    let r7 = ",\"top_p\":"@ + (st.top_p + r8);
    let r6 = ",\"frequency_penalty\":"@ + (st.frequency_penalty + r7);
    let r5 = ",\"presence_penalty\":"@ + (st.presence_penalty + r6);
    let r4 = ",\"stream\":"@ + (ser_bool(st.stream) + r5);
    let r3 = ",\"max_tokens\":"@ + (int_digits(st.max_tokens) + r4);
    let r2 = ",\"temperature\":"@ + (st.temperature + r3);
    let r1 = ",\"messages\":"@ + (ser_msg_array(r.messages) + r2);
    let s0 = "{\"model\":"@ + (ser_string(st.model) + r1);
    lemma_ser_request_shape(r);
    assert(ser_request(r) == s0);
    assert(p_field_str(s0, "{\"model\":"@) == Some((st.model, r1))) by {
        lemma_p_lit("{\"model\":"@, ser_string(st.model) + r1);
        lemma_ser_string_rt(st.model, r1);
    }
    assert(p_lit(r1, ",\"messages\":"@) == Some(ser_msg_array(r.messages) + r2)) by {
        lemma_p_lit(",\"messages\":"@, ser_msg_array(r.messages) + r2);
    }
    assert(p_msg_array(ser_msg_array(r.messages) + r2) == Some((r.messages, r2))) by {
        lemma_p_msg_array_rt(r.messages, r2);
    }
    assert(p_field_num(r2, ",\"temperature\":"@) == Some((st.temperature, r3))) by {
        lemma_p_lit(",\"temperature\":"@, st.temperature + r3);
        assert(r3[0] == ',' && !is_num_char(',')) by {
            reveal_strlit(",\"max_tokens\":");
            assert(r3[0] == ",\"max_tokens\":"@[0]);
        }
        lemma_p_number_rt(st.temperature, r3);
    }
    assert(p_field_int(r3, ",\"max_tokens\":"@) == Some((st.max_tokens, r4))) by {
        lemma_p_lit(",\"max_tokens\":"@, int_digits(st.max_tokens) + r4);
        assert(r4[0] == ',' && !is_digit(',')) by {
            reveal_strlit(",\"stream\":");
            assert(r4[0] == ",\"stream\":"@[0]);
        }
        lemma_p_int_rt(st.max_tokens, r4);
    }
    assert(p_field_bool(r4, ",\"stream\":"@) == Some((st.stream, r5))) by {
        lemma_p_lit(",\"stream\":"@, ser_bool(st.stream) + r5);
        lemma_p_bool_rt(st.stream, r5);
    }
    assert(p_field_num(r5, ",\"presence_penalty\":"@) == Some((st.presence_penalty, r6))) by {
        lemma_p_lit(",\"presence_penalty\":"@, st.presence_penalty + r6);
        assert(r6[0] == ',' && !is_num_char(',')) by {
            reveal_strlit(",\"frequency_penalty\":");
            assert(r6[0] == ",\"frequency_penalty\":"@[0]);
        }
        lemma_p_number_rt(st.presence_penalty, r6);
    }
    assert(p_field_num(r6, ",\"frequency_penalty\":"@) == Some((st.frequency_penalty, r7))) by {
        lemma_p_lit(",\"frequency_penalty\":"@, st.frequency_penalty + r7);
        assert(r7[0] == ',' && !is_num_char(',')) by {
            reveal_strlit(",\"top_p\":");
            assert(r7[0] == ",\"top_p\":"@[0]);
        }
        lemma_p_number_rt(st.frequency_penalty, r7);
    }
    assert(p_field_num(r7, ",\"top_p\":"@) == Some((st.top_p, r8))) by {
        lemma_p_lit(",\"top_p\":"@, st.top_p + r8);
        assert(r8[0] == ',' && !is_num_char(',')) by {
            reveal_strlit(",\"top_k\":");
            assert(r8[0] == ",\"top_k\":"@[0]);
        }
        lemma_p_number_rt(st.top_p, r8);
    }
    assert(p_field_int(r8, ",\"top_k\":"@) == Some((st.top_k, r9))) by {
        lemma_p_lit(",\"top_k\":"@, int_digits(st.top_k) + r9);
        assert(r9[0] == ',' && !is_digit(',')) by {
            reveal_strlit(",\"transforms\":");
            assert(r9[0] == ",\"transforms\":"@[0]);
        }
        lemma_p_int_rt(st.top_k, r9);
    }
    assert(p_lit(r9, ",\"transforms\":"@) == Some(ser_str_array(st.transforms) + r10)) by {
        lemma_p_lit(",\"transforms\":"@, ser_str_array(st.transforms) + r10);
    }
    assert(p_str_array(ser_str_array(st.transforms) + r10) == Some((st.transforms, r10))) by {
        lemma_p_str_array_rt(st.transforms, r10);
    }
    assert(p_field_num(r10, ",\"min_p\":"@) == Some((st.min_p, r11))) by {
        lemma_p_lit(",\"min_p\":"@, st.min_p + r11);
        assert(r11[0] == ',' && !is_num_char(',')) by {
            reveal_strlit(",\"top_a\":");
            assert(r11[0] == ",\"top_a\":"@[0]);
        }
        lemma_p_number_rt(st.min_p, r11);
    }
    assert(p_field_num(r11, ",\"top_a\":"@) == Some((st.top_a, r12))) by {
        lemma_p_lit(",\"top_a\":"@, st.top_a + r12);
        assert(r12[0] == '}' && !is_num_char('}')) by {
            reveal_strlit("}");
            assert(r12[0] == "}"@[0]);
        }
        lemma_p_number_rt(st.top_a, r12);
    }
    assert(p_lit(r12, "}"@) == Some(Seq::<char>::empty())) by {
        assert(r12 =~= "}"@ + Seq::<char>::empty());
        lemma_p_lit("}"@, Seq::<char>::empty());
    }
    assert(RequestBodyV {
        messages: r.messages,
        settings: SettingsV {
            model: st.model,
            temperature: st.temperature,
            max_tokens: st.max_tokens,
            stream: st.stream,
            presence_penalty: st.presence_penalty,
            frequency_penalty: st.frequency_penalty,
            top_p: st.top_p,
            top_k: st.top_k,
            transforms: st.transforms,
            min_p: st.min_p,
            top_a: st.top_a,
        },
    } =~= r);
}

} // verus!
