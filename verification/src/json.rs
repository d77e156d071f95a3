//! The JSON encoding of a completion request: the exact character
//! sequence sent over the wire, defined as a spec function and produced
//! by a verified encoder.
//!
//! The encoding is the compact form documented for the completion API:
//! fixed field order, no interleaved whitespace, strings with `\"`, `\\`
//! and `\u00XX` escapes for the characters that JSON cannot carry raw.

use vstd::prelude::*;
use vstd::string::StringExecFns;
use crate::models::{RequestBody, RequestBodyV, RequestMessage, RequestMessageV};
use crate::numerals::int_digits;
use crate::numerals::push_i64_digits;
use crate::utils::chars_of;
use crate::utils::push_char;

verus! {

/// The sixteen hexadecimal digit characters.
pub open spec fn hex_digit(n: int) -> char {
    seq!['0', '1', '2', '3', '4', '5', '6', '7', '8', '9', 'a', 'b', 'c', 'd', 'e', 'f'][n]
}

/// The JSON escape of one character: quotes and backslashes are escaped,
/// control characters become `\u00XX`, everything else passes through.
pub open spec fn esc_char(c: char) -> Seq<char> {
    if c == '"' {
        seq!['\\', '"']
    } else if c == '\\' {
        seq!['\\', '\\']
    } else if (c as u32) < 32 {
        seq!['\\', 'u', '0', '0', hex_digit((c as u32) as int / 16), hex_digit((c as u32) as int % 16)]
    } else {
        seq![c]
    }
}

/// The JSON escape of a whole string body.
pub open spec fn esc(s: Seq<char>) -> Seq<char>
    decreases s.len(),
{
    if s.len() == 0 {
        Seq::<char>::empty()
    } else {
        esc_char(s[0]) + esc(s.skip(1))
    }
}

/// A JSON string: the escaped body between double quotes.
pub open spec fn ser_string(s: Seq<char>) -> Seq<char> {
    seq!['"'] + esc(s) + seq!['"']
}

/// A JSON boolean.
pub open spec fn ser_bool(b: bool) -> Seq<char> {
    if b {
        "true"@
    } else {
        "false"@
    }
}

/// One message object: `{"role":...,"content":...}`.
pub open spec fn ser_msg(m: RequestMessageV) -> Seq<char> {
    "{\"role\":"@ + ser_string(m.role) + ",\"content\":"@ + ser_string(m.content) + "}"@
}

/// The comma-separated message list.
pub open spec fn ser_msgs(ms: Seq<RequestMessageV>) -> Seq<char>
    decreases ms.len(),
{
    if ms.len() == 0 {
        Seq::<char>::empty()
    } else if ms.len() == 1 {
        ser_msg(ms[0])
    } else {
        ser_msg(ms[0]) + seq![','] + ser_msgs(ms.skip(1))
    }
}

/// The message array, brackets included.
pub open spec fn ser_msg_array(ms: Seq<RequestMessageV>) -> Seq<char> {
    seq!['['] + ser_msgs(ms) + seq![']']
}

/// The comma-separated string list.
pub open spec fn ser_strs(xs: Seq<Seq<char>>) -> Seq<char>
    decreases xs.len(),
{
    if xs.len() == 0 {
        Seq::<char>::empty()
    } else if xs.len() == 1 {
        ser_string(xs[0])
    } else {
        ser_string(xs[0]) + seq![','] + ser_strs(xs.skip(1))
    }
}

/// A string array, brackets included.
pub open spec fn ser_str_array(xs: Seq<Seq<char>>) -> Seq<char> {
    seq!['['] + ser_strs(xs) + seq![']']
}

/// The whole request document, in the documented field order.
pub open spec fn ser_request(r: RequestBodyV) -> Seq<char> {
    "{\"model\":"@ + ser_string(r.settings.model) + ",\"messages\":"@ + ser_msg_array(r.messages)
        + ",\"temperature\":"@ + r.settings.temperature + ",\"max_tokens\":"@ + int_digits(
        r.settings.max_tokens,
    ) + ",\"stream\":"@ + ser_bool(r.settings.stream) + ",\"presence_penalty\":"@
        + r.settings.presence_penalty + ",\"frequency_penalty\":"@ + r.settings.frequency_penalty
        + ",\"top_p\":"@ + r.settings.top_p + ",\"top_k\":"@ + int_digits(r.settings.top_k)
        + ",\"transforms\":"@ + ser_str_array(r.settings.transforms) + ",\"min_p\":"@
        + r.settings.min_p + ",\"top_a\":"@ + r.settings.top_a + "}"@
}

/// Splitting an escaped string after any prefix.
proof fn lemma_esc_push(s: Seq<char>, c: char)
    ensures
        esc(s.push(c)) == esc(s) + esc_char(c),
    decreases s.len(),
{
    if s.len() == 0 {
        let p = s.push(c);
        assert(p[0] == c);
        assert(p.skip(1) =~= Seq::<char>::empty());
        assert(esc(p.skip(1)) == Seq::<char>::empty());
        assert(esc(p) == esc_char(c) + esc(p.skip(1)));
        assert(esc_char(c) + Seq::<char>::empty() =~= esc_char(c));
        assert(esc(s) == Seq::<char>::empty());
        assert(esc(s) + esc_char(c) =~= esc_char(c));
    } else {
        assert(s.push(c)[0] == s[0]);
        assert(s.push(c).skip(1) =~= s.skip(1).push(c));
        lemma_esc_push(s.skip(1), c);
        assert(esc_char(s[0]) + (esc(s.skip(1)) + esc_char(c)) =~= (esc_char(s[0]) + esc(
            s.skip(1),
        )) + esc_char(c));
    }
}

fn hex_digit_char(n: u32) -> (c: char)
    requires
        n < 16,
    ensures
        c == hex_digit(n as int),
{
    let c = if n < 10 {
        (48 + n as u8) as char
    } else {
        (87 + n as u8) as char
    };
    proof {
        assert(c == hex_digit(n as int)) by {
            assert(hex_digit(n as int) == seq![
                '0', '1', '2', '3', '4', '5', '6', '7', '8', '9', 'a', 'b', 'c', 'd', 'e', 'f',
            ][n as int]);
        }
    }
    c
}

/// Appends the escaped body of `s`.
fn append_escaped(out: &mut String, s: &str)
    ensures
        final(out)@ == old(out)@ + esc(s@),
{
    let v = chars_of(s);
    let mut i: usize = 0;
    proof {
        assert(old(out)@ + esc(v@.take(0)) =~= old(out)@);
        assert(v@.take(0) =~= Seq::<char>::empty());
    }
    while i < v.len()
        invariant
            v@ == s@,
            i <= v@.len(),
            out@ == old(out)@ + esc(v@.take(i as int)),
        decreases v@.len() - i,
    {
        let c = v[i];
        let u = c as u32;
        if c == '"' {
            push_char(out, '\\');
            push_char(out, '"');
        } else if c == '\\' {
            push_char(out, '\\');
            push_char(out, '\\');
        } else if u < 32 {
            push_char(out, '\\');
            push_char(out, 'u');
            push_char(out, '0');
            push_char(out, '0');
            push_char(out, hex_digit_char(u / 16));
            push_char(out, hex_digit_char(u % 16));
        } else {
            push_char(out, c);
        }
        proof {
            assert(out@ =~= (old(out)@ + esc(v@.take(i as int))) + esc_char(v@[i as int]));
            lemma_esc_push(v@.take(i as int), v@[i as int]);
            assert(v@.take(i as int).push(v@[i as int]) =~= v@.take(i + 1));
            assert(out@ =~= old(out)@ + esc(v@.take(i + 1)));
        }
        i += 1;
    }
    proof {
        assert(v@.take(v@.len() as int) =~= v@);
    }
}

/// Appends a whole JSON string, quotes and escapes included.
fn append_json_string(out: &mut String, s: &str)
    ensures
        final(out)@ == old(out)@ + ser_string(s@),
{
    push_char(out, '"');
    append_escaped(out, s);
    push_char(out, '"');
    proof {
        assert(old(out)@ + ser_string(s@) =~= out@);
    }
}

/// Appends the decimal rendering of `v`.
fn append_i32(out: &mut String, v: i32)
    ensures
        final(out)@ == old(out)@ + int_digits(v as int),
{
    let mut tmp: Vec<char> = Vec::new();
    push_i64_digits(&mut tmp, v as i64);
    let mut i: usize = 0;
    while i < tmp.len()
        invariant
            tmp@ == int_digits(v as int),
            i <= tmp@.len(),
            out@ == old(out)@ + tmp@.take(i as int),
        decreases tmp@.len() - i,
    {
        push_char(out, tmp[i]);
        proof {
            assert(out@ =~= old(out)@ + tmp@.take(i + 1));
        }
        i += 1;
    }
    proof {
        assert(tmp@.take(tmp@.len() as int) =~= tmp@);
    }
}

/// Appends one message object.
fn append_msg(out: &mut String, m: &RequestMessage)
    ensures
        final(out)@ == old(out)@ + ser_msg(m@),
{
    out.append("{\"role\":");
    append_json_string(out, m.role.as_str());
    out.append(",\"content\":");
    append_json_string(out, m.content.as_str());
    out.append("}");
    proof {
        assert(out@ =~= old(out)@ + ser_msg(m@));
    }
}

/// Appends the message array.
fn append_msg_array(out: &mut String, ms: &Vec<RequestMessage>)
    ensures
        final(out)@ == old(out)@ + ser_msg_array(ms@.map_values(|m: RequestMessage| m@)),
{
    let ghost vms = ms@.map_values(|m: RequestMessage| m@);
    push_char(out, '[');
    proof {
        assert(out@ =~= old(out)@ + seq!['[']);
    }
    let mut i: usize = 0;
    while i < ms.len()
        invariant
            vms == ms@.map_values(|m: RequestMessage| m@),
            i <= vms.len(),
            i == 0 ==> out@ == old(out)@ + seq!['['],
            0 < i < vms.len() ==> out@ + seq![','] + ser_msgs(vms.skip(i as int)) == old(out)@
                + seq!['['] + ser_msgs(vms),
            i == vms.len() && i > 0 ==> out@ == old(out)@ + seq!['['] + ser_msgs(vms),
        decreases vms.len() - i,
    {
        if i > 0 {
            push_char(out, ',');
        }
        append_msg(out, &ms[i]);
        proof {
            assert(vms.skip(i as int)[0] == vms[i as int]);
            assert(vms.skip(i as int).skip(1) =~= vms.skip(i + 1));
            if i == 0 {
                if vms.len() == 1 {
                    assert(vms.skip(0) =~= vms);
                    assert(out@ =~= old(out)@ + seq!['['] + ser_msgs(vms));
                } else {
                    assert(vms.skip(0) =~= vms);
                    assert(ser_msgs(vms) == ser_msg(vms[0]) + seq![','] + ser_msgs(vms.skip(1)));
                    assert(out@ + seq![','] + ser_msgs(vms.skip(1)) =~= old(out)@ + seq!['[']
                        + ser_msgs(vms));
                }
            } else {
                if i + 1 == vms.len() {
                    assert(ser_msgs(vms.skip(i as int)) == ser_msg(vms[i as int]));
                    assert(out@ =~= old(out)@ + seq!['['] + ser_msgs(vms));
                } else {
                    assert(ser_msgs(vms.skip(i as int)) == ser_msg(vms[i as int]) + seq![',']
                        + ser_msgs(vms.skip(i + 1)));
                    assert(out@ + seq![','] + ser_msgs(vms.skip(i + 1)) =~= old(out)@ + seq!['[']
                        + ser_msgs(vms));
                }
            }
        }
        i += 1;
    }
    proof {
        if vms.len() == 0 {
            assert(ser_msgs(vms) =~= Seq::<char>::empty());
            assert(out@ =~= old(out)@ + seq!['['] + ser_msgs(vms));
        }
    }
    push_char(out, ']');
    proof {
        assert(out@ =~= old(out)@ + ser_msg_array(vms));
    }
}

/// Appends the transforms array.
fn append_str_array(out: &mut String, xs: &Vec<String>)
    ensures
        final(out)@ == old(out)@ + ser_str_array(xs@.map_values(|s: String| s@)),
{
    let ghost vxs = xs@.map_values(|s: String| s@);
    push_char(out, '[');
    proof {
        assert(out@ =~= old(out)@ + seq!['[']);
    }
    let mut i: usize = 0;
    while i < xs.len()
        invariant
            vxs == xs@.map_values(|s: String| s@),
            i <= vxs.len(),
            i == 0 ==> out@ == old(out)@ + seq!['['],
            0 < i < vxs.len() ==> out@ + seq![','] + ser_strs(vxs.skip(i as int)) == old(out)@
                + seq!['['] + ser_strs(vxs),
            i == vxs.len() && i > 0 ==> out@ == old(out)@ + seq!['['] + ser_strs(vxs),
        decreases vxs.len() - i,
    {
        if i > 0 {
            push_char(out, ',');
        }
        append_json_string(out, xs[i].as_str());
        proof {
            assert(vxs.skip(i as int)[0] == vxs[i as int]);
            assert(vxs.skip(i as int).skip(1) =~= vxs.skip(i + 1));
            if i == 0 {
                if vxs.len() == 1 {
                    assert(vxs.skip(0) =~= vxs);
                    assert(out@ =~= old(out)@ + seq!['['] + ser_strs(vxs));
                } else {
                    assert(vxs.skip(0) =~= vxs);
                    assert(ser_strs(vxs) == ser_string(vxs[0]) + seq![','] + ser_strs(vxs.skip(1)));
                    assert(out@ + seq![','] + ser_strs(vxs.skip(1)) =~= old(out)@ + seq!['[']
                        + ser_strs(vxs));
                }
            } else {
                if i + 1 == vxs.len() {
                    assert(ser_strs(vxs.skip(i as int)) == ser_string(vxs[i as int]));
                    assert(out@ =~= old(out)@ + seq!['['] + ser_strs(vxs));
                } else {
                    assert(ser_strs(vxs.skip(i as int)) == ser_string(vxs[i as int]) + seq![',']
                        + ser_strs(vxs.skip(i + 1)));
                    assert(out@ + seq![','] + ser_strs(vxs.skip(i + 1)) =~= old(out)@ + seq!['[']
                        + ser_strs(vxs));
                }
            }
        }
        i += 1;
    }
    proof {
        if vxs.len() == 0 {
            assert(ser_strs(vxs) =~= Seq::<char>::empty());
            assert(out@ =~= old(out)@ + seq!['['] + ser_strs(vxs));
        }
    }
    push_char(out, ']');
    proof {
        assert(out@ =~= old(out)@ + ser_str_array(vxs));
    }
}

/// Serializes a request into the exact JSON document that the completion
/// API documents, compact, in fixed field order.
pub fn serialize_request(r: &RequestBody) -> (out: String)
    ensures
        out@ == ser_request(r@),
{
    let mut out = String::new();
    out.append("{\"model\":");
    append_json_string(&mut out, r.settings.model.as_str());
    out.append(",\"messages\":");
    append_msg_array(&mut out, &r.messages);
    out.append(",\"temperature\":");
    out.append(r.settings.temperature.text.as_str());
    out.append(",\"max_tokens\":");
    append_i32(&mut out, r.settings.max_tokens);
    out.append(",\"stream\":");
    if r.settings.stream {
        out.append("true");
    } else {
        out.append("false");
    }
    out.append(",\"presence_penalty\":");
    out.append(r.settings.presence_penalty.text.as_str());
    out.append(",\"frequency_penalty\":");
    out.append(r.settings.frequency_penalty.text.as_str());
    out.append(",\"top_p\":");
    out.append(r.settings.top_p.text.as_str());
    out.append(",\"top_k\":");
    append_i32(&mut out, r.settings.top_k);
    out.append(",\"transforms\":");
    append_str_array(&mut out, &r.settings.transforms);
    out.append(",\"min_p\":");
    out.append(r.settings.min_p.text.as_str());
    out.append(",\"top_a\":");
    out.append(r.settings.top_a.text.as_str());
    out.append("}");
    proof {
        assert(out@ =~= ser_request(r@));
    }
    out
}

} // verus!
