//! Character-sequence helpers shared by the prompt builder and the JSON
//! codec: substring occurrence, whitespace trimming, mention stripping, and
//! conversions between `String` and `Vec<char>`.

use vstd::prelude::*;
use vstd::string::StrSliceExecFns;

verus! {

/// True when `needle` occurs in `hay` starting at index `i`.
pub open spec fn occurs_at(hay: Seq<char>, needle: Seq<char>, i: int) -> bool {
    &&& 0 <= i
    &&& i + needle.len() <= hay.len()
    &&& hay.subrange(i, i + needle.len() as int) == needle
}

/// True when `needle` occurs somewhere in `hay`.
pub open spec fn occurs(hay: Seq<char>, needle: Seq<char>) -> bool {
    exists|i: int| occurs_at(hay, needle, i)
}

/// The characters that trimming removes from either end of a message:
/// the Unicode White_Space set, the one `str::trim` goes by.
pub open spec fn is_ws(c: char) -> bool {
    ||| c == '\u{0009}'
    ||| c == '\u{000A}'
    ||| c == '\u{000B}'
    ||| c == '\u{000C}'
    ||| c == '\u{000D}'
    ||| c == ' '
    ||| c == '\u{0085}'
    ||| c == '\u{00A0}'
    ||| c == '\u{1680}'
    ||| c == '\u{2000}'
    ||| c == '\u{2001}'
    ||| c == '\u{2002}'
    ||| c == '\u{2003}'
    ||| c == '\u{2004}'
    ||| c == '\u{2005}'
    ||| c == '\u{2006}'
    ||| c == '\u{2007}'
    ||| c == '\u{2008}'
    ||| c == '\u{2009}'
    ||| c == '\u{200A}'
    ||| c == '\u{2028}'
    ||| c == '\u{2029}'
    ||| c == '\u{202F}'
    ||| c == '\u{205F}'
    ||| c == '\u{3000}'
}

/// Length of the longest all-whitespace prefix of `s`.
pub open spec fn ws_prefix_len(s: Seq<char>) -> int
    decreases s.len(),
{
    if s.len() > 0 && is_ws(s[0]) {
        1 + ws_prefix_len(s.skip(1))
    } else {
        0
    }
}

/// Length of the longest all-whitespace suffix of `s`.
pub open spec fn ws_suffix_len(s: Seq<char>) -> int
    decreases s.len(),
{
    if s.len() > 0 && is_ws(s[s.len() - 1]) {
        1 + ws_suffix_len(s.drop_last())
    } else {
        0
    }
}

/// `s` with leading and trailing whitespace removed.
pub open spec fn spec_trim(s: Seq<char>) -> Seq<char> {
    let a = ws_prefix_len(s);
    let b = s.len() - ws_suffix_len(s);
    if a < b {
        s.subrange(a, b)
    } else {
        Seq::<char>::empty()
    }
}

/// One left-to-right pass over `hay` that drops each occurrence of `tok`
/// it meets: whenever `tok` is a prefix of what is left, it is skipped,
/// otherwise one character is kept.
pub open spec fn scan_strip(hay: Seq<char>, tok: Seq<char>) -> Seq<char>
    decreases hay.len(),
{
    if tok.len() == 0 || hay.len() == 0 {
        hay
    } else if hay.len() >= tok.len() && hay.take(tok.len() as int) == tok {
        scan_strip(hay.skip(tok.len() as int), tok)
    } else {
        seq![hay[0]] + scan_strip(hay.skip(1), tok)
    }
}

pub proof fn lemma_scan_strip_len(hay: Seq<char>, tok: Seq<char>)
    ensures
        scan_strip(hay, tok).len() <= hay.len(),
    decreases hay.len(),
{
    if tok.len() == 0 || hay.len() == 0 {
    } else if hay.len() >= tok.len() && hay.take(tok.len() as int) == tok {
        lemma_scan_strip_len(hay.skip(tok.len() as int), tok);
    } else {
        lemma_scan_strip_len(hay.skip(1), tok);
    }
}

/// A pass over a sequence that holds an occurrence of a nonempty `tok`
/// shortens it by at least `tok.len()`.
pub proof fn lemma_scan_strip_occurs(hay: Seq<char>, tok: Seq<char>)
    requires
        tok.len() > 0,
        occurs(hay, tok),
    ensures
        scan_strip(hay, tok).len() + tok.len() <= hay.len(),
    decreases hay.len(),
{
    let i = choose|i: int| occurs_at(hay, tok, i);
    if hay.len() >= tok.len() && hay.take(tok.len() as int) == tok {
        lemma_scan_strip_len(hay.skip(tok.len() as int), tok);
    } else {
        assert(hay.take(tok.len() as int) != tok);
        assert(i != 0) by {
            if i == 0 {
                assert(hay.subrange(0, tok.len() as int) =~= hay.take(tok.len() as int));
            }
        }
        assert(occurs_at(hay.skip(1), tok, i - 1)) by {
            assert(hay.skip(1).subrange(i - 1, i - 1 + tok.len() as int) =~= hay.subrange(
                i,
                i + tok.len() as int,
            ));
        }
        lemma_scan_strip_occurs(hay.skip(1), tok);
    }
}

/// A pass over a sequence with no occurrence of `tok` leaves it unchanged.
pub proof fn lemma_scan_strip_id(hay: Seq<char>, tok: Seq<char>)
    requires
        !occurs(hay, tok),
    ensures
        scan_strip(hay, tok) == hay,
    decreases hay.len(),
{
    if tok.len() == 0 {
        assert(occurs_at(hay, tok, 0)) by {
            assert(hay.subrange(0, 0) =~= tok);
        }
    } else if hay.len() == 0 {
    } else if hay.len() >= tok.len() && hay.take(tok.len() as int) == tok {
        assert(occurs_at(hay, tok, 0)) by {
            assert(hay.subrange(0, tok.len() as int) =~= hay.take(tok.len() as int));
        }
    } else {
        assert(!occurs(hay.skip(1), tok)) by {
            if occurs(hay.skip(1), tok) {
                let j = choose|j: int| occurs_at(hay.skip(1), tok, j);
                assert(occurs_at(hay, tok, j + 1)) by {
                    assert(hay.subrange(j + 1, j + 1 + tok.len() as int) =~= hay.skip(
                        1,
                    ).subrange(j, j + tok.len() as int));
                }
            }
        }
        lemma_scan_strip_id(hay.skip(1), tok);
        assert(seq![hay[0]] + hay.skip(1) =~= hay);
    }
}

/// Strips every occurrence of `tok` from `hay`: passes run until none is
/// left, so the result never holds `tok`, even where one removal lays bare
/// a new occurrence.
pub open spec fn spec_strip(hay: Seq<char>, tok: Seq<char>) -> Seq<char>
    decreases hay.len(),
{
    if tok.len() == 0 {
        hay
    } else if occurs(hay, tok) {
        proof {
            lemma_scan_strip_occurs(hay, tok);
        }
        spec_strip(scan_strip(hay, tok), tok)
    } else {
        hay
    }
}

/// What the message formatter returns: the raw text with every occurrence
/// of the mention token stripped, then trimmed.
pub open spec fn spec_format_msg(msg: Seq<char>, tok: Seq<char>) -> Seq<char> {
    spec_trim(spec_strip(msg, tok))
}

pub proof fn lemma_ws_prefix_bounds(s: Seq<char>)
    ensures
        0 <= ws_prefix_len(s) <= s.len(),
    decreases s.len(),
{
    if s.len() > 0 && is_ws(s[0]) {
        lemma_ws_prefix_bounds(s.skip(1));
    }
}

pub proof fn lemma_ws_suffix_bounds(s: Seq<char>)
    ensures
        0 <= ws_suffix_len(s) <= s.len(),
    decreases s.len(),
{
    if s.len() > 0 && is_ws(s[s.len() - 1]) {
        lemma_ws_suffix_bounds(s.drop_last());
    }
}

/// The whitespace prefix length is the index of the first non-whitespace
/// character.
proof fn lemma_ws_prefix_from(s: Seq<char>, i: int)
    requires
        0 <= i <= s.len(),
        forall|j: int| 0 <= j < i ==> is_ws(s[j]),
        i == s.len() || !is_ws(s[i]),
    ensures
        ws_prefix_len(s) == i,
    decreases i,
{
    if i == 0 {
    } else {
        assert(is_ws(s[0]));
        lemma_ws_prefix_from(s.skip(1), i - 1);
    }
}

/// The whitespace suffix length is the count of trailing whitespace
/// characters.
proof fn lemma_ws_suffix_from(s: Seq<char>, k: int)
    requires
        0 <= k <= s.len(),
        forall|j: int| s.len() - k <= j < s.len() ==> is_ws(s[j]),
        k == s.len() || !is_ws(s[s.len() - k - 1]),
    ensures
        ws_suffix_len(s) == k,
    decreases k,
{
    if k == 0 {
    } else {
        assert(is_ws(s[s.len() - 1]));
        lemma_ws_suffix_from(s.drop_last(), k - 1);
    }
}

/// Stripping a nonempty token leaves a sequence in which the token no
/// longer occurs, whatever the input: passes repeat until none is left.
pub proof fn lemma_strip_free(hay: Seq<char>, tok: Seq<char>)
    requires
        tok.len() > 0,
    ensures
        !occurs(spec_strip(hay, tok), tok),
    decreases hay.len(),
{
    if occurs(hay, tok) {
        lemma_scan_strip_occurs(hay, tok);
        lemma_strip_free(scan_strip(hay, tok), tok);
    }
}

/// Trimming cannot introduce an occurrence of a nonempty token: the
/// trimmed text is a contiguous part of the original.
pub proof fn lemma_trim_preserves_absence(s: Seq<char>, tok: Seq<char>)
    requires
        tok.len() > 0,
        !occurs(s, tok),
    ensures
        !occurs(spec_trim(s), tok),
{
    if occurs(spec_trim(s), tok) {
        let i = choose|i: int| occurs_at(spec_trim(s), tok, i);
        let a = ws_prefix_len(s);
        let b = s.len() - ws_suffix_len(s);
        lemma_ws_prefix_bounds(s);
        lemma_ws_suffix_bounds(s);
        if a < b {
            assert(occurs_at(s, tok, a + i)) by {
                assert(s.subrange(a + i, a + i + tok.len() as int) =~= s.subrange(
                    a,
                    b,
                ).subrange(i, i + tok.len() as int));
            }
        }
    }
}

/// The formatted message never holds the mention token, for every raw
/// text and every nonempty token.
pub proof fn lemma_format_msg_strips_mention(msg: Seq<char>, tok: Seq<char>)
    requires
        tok.len() > 0,
    ensures
        !occurs(spec_format_msg(msg, tok), tok),
{
    lemma_strip_free(msg, tok);
    lemma_trim_preserves_absence(spec_strip(msg, tok), tok);
}

/// A raw text in which the mention token does not occur passes through
/// unchanged but for trimming.
pub proof fn lemma_format_msg_untouched(msg: Seq<char>, tok: Seq<char>)
    requires
        !occurs(msg, tok),
    ensures
        spec_format_msg(msg, tok) == spec_trim(msg),
{
    assert(tok.len() > 0) by {
        if tok.len() == 0 {
            assert(occurs_at(msg, tok, 0)) by {
                assert(msg.subrange(0, 0) =~= tok);
            }
        }
    }
}

/// Relies on `String::push`: appends one character at the end of the
/// string.
#[verifier::external_body]
pub(crate) fn push_char(s: &mut String, c: char)
    ensures
        final(s)@ == old(s)@.push(c),
{
    s.push(c)
}

/// The characters of `s`, as a vector.
pub fn chars_of(s: &str) -> (v: Vec<char>)
    ensures
        v@ == s@,
{
    let n: usize = s.unicode_len();
    let mut v: Vec<char> = Vec::new();
    let mut i: usize = 0;
    while i < n
        invariant
            n == s@.len(),
            i <= n,
            v@ == s@.subrange(0, i as int),
        decreases n - i,
    {
        let c = s.get_char(i);
        v.push(c);
        proof {
            assert(v@ =~= s@.subrange(0, i + 1 as int));
        }
        i += 1;
    }
    proof {
        assert(s@.subrange(0, n as int) =~= s@);
    }
    v
}

/// A string holding exactly the characters of `v`.
pub fn string_from_chars(v: &Vec<char>) -> (s: String)
    ensures
        s@ == v@,
{
    let mut s = String::new();
    let mut i: usize = 0;
    while i < v.len()
        invariant
            i <= v@.len(),
            s@ == v@.subrange(0, i as int),
        decreases v@.len() - i,
    {
        push_char(&mut s, v[i]);
        proof {
            assert(s@ =~= v@.subrange(0, i + 1 as int));
        }
        i += 1;
    }
    proof {
        assert(v@.subrange(0, v@.len() as int) =~= v@);
    }
    s
}

/// A fresh vector holding copies of the same strings.
pub fn clone_strings(v: &Vec<String>) -> (out: Vec<String>)
    ensures
        out@ == v@,
{
    let mut out: Vec<String> = Vec::new();
    let mut i: usize = 0;
    while i < v.len()
        invariant
            i <= v@.len(),
            out@ == v@.subrange(0, i as int),
        decreases v@.len() - i,
    {
        out.push(v[i].clone());
        proof {
            assert(out@ =~= v@.subrange(0, i + 1 as int));
        }
        i += 1;
    }
    proof {
        assert(v@.subrange(0, v@.len() as int) =~= v@);
    }
    out
}

/// Appends every character of `piece` to `out`.
pub(crate) fn push_all(out: &mut Vec<char>, piece: &Vec<char>)
    ensures
        final(out)@ == old(out)@ + piece@,
{
    let mut i: usize = 0;
    while i < piece.len()
        invariant
            i <= piece@.len(),
            out@ == old(out)@ + piece@.subrange(0, i as int),
        decreases piece@.len() - i,
    {
        out.push(piece[i]);
        proof {
            assert(out@ =~= old(out)@ + piece@.subrange(0, i + 1 as int));
        }
        i += 1;
    }
    proof {
        assert(old(out)@ + piece@.subrange(0, piece@.len() as int) =~= old(out)@ + piece@);
    }
}

fn ws_char(c: char) -> (b: bool)
    ensures
        b == is_ws(c),
{
    let u = c as u32;
    (9 <= u && u <= 13) || c == ' ' || u == 0x85 || u == 0xA0 || u == 0x1680 || (0x2000 <= u
        && u <= 0x200A) || u == 0x2028 || u == 0x2029 || u == 0x202F || u == 0x205F || u == 0x3000
}

/// True when `tok` occurs in `v` at index `i`.
pub(crate) fn match_at(v: &Vec<char>, tok: &Vec<char>, i: usize) -> (b: bool)
    requires
        i <= v@.len(),
    ensures
        b == occurs_at(v@, tok@, i as int),
{
    let vn: usize = v.len();
    let tn: usize = tok.len();
    if vn - i < tn {
        return false;
    }
    let mut j: usize = 0;
    while j < tn
        invariant
            vn == v@.len(),
            tn == tok@.len(),
            i + tn <= vn,
            j <= tn,
            forall|k: int| 0 <= k < j ==> v@[i + k] == tok@[k],
        decreases tn - j,
    {
        if v[i + j] != tok[j] {
            assert(v@.subrange(i as int, i + tok@.len() as int)[j as int] != tok@[j as int]);
            return false;
        }
        j += 1;
    }
    assert(v@.subrange(i as int, i + tok@.len() as int) =~= tok@);
    true
}

/// One stripping pass: copies `v` but skips each occurrence of `tok` met
/// on the way.
fn scan_pass(v: &Vec<char>, tok: &Vec<char>) -> (out: Vec<char>)
    requires
        tok@.len() > 0,
    ensures
        out@ == scan_strip(v@, tok@),
{
    let mut out: Vec<char> = Vec::new();
    let mut i: usize = 0;
    proof {
        assert(v@.skip(0) =~= v@);
        assert(Seq::<char>::empty() + scan_strip(v@, tok@) =~= scan_strip(v@, tok@));
    }
    while i < v.len()
        invariant
            tok@.len() > 0,
            i <= v@.len(),
            scan_strip(v@, tok@) == out@ + scan_strip(v@.skip(i as int), tok@),
        decreases v@.len() - i,
    {
        if match_at(v, tok, i) {
            proof {
                assert(v@.skip(i as int).take(tok@.len() as int) =~= v@.subrange(
                    i as int,
                    i + tok@.len() as int,
                ));
                assert(v@.skip(i as int).skip(tok@.len() as int) =~= v@.skip(
                    i + tok@.len() as int,
                ));
            }
            i += tok.len();
        } else {
            let ghost pre = out@;
            out.push(v[i]);
            proof {
                assert(v@.skip(i as int).len() > 0);
                assert(v@.skip(i as int)[0] == v@[i as int]);
                if v@.skip(i as int).len() >= tok@.len() && v@.skip(i as int).take(
                    tok@.len() as int,
                ) == tok@ {
                    assert(occurs_at(v@, tok@, i as int)) by {
                        assert(v@.subrange(i as int, i + tok@.len() as int) =~= v@.skip(
                            i as int,
                        ).take(tok@.len() as int));
                    }
                }
                assert(v@.skip(i as int).skip(1) =~= v@.skip(i + 1));
                assert(scan_strip(v@.skip(i as int), tok@) == seq![v@[i as int]] + scan_strip(
                    v@.skip(i + 1),
                    tok@,
                ));
                assert(out@ + scan_strip(v@.skip(i + 1), tok@) =~= pre + scan_strip(
                    v@.skip(i as int),
                    tok@,
                ));
            }
            i += 1;
        }
    }
    proof {
        assert(v@.skip(v@.len() as int).len() == 0);
        assert(out@ + scan_strip(v@.skip(i as int), tok@) =~= out@);
    }
    out
}

/// Strips every occurrence of `tok` from `v`, repeating passes until none
/// is left.
pub fn strip_chars(v: Vec<char>, tok: &Vec<char>) -> (out: Vec<char>)
    ensures
        out@ == spec_strip(v@, tok@),
{
    if tok.len() == 0 {
        return v;
    }
    let ghost orig = v@;
    let mut cur = v;
    loop
        invariant
            tok@.len() > 0,
            spec_strip(cur@, tok@) == spec_strip(orig, tok@),
        ensures
            spec_strip(cur@, tok@) == spec_strip(orig, tok@),
            !occurs(cur@, tok@),
        decreases cur@.len(),
    {
        let next = scan_pass(&cur, tok);
        if next.len() == cur.len() {
            proof {
                if occurs(cur@, tok@) {
                    lemma_scan_strip_occurs(cur@, tok@);
                }
            }
            break;
        }
        proof {
            if !occurs(cur@, tok@) {
                lemma_scan_strip_id(cur@, tok@);
            }
            lemma_scan_strip_len(cur@, tok@);
        }
        cur = next;
    }
    cur
}

/// Strips every occurrence of the bot's mention token from a raw message
/// text, then trims surrounding whitespace.
pub fn format_msg(msg: &str, mention: &str) -> (r: String)
    ensures
        r@ == spec_format_msg(msg@, mention@),
{
    let v = chars_of(msg);
    let tok = chars_of(mention);
    let stripped = strip_chars(v, &tok);
    let trimmed = trim_chars(&stripped);
    string_from_chars(&trimmed)
}

/// Removes leading and trailing whitespace.
pub fn trim_chars(v: &Vec<char>) -> (out: Vec<char>)
    ensures
        out@ == spec_trim(v@),
{
    let n: usize = v.len();
    let mut a: usize = 0;
    while a < n && ws_char(v[a])
        invariant
            n == v@.len(),
            a <= n,
            forall|j: int| 0 <= j < a ==> is_ws(v@[j]),
        decreases n - a,
    {
        a += 1;
    }
    proof {
        lemma_ws_prefix_from(v@, a as int);
    }
    let mut b: usize = n;
    while b > 0 && ws_char(v[b - 1])
        invariant
            n == v@.len(),
            b <= n,
            forall|j: int| b <= j < n ==> is_ws(v@[j]),
        decreases b,
    {
        b -= 1;
    }
    proof {
        lemma_ws_suffix_from(v@, (n - b) as int);
    }
    let mut out: Vec<char> = Vec::new();
    if a < b {
        let mut i: usize = a;
        while i < b
            invariant
                a <= i <= b <= v@.len(),
                out@ == v@.subrange(a as int, i as int),
            decreases b - i,
        {
            out.push(v[i]);
            proof {
                assert(out@ =~= v@.subrange(a as int, i + 1 as int));
            }
            i += 1;
        }
    }
    out
}

} // verus!
