//! Decimal numerals: digit sequences for integers, and the shape of the
//! plain decimal numerals (an optional sign, digits, an optional fraction)
//! that carry the sampling parameters.

use vstd::prelude::*;

verus! {

/// True for the characters `'0'` to `'9'`.
pub open spec fn is_digit(c: char) -> bool {
    48 <= c as int && c as int <= 57
}

/// The value of a digit character.
pub open spec fn digit_val(c: char) -> int {
    c as int - 48
}

/// True when every character of `s` is a digit.
pub open spec fn all_digits(s: Seq<char>) -> bool {
    forall|i: int| 0 <= i < s.len() ==> is_digit(s[i])
}

/// The decimal digits of `n`, most significant first, with no leading
/// zero except for `n == 0` itself.
pub open spec fn dec_digits(n: nat) -> Seq<char>
    decreases n,
{
    if n < 10 {
        seq![((48 + n) as char)]
    } else {
        dec_digits(n / 10).push(((48 + n % 10) as char))
    }
}

/// The value of a digit sequence read as a decimal numeral.
pub open spec fn digits_val(s: Seq<char>) -> int
    decreases s.len(),
{
    if s.len() == 0 {
        0
    } else {
        digits_val(s.drop_last()) * 10 + digit_val(s.last())
    }
}

/// The digits of an integer: a minus sign first where it is negative.
pub open spec fn int_digits(v: int) -> Seq<char> {
    if v < 0 {
        seq!['-'] + dec_digits((-v) as nat)
    } else {
        dec_digits(v as nat)
    }
}

/// Ten to the `k`.
pub open spec fn pow10(k: nat) -> nat
    decreases k,
{
    if k == 0 {
        1
    } else {
        10 * pow10((k - 1) as nat)
    }
}

/// Rendering an integer and reading the digits back returns the integer.
pub proof fn lemma_dec_digits(n: nat)
    ensures
        dec_digits(n).len() >= 1,
        all_digits(dec_digits(n)),
        digits_val(dec_digits(n)) == n,
    decreases n,
{
    if n < 10 {
        let c = (48 + n) as char;
        assert(c as int == 48 + n);
        assert(digits_val(Seq::<char>::empty()) == 0);
        assert(seq![c].drop_last() =~= Seq::<char>::empty());
        assert(seq![c].last() == c);
        assert(digits_val(seq![c]) == digit_val(c));
    } else {
        lemma_dec_digits(n / 10);
        let c = ((48 + n % 10) as char);
        assert(c as int == 48 + n % 10);
        let d = dec_digits(n / 10);
        assert(d.push(c).drop_last() =~= d);
        assert(d.push(c).last() == c);
        assert(forall|i: int|
            0 <= i < d.push(c).len() ==> is_digit(#[trigger] d.push(c)[i]));
        assert(digits_val(d.push(c)) == (n / 10) * 10 + n % 10);
        assert((n / 10) * 10 + n % 10 == n) by (nonlinear_arith);
    }
}

/// A numeral of a value under `pow10(k)` has at most `k` digits.
pub proof fn lemma_dec_digits_len(n: nat, k: nat)
    requires
        k >= 1,
        n < pow10(k),
    ensures
        dec_digits(n).len() <= k,
    decreases k,
{
    if n < 10 {
    } else {
        assert(k >= 2) by {
            if k == 1 {
                assert(pow10(0) == 1);
                assert(pow10(1) == 10);
            }
        }
        assert(pow10(k) == 10 * pow10((k - 1) as nat));
        assert(n / 10 < pow10((k - 1) as nat)) by (nonlinear_arith)
            requires
                n < 10 * pow10((k - 1) as nat),
                n >= 10,
        ;
        lemma_dec_digits_len(n / 10, (k - 1) as nat);
    }
}

/// Length of the longest all-digit prefix of `s`.
pub open spec fn digits_prefix_len(s: Seq<char>) -> int
    decreases s.len(),
{
    if s.len() > 0 && is_digit(s[0]) {
        1 + digits_prefix_len(s.skip(1))
    } else {
        0
    }
}

pub proof fn lemma_digits_prefix_bounds(s: Seq<char>)
    ensures
        0 <= digits_prefix_len(s) <= s.len(),
    decreases s.len(),
{
    if s.len() > 0 && is_digit(s[0]) {
        lemma_digits_prefix_bounds(s.skip(1));
    }
}

/// Every character inside the digit prefix is a digit.
pub proof fn lemma_digits_prefix_digits(s: Seq<char>)
    ensures
        forall|j: int| 0 <= j < digits_prefix_len(s) ==> is_digit(s[j]),
    decreases s.len(),
{
    if s.len() > 0 && is_digit(s[0]) {
        lemma_digits_prefix_digits(s.skip(1));
        lemma_digits_prefix_bounds(s);
        assert forall|j: int| 0 <= j < digits_prefix_len(s) implies is_digit(s[j]) by {
            if j >= 1 {
                assert(s[j] == s.skip(1)[j - 1]);
            }
        }
    }
}

/// The digit prefix of an all-digit sequence followed by a non-digit (or
/// nothing) is exactly the all-digit part.
pub proof fn lemma_digits_prefix_concat(a: Seq<char>, b: Seq<char>)
    requires
        all_digits(a),
        b.len() == 0 || !is_digit(b[0]),
    ensures
        digits_prefix_len(a + b) == a.len(),
    decreases a.len(),
{
    if a.len() == 0 {
        assert(a + b =~= b);
    } else {
        assert((a + b)[0] == a[0]);
        assert((a + b).skip(1) =~= a.skip(1) + b);
        lemma_digits_prefix_concat(a.skip(1), b);
    }
}

/// The digit prefix length, computed from a given index: all digits up to
/// the exit point, which is the end or a non-digit.
pub proof fn lemma_digits_prefix_from(s: Seq<char>, i: int)
    requires
        0 <= i <= s.len(),
        forall|j: int| 0 <= j < i ==> is_digit(s[j]),
        i == s.len() || !is_digit(s[i]),
    ensures
        digits_prefix_len(s) == i,
    decreases i,
{
    if i == 0 {
    } else {
        assert(is_digit(s[0]));
        lemma_digits_prefix_from(s.skip(1), i - 1);
    }
}

/// The shape of a plain decimal numeral: an optional minus sign, at least
/// one digit, then optionally a dot and at least one more digit.
pub open spec fn is_valid_number(t: Seq<char>) -> bool {
    let u = if t.len() > 0 && t[0] == '-' {
        t.skip(1)
    } else {
        t
    };
    let k = digits_prefix_len(u);
    k >= 1 && (k == u.len() || (k + 1 < u.len() && u[k] == '.' && digits_prefix_len(
        u.skip(k + 1),
    ) == u.len() - (k + 1)))
}

/// The characters a numeral may hold.
pub open spec fn is_num_char(c: char) -> bool {
    is_digit(c) || c == '-' || c == '.'
}

/// A well-shaped numeral holds numeral characters only.
pub proof fn lemma_valid_number_chars(t: Seq<char>)
    requires
        is_valid_number(t),
    ensures
        t.len() >= 1,
        forall|i: int| 0 <= i < t.len() ==> is_num_char(#[trigger] t[i]),
{
    let u = if t.len() > 0 && t[0] == '-' {
        t.skip(1)
    } else {
        t
    };
    let off: int = if t.len() > 0 && t[0] == '-' {
        1
    } else {
        0
    };
    let k = digits_prefix_len(u);
    lemma_digits_prefix_bounds(u);
    lemma_digits_prefix_digits(u);
    lemma_digits_prefix_bounds(u.skip(k + 1));
    lemma_digits_prefix_digits(u.skip(k + 1));
    assert forall|i: int| 0 <= i < t.len() implies is_num_char(#[trigger] t[i]) by {
        if i == 0 && off == 1 {
        } else {
            let j = i - off;
            assert(t[i] == u[j]);
            if j < k {
            } else if k == u.len() {
            } else if j == k {
            } else {
                assert(u[j] == u.skip(k + 1)[j - (k + 1)]);
            }
        }
    }
}

fn digit_char(c: char) -> (b: bool)
    ensures
        b == is_digit(c),
{
    let u = c as u32;
    48 <= u && u <= 57
}

/// The index where the run of digits starting at `from` ends.
pub fn digits_run(v: &Vec<char>, from: usize) -> (j: usize)
    requires
        from <= v@.len(),
    ensures
        from <= j <= v@.len(),
        digits_prefix_len(v@.skip(from as int)) == j - from,
        forall|k: int| from <= k < j ==> is_digit(v@[k]),
        j == v@.len() || !is_digit(v@[j as int]),
{
    let n: usize = v.len();
    let mut j: usize = from;
    while j < n && digit_char(v[j])
        invariant
            n == v@.len(),
            from <= j <= n,
            forall|k: int| from <= k < j ==> is_digit(v@[k]),
        decreases n - j,
    {
        j += 1;
    }
    proof {
        assert forall|k: int| 0 <= k < j - from implies is_digit(v@.skip(from as int)[k]) by {
            assert(v@.skip(from as int)[k] == v@[from + k]);
        }
        lemma_digits_prefix_from(v@.skip(from as int), j - from);
    }
    j
}

/// Checks the numeral shape of `v`.
pub fn check_number_chars(v: &Vec<char>) -> (b: bool)
    ensures
        b == is_valid_number(v@),
{
    let n: usize = v.len();
    let start: usize = if n > 0 && v[0] == '-' {
        1
    } else {
        0
    };
    proof {
        if start == 1 {
        } else {
            assert(v@.skip(0) =~= v@);
        }
    }
    let ghost u = if start == 1 {
        v@.skip(1)
    } else {
        v@
    };
    let k = digits_run(v, start);
    proof {
        assert(u =~= v@.skip(start as int));
    }
    if k == start {
        return false;
    }
    if k == n {
        return true;
    }
    if v[k] == '.' {
        if k + 1 >= n {
            return false;
        }
        let j = digits_run(v, k + 1);
        proof {
            assert(u.skip((k - start) + 1) =~= v@.skip(k + 1 as int));
            assert(u[(k - start) as int] == v@[k as int]);
        }
        j == n
    } else {
        proof {
            assert(u[(k - start) as int] == v@[k as int]);
        }
        false
    }
}

/// Appends the decimal digits of `n` to `out`.
pub fn push_u64_digits(out: &mut Vec<char>, n: u64)
    ensures
        final(out)@ == old(out)@ + dec_digits(n as nat),
    decreases n,
{
    if n < 10 {
        let c = (48 + n as u8) as char;
        out.push(c);
        proof {
            assert(c == ((48 + n as nat) as char));
            assert(out@ =~= old(out)@ + dec_digits(n as nat));
        }
    } else {
        let ghost mid = out@;
        push_u64_digits(out, n / 10);
        let c = (48 + (n % 10) as u8) as char;
        out.push(c);
        proof {
            assert(c == ((48 + (n as nat) % 10) as char));
            assert(out@ =~= mid + dec_digits(n as nat));
        }
    }
}

/// Appends the decimal rendering of `v`, sign included.
pub fn push_i64_digits(out: &mut Vec<char>, v: i64)
    requires
        v > i64::MIN,
    ensures
        final(out)@ == old(out)@ + int_digits(v as int),
    decreases v,
{
    if v < 0 {
        out.push('-');
        let m = (-v) as u64;
        let ghost mid = out@;
        push_u64_digits(out, m);
        proof {
            assert(out@ =~= old(out)@ + int_digits(v as int));
        }
    } else {
        push_u64_digits(out, v as u64);
    }
}

} // verus!
