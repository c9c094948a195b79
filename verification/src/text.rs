//! Decimal text: what a number looks like in digits, what a run of digits
//! is worth, and the `HH:MM:SS` clock form the timer displays.

use vstd::prelude::*;

verus! {

pub open spec fn is_digit(c: char) -> bool {
    '0' <= c <= '9'
}

/// The numeric worth of one digit character.
pub open spec fn digit_val(c: char) -> int {
    c as int - '0' as int
}

/// The digit character for a value below ten.
pub open spec fn digit_char(d: int) -> char {
    if d == 0 {
        '0'
    } else if d == 1 {
        '1'
    } else if d == 2 {
        '2'
    } else if d == 3 {
        '3'
    } else if d == 4 {
        '4'
    } else if d == 5 {
        '5'
    } else if d == 6 {
        '6'
    } else if d == 7 {
        '7'
    } else if d == 8 {
        '8'
    } else {
        '9'
    }
}

/// The canonical decimal rendering of a non-negative number.
pub open spec fn dec_of(n: int) -> Seq<char>
    decreases n,
{
    if n < 10 {
        seq![digit_char(n)]
    } else {
        dec_of(n / 10).push(digit_char(n % 10))
    }
}

/// The value of a digit string, most significant digit first.
pub open spec fn digits_val(s: Seq<char>) -> int
    decreases s.len(),
{
    if s.len() == 0 {
        0
    } else {
        digits_val(s.drop_last()) * 10 + digit_val(s.last())
    }
}

pub open spec fn all_digits(s: Seq<char>) -> bool {
    forall|i: int| 0 <= i < s.len() ==> is_digit(#[trigger] s[i])
}

/// Length of the run of digits that starts at `from`.
pub open spec fn digit_run(s: Seq<char>, from: int) -> int
    decreases s.len() - from,
{
    if from < 0 || from >= s.len() || !is_digit(s[from]) {
        0
    } else {
        1 + digit_run(s, from + 1)
    }
}

pub open spec fn pow10(k: nat) -> int
    decreases k,
{
    if k == 0 {
        1
    } else {
        10 * pow10((k - 1) as nat)
    }
}

/// A number zero-padded to at least two digits.
pub open spec fn pad2_of(n: int) -> Seq<char> {
    if 0 <= n < 10 {
        seq!['0'] + dec_of(n)
    } else {
        dec_of(n)
    }
}

/// `HH:MM:SS`, hours growing past two digits when needed.
pub open spec fn time_text(t: int) -> Seq<char> {
    pad2_of(t / 3600) + seq![':'] + pad2_of((t % 3600) / 60) + seq![':'] + pad2_of(t % 60)
}

pub proof fn lemma_dec_of_digits(n: int)
    requires
        n >= 0,
    ensures
        all_digits(dec_of(n)),
        dec_of(n).len() >= 1,
    decreases n,
{
    if n >= 10 {
        lemma_dec_of_digits(n / 10);
        assert forall|i: int| 0 <= i < dec_of(n).len() implies is_digit(#[trigger] dec_of(n)[i]) by {
            if i < dec_of(n).len() - 1 {
                assert(dec_of(n)[i] == dec_of(n / 10)[i]);
            }
        }
    }
}

pub proof fn lemma_dec_of_len(n: int, k: nat)
    requires
        0 <= n < pow10(k),
        k >= 1,
    ensures
        1 <= dec_of(n).len() <= k,
    decreases k,
{
    if n >= 10 {
        assert(pow10(k) == 10 * pow10((k - 1) as nat));
        lemma_dec_of_len(n / 10, (k - 1) as nat);
    }
}

pub proof fn lemma_digits_val_dec_of(n: int)
    requires
        n >= 0,
    ensures
        digits_val(dec_of(n)) == n,
    decreases n,
{
    if n < 10 {
        assert(dec_of(n).last() == digit_char(n));
        assert(dec_of(n).drop_last() =~= Seq::<char>::empty());
        assert(digits_val(Seq::<char>::empty()) == 0);
        assert(digit_val(digit_char(n)) == n);
        assert(digits_val(dec_of(n)) == digits_val(dec_of(n).drop_last()) * 10 + digit_val(
            dec_of(n).last(),
        ));
    } else {
        lemma_digits_val_dec_of(n / 10);
        assert(dec_of(n).last() == digit_char(n % 10));
        assert(dec_of(n).drop_last() =~= dec_of(n / 10));
        assert(digit_val(digit_char(n % 10)) == n % 10);
        assert(digits_val(dec_of(n)) == digits_val(dec_of(n).drop_last()) * 10 + digit_val(
            dec_of(n).last(),
        ));
    }
}

pub proof fn lemma_digits_val_bounds(s: Seq<char>)
    requires
        all_digits(s),
    ensures
        0 <= digits_val(s) < pow10(s.len()),
    decreases s.len(),
{
    if s.len() > 0 {
        assert(all_digits(s.drop_last()));
        lemma_digits_val_bounds(s.drop_last());
        assert(is_digit(s.last()));
        assert(0 <= digit_val(s.last()) <= 9);
        assert(pow10(s.len()) == 10 * pow10((s.len() - 1) as nat));
    }
}

/// A digit run may be counted from any split point inside it.
pub proof fn lemma_digit_run_split(s: Seq<char>, from: int, mid: int)
    requires
        0 <= from <= mid <= s.len(),
        forall|i: int| from <= i < mid ==> is_digit(#[trigger] s[i]),
    ensures
        digit_run(s, from) == (mid - from) + digit_run(s, mid),
    decreases mid - from,
{
    if from < mid {
        lemma_digit_run_split(s, from + 1, mid);
    }
}

pub proof fn lemma_digit_run_bounds(s: Seq<char>, from: int)
    requires
        0 <= from <= s.len(),
    ensures
        0 <= digit_run(s, from) <= s.len() - from,
        forall|i: int|
            from <= i < from + digit_run(s, from) ==> is_digit(#[trigger] s[i]),
        from + digit_run(s, from) == s.len() || !is_digit(s[from + digit_run(s, from)]),
    decreases s.len() - from,
{
    if from < s.len() && is_digit(s[from]) {
        lemma_digit_run_bounds(s, from + 1);
    }
}

/// The digit character of a value below ten, as text.
pub fn digit_lit(d: u64) -> (r: &'static str)
    requires
        d < 10,
    ensures
        r@ =~= seq![digit_char(d as int)],
{
    proof {
        reveal_strlit("0");
        reveal_strlit("1");
        reveal_strlit("2");
        reveal_strlit("3");
        reveal_strlit("4");
        reveal_strlit("5");
        reveal_strlit("6");
        reveal_strlit("7");
        reveal_strlit("8");
        reveal_strlit("9");
    }
    if d == 0 {
        "0"
    } else if d == 1 {
        "1"
    } else if d == 2 {
        "2"
    } else if d == 3 {
        "3"
    } else if d == 4 {
        "4"
    } else if d == 5 {
        "5"
    } else if d == 6 {
        "6"
    } else if d == 7 {
        "7"
    } else if d == 8 {
        "8"
    } else {
        "9"
    }
}

/// Renders a number in decimal.
pub fn dec_u64(n: u64) -> (r: String)
    ensures
        r@ == dec_of(n as int),
    decreases n,
{
    if n < 10 {
        let mut s = String::new();
        s.append(digit_lit(n));
        proof {
            assert(s@ =~= dec_of(n as int));
        }
        s
    } else {
        let mut s = dec_u64(n / 10);
        s.append(digit_lit(n % 10));
        proof {
            assert(s@ =~= dec_of(n as int));
        }
        s
    }
}

/// Renders a number in decimal, zero-padded to at least two digits.
pub fn pad2_u64(n: u64) -> (r: String)
    ensures
        r@ == pad2_of(n as int),
{
    if n < 10 {
        let mut s = String::new();
        s.append(digit_lit(0));
        let rest = dec_u64(n);
        s.append(rest.as_str());
        proof {
            assert(s@ =~= pad2_of(n as int));
        }
        s
    } else {
        dec_u64(n)
    }
}

/// Renders a span of seconds as `HH:MM:SS`.
pub fn clock_string(secs: u64) -> (r: String)
    ensures
        r@ == time_text(secs as int),
{
    proof {
        reveal_strlit(":");
    }
    let mut s = pad2_u64(secs / 3600);
    s.append(":");
    let minutes = pad2_u64((secs % 3600) / 60);
    s.append(minutes.as_str());
    s.append(":");
    let rest = pad2_u64(secs % 60);
    s.append(rest.as_str());
    proof {
        assert(s@ =~= time_text(secs as int));
    }
    s
}

/// Index just past the run of digits that starts at `from`.
pub fn scan_digits(s: &str, from: usize) -> (j: usize)
    requires
        from <= s@.len(),
    ensures
        j == from + digit_run(s@, from as int),
        from <= j <= s@.len(),
{
    proof {
        lemma_digit_run_bounds(s@, from as int);
    }
    let n = s.unicode_len();
    let mut j = from;
    let mut stop = false;
    while !stop && j < n
        invariant
            from <= j <= n,
            n == s@.len(),
            forall|i: int| from <= i < j ==> is_digit(#[trigger] s@[i]),
            stop ==> j < n && !is_digit(s@[j as int]),
        decreases n - j + (if stop { 0int } else { 1int }),
    {
        let c = s.get_char(j);
        if '0' <= c && c <= '9' {
            j = j + 1;
        } else {
            stop = true;
        }
    }
    proof {
        lemma_digit_run_split(s@, from as int, j as int);
        lemma_digit_run_bounds(s@, j as int);
    }
    j
}

/// The value of the digits in `[from, to)`, accumulated left to right.
pub fn digits_to_u128(s: &str, from: usize, to: usize) -> (v: u128)
    requires
        from <= to <= s@.len(),
        to - from <= 20,
        forall|i: int| from <= i < to ==> is_digit(#[trigger] s@[i]),
    ensures
        v == digits_val(s@.subrange(from as int, to as int)),
{
    let mut v: u128 = 0;
    let mut j = from;
    proof {
        assert(s@.subrange(from as int, from as int) =~= Seq::<char>::empty());
    }
    while j < to
        invariant
            from <= j <= to,
            to <= s@.len(),
            to - from <= 20,
            forall|i: int| from <= i < to ==> is_digit(#[trigger] s@[i]),
            v == digits_val(s@.subrange(from as int, j as int)),
            v < pow10((j - from) as nat),
        decreases to - j,
    {
        let c = s.get_char(j);
        assert(is_digit(s@[j as int]));
        let d = (c as u32 - 48) as u128;
        proof {
            lemma_pow10_20();
            assert(pow10(((j + 1) - from) as nat) == 10 * pow10((j - from) as nat));
            lemma_pow10_mono((j + 1 - from) as nat, 20);
        }
        v = v * 10 + d;
        j = j + 1;
        proof {
            let sub = s@.subrange(from as int, j as int);
            assert(sub.drop_last() =~= s@.subrange(from as int, j - 1));
            assert(sub.last() == s@[j - 1]);
        }
    }
    proof {
        assert(s@.subrange(from as int, to as int) =~= s@.subrange(from as int, j as int));
    }
    v
}

pub proof fn lemma_pow10_mono(a: nat, b: nat)
    requires
        a <= b,
    ensures
        pow10(a) <= pow10(b),
        pow10(a) >= 1,
    decreases b,
{
    if b > 0 {
        if a == b {
            lemma_pow10_mono((a - 1) as nat, (b - 1) as nat);
        } else {
            lemma_pow10_mono(a, (b - 1) as nat);
        }
    }
}

pub proof fn lemma_pow10_small()
    ensures
        pow10(2) == 100,
        pow10(4) == 10000,
{
    reveal_with_fuel(pow10, 5);
}

pub proof fn lemma_pow10_20()
    ensures
        pow10(20) == 0x56bc75e2d63100000,
{
    reveal_with_fuel(pow10, 21);
}

} // verus!
