//! Decimal text: formatting and parsing of integers and of fixed-point
//! milli-unit values, and whitespace tokenization — the textual side of
//! the command protocol, with exact round-trip laws.

use vstd::prelude::*;

verus! {

use vstd::string::StrSliceExecFns;
use vstd::string::StringExecFns;

/// The digit character of a value below ten.
pub open spec fn digit_char(d: int) -> char {
    if d == 0 {
        '0'
    } else if d == 1 {
        '1'
    } else if d == 2 {
        '2'
    } else if d == 3 {
        '3'
    } else if d == 4 {
        '4'
    } else if d == 5 {
        '5'
    } else if d == 6 {
        '6'
    } else if d == 7 {
        '7'
    } else if d == 8 {
        '8'
    } else {
        '9'
    }
}

/// The value of a digit character, or -1 for any other character.
pub open spec fn char_digit(c: char) -> int {
    if c == '0' {
        0
    } else if c == '1' {
        1
    } else if c == '2' {
        2
    } else if c == '3' {
        3
    } else if c == '4' {
        4
    } else if c == '5' {
        5
    } else if c == '6' {
        6
    } else if c == '7' {
        7
    } else if c == '8' {
        8
    } else if c == '9' {
        9
    } else {
        -1
    }
}

/// The character is a decimal digit.
pub open spec fn is_digit(c: char) -> bool {
    char_digit(c) >= 0
}

/// Every character of the sequence is a decimal digit.
pub open spec fn all_digits(s: Seq<char>) -> bool {
    forall|i: int| 0 <= i < s.len() ==> is_digit(#[trigger] s[i])
}

/// The number a digit sequence denotes.
pub open spec fn digits_val(s: Seq<char>) -> int
    decreases s.len(),
{
    if s.len() == 0 {
        0
    } else {
        digits_val(s.drop_last()) * 10 + char_digit(s.last())
    }
}

/// Powers of ten.
pub open spec fn pow10(k: int) -> int
    decreases k,
{
    if k <= 0 {
        1
    } else {
        10 * pow10(k - 1)
    }
}

/// A digit string denotes a number at least zero, and a digit string
/// grows monotonically under concatenation.
pub proof fn lemma_digits_val_nonneg(s: Seq<char>)
    requires
        all_digits(s),
    ensures
        digits_val(s) >= 0,
    decreases s.len(),
{
    if s.len() > 0 {
        assert(all_digits(s.drop_last())) by {
            assert(forall|i: int| 0 <= i < s.len() - 1 ==> s.drop_last()[i] == s[i]);
        }
        lemma_digits_val_nonneg(s.drop_last());
        assert(digits_val(s.drop_last()) * 10 >= 0) by (nonlinear_arith)
            requires
                digits_val(s.drop_last()) >= 0,
        ;
    }
}

/// A digit prefix never denotes more than the whole digit string.
pub proof fn lemma_digits_val_prefix(s: Seq<char>, k: int)
    requires
        all_digits(s),
        0 <= k <= s.len(),
    ensures
        digits_val(s) >= digits_val(s.take(k)),
    decreases s.len() - k,
{
    if k < s.len() {
        lemma_digits_val_prefix(s, k + 1);
        assert(s.take(k + 1).drop_last() =~= s.take(k));
        assert(s.take(k + 1).last() == s[k]);
        assert(all_digits(s.take(k))) by {
            assert(forall|i: int| 0 <= i < k ==> s.take(k)[i] == s[i]);
        }
        lemma_digits_val_nonneg(s.take(k));
        assert(digits_val(s.take(k + 1)) >= digits_val(s.take(k))) by (nonlinear_arith)
            requires
                digits_val(s.take(k + 1)) == digits_val(s.take(k)) * 10 + char_digit(s[k]),
                digits_val(s.take(k)) >= 0,
                char_digit(s[k]) >= 0,
        ;
    } else {
        assert(s.take(k) =~= s);
    }
}

/// The decimal digits of a number at least zero, most significant
/// first.
pub open spec fn spec_fmt_nat(n: int) -> Seq<char>
    recommends
        n >= 0,
    decreases n,
{
    if n < 10 {
        seq![digit_char(if n < 0 { 0 } else { n })]
    } else {
        spec_fmt_nat(n / 10).push(digit_char(n % 10))
    }
}

/// Formatting a number yields digits that denote it.
pub proof fn lemma_fmt_nat(n: int)
    requires
        n >= 0,
    ensures
        spec_fmt_nat(n).len() >= 1,
        all_digits(spec_fmt_nat(n)),
        digits_val(spec_fmt_nat(n)) == n,
    decreases n,
{
    if n < 10 {
        let s = spec_fmt_nat(n);
        assert(s.len() == 1);
        assert(s.last() == digit_char(n));
        assert(s.drop_last() =~= Seq::<char>::empty());
        assert(digits_val(Seq::<char>::empty()) == 0);
        assert(digits_val(s) == digits_val(s.drop_last()) * 10 + char_digit(s.last()));
        assert(digits_val(s.drop_last()) * 10 == 0) by (nonlinear_arith)
            requires
                digits_val(s.drop_last()) == 0,
        ;
        assert(char_digit(digit_char(n)) == n);
    } else {
        vstd::arithmetic::div_mod::lemma_fundamental_div_mod(n, 10);
        vstd::arithmetic::div_mod::lemma_mod_bound(n, 10);
        vstd::arithmetic::div_mod::lemma_div_pos_is_pos(n, 10);
        vstd::arithmetic::div_mod::lemma_div_is_strictly_smaller(n, 10);
        lemma_fmt_nat(n / 10);
        let t = spec_fmt_nat(n / 10);
        let s = spec_fmt_nat(n);
        assert(s == t.push(digit_char(n % 10)));
        assert(s.drop_last() =~= t);
        assert(s.last() == digit_char(n % 10));
        assert(char_digit(digit_char(n % 10)) == n % 10);
        assert(digits_val(s) == (n / 10) * 10 + n % 10);
        assert((n / 10) * 10 + n % 10 == n) by (nonlinear_arith)
            requires
                n == 10 * (n / 10) + n % 10,
        ;
        assert(all_digits(s)) by {
            assert(forall|i: int| 0 <= i < t.len() ==> s[i] == t[i]);
            assert(is_digit(s[s.len() - 1]));
        }
    }
}

/// The signed decimal text of an integer.
pub open spec fn spec_fmt_i32(n: int) -> Seq<char> {
    if n < 0 {
        seq!['-'] + spec_fmt_nat(-n)
    } else {
        spec_fmt_nat(n)
    }
}

/// The sign and magnitude digits of a numeric token.
pub open spec fn sign_split(s: Seq<char>) -> (int, Seq<char>) {
    if s.len() > 0 && s[0] == '-' {
        (-1, s.skip(1))
    } else if s.len() > 0 && s[0] == '+' {
        (1, s.skip(1))
    } else {
        (1, s)
    }
}

/// The token is a well-formed signed integer within the i32 range.
pub open spec fn valid_int_token(s: Seq<char>) -> bool {
    let (g, d) = sign_split(s);
    d.len() >= 1 && all_digits(d) && -2147483648 <= g * digits_val(d) <= 2147483647
}

/// The integer a token denotes.
pub open spec fn spec_parse_i32(s: Seq<char>) -> int {
    let (g, d) = sign_split(s);
    g * digits_val(d)
}

/// The first index of a character in a sequence, or -1.
pub open spec fn find_char(s: Seq<char>, c: char) -> int
    decreases s.len(),
{
    if s.len() == 0 {
        -1
    } else if s[0] == c {
        0
    } else {
        let r = find_char(s.skip(1), c);
        if r == -1 {
            -1
        } else {
            r + 1
        }
    }
}

/// `find_char` names the first occurrence.
pub proof fn lemma_find_char_at(s: Seq<char>, c: char, k: int)
    requires
        0 <= k < s.len(),
        s[k] == c,
        forall|j: int| 0 <= j < k ==> s[j] != c,
    ensures
        find_char(s, c) == k,
    decreases s.len(),
{
    if k > 0 {
        assert(s[0] != c);
        assert(s.skip(1).len() == s.len() - 1);
        assert(forall|j: int| 0 <= j < s.skip(1).len() ==> s.skip(1)[j] == s[j + 1]);
        lemma_find_char_at(s.skip(1), c, k - 1);
    }
}

/// `find_char` misses only when the character is absent.
pub proof fn lemma_find_char_none(s: Seq<char>, c: char)
    requires
        forall|j: int| 0 <= j < s.len() ==> s[j] != c,
    ensures
        find_char(s, c) == -1,
    decreases s.len(),
{
    if s.len() > 0 {
        assert(forall|j: int| 0 <= j < s.skip(1).len() ==> s.skip(1)[j] == s[j + 1]);
        lemma_find_char_none(s.skip(1), c);
    }
}

/// `find_char` returns a genuine first occurrence.
pub proof fn lemma_find_char_props(s: Seq<char>, c: char)
    ensures
        find_char(s, c) >= -1,
        find_char(s, c) == -1 ==> forall|j: int| 0 <= j < s.len() ==> s[j] != c,
        find_char(s, c) >= 0 ==> find_char(s, c) < s.len() && s[find_char(s, c)] == c && forall|
            j: int,
        |
            0 <= j < find_char(s, c) ==> s[j] != c,
    decreases s.len(),
{
    if s.len() == 0 {
    } else if s[0] == c {
        assert(find_char(s, c) == 0);
    } else {
        lemma_find_char_props(s.skip(1), c);
        let t = s.skip(1);
        assert(t.len() == s.len() - 1);
        assert(forall|j: int| 0 <= j < t.len() ==> t[j] == s[j + 1]);
        let r = find_char(t, c);
        if r == -1 {
            assert(find_char(s, c) == -1);
            assert forall|j: int| 0 <= j < s.len() implies s[j] != c by {
                if j > 0 {
                    assert(t[j - 1] != c);
                }
            }
        } else {
            assert(0 <= r < t.len());
            assert(find_char(s, c) == r + 1);
            assert(t[r] == c);
            assert(s[r + 1] == t[r]);
            assert forall|j: int| 0 <= j < r + 1 implies s[j] != c by {
                if j > 0 {
                    assert(t[j - 1] != c);
                }
            }
        }
    }
}

/// The scaled value of a 1-to-3-digit fraction part.
pub open spec fn frac_val(fp: Seq<char>) -> int {
    digits_val(fp) * pow10(3 - fp.len())
}

/// The token is a well-formed signed milli-unit decimal within the i32
/// range: optional sign, integer digits, and an optional point followed
/// by one to three fraction digits.
pub open spec fn valid_milli_token(s: Seq<char>) -> bool {
    let (g, d) = sign_split(s);
    let i = find_char(d, '.');
    if i == -1 {
        d.len() >= 1 && all_digits(d) && -2147483648 <= g * (digits_val(d) * 1000) <= 2147483647
    } else {
        let ip = d.take(i);
        let fp = d.skip(i + 1);
        ip.len() >= 1 && 1 <= fp.len() <= 3 && all_digits(ip) && all_digits(fp) && -2147483648 <= g
            * (digits_val(ip) * 1000 + frac_val(fp)) <= 2147483647
    }
}

/// The milli-unit value a token denotes.
pub open spec fn spec_parse_milli(s: Seq<char>) -> int {
    let (g, d) = sign_split(s);
    let i = find_char(d, '.');
    if i == -1 {
        g * (digits_val(d) * 1000)
    } else {
        g * (digits_val(d.take(i)) * 1000 + frac_val(d.skip(i + 1)))
    }
}

/// The trimmed fraction digits of a fixed-point value: one to three
/// digits, trailing zeros removed.
pub open spec fn spec_fmt_milli_frac(m: int) -> Seq<char> {
    let a = if m < 0 {
        -m
    } else {
        m
    };
    let f = a % 1000;
    if f % 100 == 0 {
        seq![digit_char(f / 100)]
    } else if f % 10 == 0 {
        seq![digit_char(f / 100), digit_char((f / 10) % 10)]
    } else {
        seq![digit_char(f / 100), digit_char((f / 10) % 10), digit_char(f % 10)]
    }
}

/// The fraction digits are digits.
pub proof fn lemma_fmt_milli_frac_digits(m: int)
    ensures
        all_digits(spec_fmt_milli_frac(m)),
        1 <= spec_fmt_milli_frac(m).len() <= 3,
{
    let a = if m < 0 {
        -m
    } else {
        m
    };
    vstd::arithmetic::div_mod::lemma_mod_bound(a, 1000);
    let f = a % 1000;
    vstd::arithmetic::div_mod::lemma_mod_bound(f, 10);
    vstd::arithmetic::div_mod::lemma_mod_bound(f / 10, 10);
    vstd::arithmetic::div_mod::lemma_div_pos_is_pos(f, 100);
    vstd::arithmetic::div_mod::lemma_div_pos_is_pos(f, 10);
    vstd::arithmetic::div_mod::lemma_div_pos_is_pos(f / 10, 10);
    assert(f / 100 <= 9) by (nonlinear_arith)
        requires
            0 <= f < 1000,
    ;
    let fr = spec_fmt_milli_frac(m);
    assert forall|i: int| 0 <= i < fr.len() implies is_digit(#[trigger] fr[i]) by {
        assert(char_digit(digit_char(f / 100)) == f / 100);
        assert(char_digit(digit_char((f / 10) % 10)) == (f / 10) % 10);
        assert(char_digit(digit_char(f % 10)) == f % 10);
    }
}

/// The milli-unit decimal text of a fixed-point value: the whole units,
/// then the fraction with trailing zeros trimmed and no point at all
/// for a whole number.
pub open spec fn spec_fmt_milli(m: int) -> Seq<char> {
    let a = if m < 0 {
        -m
    } else {
        m
    };
    let u = a / 1000;
    let f = a % 1000;
    let body = if f == 0 {
        spec_fmt_nat(u)
    } else {
        spec_fmt_nat(u) + seq!['.'] + spec_fmt_milli_frac(m)
    };
    if m < 0 {
        seq!['-'] + body
    } else {
        body
    }
}

/// Splitting a text on spaces: the (possibly empty) stretches between
/// the space characters, in order.
pub open spec fn spec_tokens(s: Seq<char>) -> Seq<Seq<char>>
    decreases s.len(),
    via spec_tokens_decreases
{
    let i = find_char(s, ' ');
    if i == -1 {
        seq![s]
    } else {
        seq![s.take(i)] + spec_tokens(s.skip(i + 1))
    }
}

#[via_fn]
proof fn spec_tokens_decreases(s: Seq<char>) {
    lemma_find_char_props(s, ' ');
}

/// The value of one-, two- and three-digit sequences.
pub proof fn lemma_digits_val_small(c1: char, c2: char, c3: char)
    ensures
        digits_val(seq![c1]) == char_digit(c1),
        digits_val(seq![c1, c2]) == char_digit(c1) * 10 + char_digit(c2),
        digits_val(seq![c1, c2, c3]) == (char_digit(c1) * 10 + char_digit(c2)) * 10 + char_digit(
            c3,
        ),
        pow10(0) == 1 && pow10(1) == 10 && pow10(2) == 100,
{
    let s1 = seq![c1];
    let s2 = seq![c1, c2];
    let s3 = seq![c1, c2, c3];
    assert(s1.drop_last() =~= Seq::<char>::empty());
    assert(s2.drop_last() =~= s1);
    assert(s3.drop_last() =~= s2);
    assert(s1.last() == c1 && s2.last() == c2 && s3.last() == c3);
    assert(digits_val(Seq::<char>::empty()) == 0);
    assert(digits_val(s1) == digits_val(Seq::<char>::empty()) * 10 + char_digit(c1));
    assert(digits_val(Seq::<char>::empty()) * 10 == 0) by (nonlinear_arith);
    assert(digits_val(s2) == digits_val(s1) * 10 + char_digit(c2));
    assert(digits_val(s3) == digits_val(s2) * 10 + char_digit(c3));
    assert(pow10(0) == 1);
    assert(pow10(1) == 10);
    assert(pow10(2) == 100);
}

/// Law: integer format and parse round-trip: parsing the formatted
/// text of any machine integer yields it back.
pub proof fn lemma_i32_round_trip(n: int)
    requires
        -2147483648 <= n <= 2147483647,
    ensures
        valid_int_token(spec_fmt_i32(n)),
        spec_parse_i32(spec_fmt_i32(n)) == n,
{
    if n >= 0 {
        lemma_fmt_nat(n);
        let s = spec_fmt_i32(n);
        assert(s == spec_fmt_nat(n));
        assert(is_digit(s[0]));
        assert(s[0] != '-' && s[0] != '+');
        assert(sign_split(s) == (1int, s));
        assert(1 * digits_val(s) == digits_val(s)) by (nonlinear_arith);
    } else {
        lemma_fmt_nat(-n);
        let t = spec_fmt_nat(-n);
        let s = spec_fmt_i32(n);
        assert(s == seq!['-'] + t);
        assert(s[0] == '-');
        assert(s.skip(1) =~= t);
        assert(sign_split(s) == (-1int, s.skip(1)));
        assert(-1 * digits_val(t) == -digits_val(t)) by (nonlinear_arith);
    }
}

/// Law: milli-unit format and parse round-trip: parsing the formatted
/// text of any fixed-point value yields it back.
#[verifier::rlimit(100)]
#[verifier::spinoff_prover]
pub proof fn lemma_milli_round_trip(m: int)
    requires
        -2147483647 <= m <= 2147483647,
    ensures
        valid_milli_token(spec_fmt_milli(m)),
        spec_parse_milli(spec_fmt_milli(m)) == m,
{
    let a = if m < 0 {
        -m
    } else {
        m
    };
    vstd::arithmetic::div_mod::lemma_fundamental_div_mod(a, 1000);
    vstd::arithmetic::div_mod::lemma_mod_bound(a, 1000);
    vstd::arithmetic::div_mod::lemma_div_pos_is_pos(a, 1000);
    let u = a / 1000;
    let f = a % 1000;
    lemma_fmt_nat(u);
    let t = spec_fmt_nat(u);
    assert(forall|j: int| 0 <= j < t.len() ==> #[trigger] t[j] != '.' && t[j] != '-' && t[j]
        != '+') by {
        assert(forall|j: int| 0 <= j < t.len() ==> is_digit(#[trigger] t[j]));
    }
    vstd::arithmetic::div_mod::lemma_fundamental_div_mod(f, 100);
    vstd::arithmetic::div_mod::lemma_mod_bound(f, 100);
    vstd::arithmetic::div_mod::lemma_fundamental_div_mod(f, 10);
    vstd::arithmetic::div_mod::lemma_mod_bound(f, 10);
    vstd::arithmetic::div_mod::lemma_fundamental_div_mod(f / 10, 10);
    vstd::arithmetic::div_mod::lemma_mod_bound(f / 10, 10);
    vstd::arithmetic::div_mod::lemma_div_denominator(f, 10, 10);
    assert(0 <= f / 100 <= 9);
    assert(0 <= (f / 10) % 10 <= 9);
    assert(0 <= f % 10 <= 9);
    let frac: Seq<char> = if f % 100 == 0 {
        seq![digit_char(f / 100)]
    } else if f % 10 == 0 {
        seq![digit_char(f / 100), digit_char((f / 10) % 10)]
    } else {
        seq![digit_char(f / 100), digit_char((f / 10) % 10), digit_char(f % 10)]
    };
    // the fraction digits denote the fraction, at their scale
    lemma_digits_val_small(digit_char(f / 100), digit_char((f / 10) % 10), digit_char(f % 10));
    assert(digits_val(frac) * pow10(3 - frac.len()) == f) by {
        if f % 100 == 0 {
            assert(digits_val(frac) == f / 100);
            assert((f / 100) * 100 == f) by (nonlinear_arith)
                requires
                    f == 100 * (f / 100) + f % 100,
                    f % 100 == 0,
            ;
        } else if f % 10 == 0 {
            assert(digits_val(frac) == (f / 100) * 10 + (f / 10) % 10);
            assert((f / 100) * 10 + (f / 10) % 10 == f / 10) by (nonlinear_arith)
                requires
                    f / 10 == 10 * (f / 100) + (f / 10) % 10,
            ;
            assert((f / 10) * 10 == f) by (nonlinear_arith)
                requires
                    f == 10 * (f / 10) + f % 10,
                    f % 10 == 0,
            ;
        } else {
            assert(digits_val(frac) == ((f / 100) * 10 + (f / 10) % 10) * 10 + f % 10);
            assert(((f / 100) * 10 + (f / 10) % 10) * 10 + f % 10 == f) by (nonlinear_arith)
                requires
                    f / 10 == 10 * (f / 100) + (f / 10) % 10,
                    f == 10 * (f / 10) + f % 10,
            ;
            assert(f * 1 == f) by (nonlinear_arith);
        }
    }
    assert(all_digits(frac));
    let body: Seq<char> = if f == 0 {
        t
    } else {
        t + seq!['.'] + frac
    };
    if f != 0 {
        assert forall|j: int| 0 <= j < t.len() implies #[trigger] body[j] != '.' by {
            assert(body[j] == t[j]);
        }
        assert(body[t.len() as int] == '.');
        lemma_find_char_at(body, '.', t.len() as int);
        assert(body.take(t.len() as int) =~= t);
        assert(body.skip(t.len() as int + 1) =~= frac);
    } else {
        assert forall|j: int| 0 <= j < body.len() implies #[trigger] body[j] != '.' by {}
        lemma_find_char_none(body, '.');
    }
    if m >= 0 {
        let s = spec_fmt_milli(m);
        assert(s == body);
        assert(s[0] == t[0]);
        assert(is_digit(s[0]));
        assert(s[0] != '-' && s[0] != '+');
        assert(sign_split(s) == (1int, s));
        assert(1 * (digits_val(t) * 1000 + f) == u * 1000 + f) by (nonlinear_arith)
            requires
                digits_val(t) == u,
        ;
        assert(u * 1000 + f == a) by (nonlinear_arith)
            requires
                a == 1000 * u + f,
        ;
        if f == 0 {
            assert(1 * (digits_val(s) * 1000) == u * 1000) by (nonlinear_arith)
                requires
                    digits_val(s) == u,
            ;
        }
    } else {
        let s = spec_fmt_milli(m);
        assert(s == seq!['-'] + body);
        assert(s[0] == '-');
        assert(s.skip(1) =~= body);
        assert(sign_split(s) == (-1int, s.skip(1)));
        assert(u * 1000 + f == a) by (nonlinear_arith)
            requires
                a == 1000 * u + f,
        ;
        assert(-1 * (digits_val(t) * 1000 + f) == -a) by (nonlinear_arith)
            requires
                digits_val(t) == u,
                u * 1000 + f == a,
        ;
        if f == 0 {
            assert(-1 * (digits_val(body) * 1000) == -a) by (nonlinear_arith)
                requires
                    digits_val(body) == u,
                    u * 1000 + f == a,
                    f == 0,
            ;
        }
    }
}

/// A single-digit text on machine integers.
fn digit_str(d: i64) -> (r: &'static str)
    requires
        0 <= d <= 9,
    ensures
        r@ =~= seq![digit_char(d as int)],
{
    proof {
        reveal_strlit("0");
        reveal_strlit("1");
        reveal_strlit("2");
        reveal_strlit("3");
        reveal_strlit("4");
        reveal_strlit("5");
        reveal_strlit("6");
        reveal_strlit("7");
        reveal_strlit("8");
        reveal_strlit("9");
    }
    if d == 0 {
        "0"
    } else if d == 1 {
        "1"
    } else if d == 2 {
        "2"
    } else if d == 3 {
        "3"
    } else if d == 4 {
        "4"
    } else if d == 5 {
        "5"
    } else if d == 6 {
        "6"
    } else if d == 7 {
        "7"
    } else if d == 8 {
        "8"
    } else {
        "9"
    }
}

/// Append the decimal digits of a number at least zero.
fn push_digits(n: i64, out: &mut String)
    requires
        0 <= n,
    ensures
        final(out)@ == old(out)@ + spec_fmt_nat(n as int),
    decreases n,
{
    if n < 10 {
        out.append(digit_str(n));
    } else {
        proof {
            vstd::arithmetic::div_mod::lemma_mod_bound(n as int, 10);
            vstd::arithmetic::div_mod::lemma_div_pos_is_pos(n as int, 10);
            vstd::arithmetic::div_mod::lemma_div_is_strictly_smaller(n as int, 10);
        }
        let q = n / 10;
        let d = n % 10;
        push_digits(q, out);
        out.append(digit_str(d));
        proof {
            assert(final(out)@ =~= old(out)@ + spec_fmt_nat(n as int));
        }
    }
}

/// The decimal text of a machine integer.
pub fn fmt_i32(n: i32) -> (r: String)
    ensures
        r@ == spec_fmt_i32(n as int),
{
    let mut out = String::new();
    if n < 0 {
        proof {
            reveal_strlit("-");
        }
        out.append("-");
        push_digits(-(n as i64), &mut out);
        proof {
            assert(out@ =~= spec_fmt_i32(n as int));
        }
    } else {
        push_digits(n as i64, &mut out);
        proof {
            assert(out@ =~= spec_fmt_i32(n as int));
        }
    }
    out
}

/// The decimal text of a milli-unit fixed-point value.
pub fn fmt_milli(m: i32) -> (r: String)
    requires
        m > i32::MIN,
    ensures
        r@ == spec_fmt_milli(m as int),
{
    let a: i64 = if m < 0 {
        -(m as i64)
    } else {
        m as i64
    };
    proof {
        vstd::arithmetic::div_mod::lemma_mod_bound(a as int, 1000);
        vstd::arithmetic::div_mod::lemma_div_pos_is_pos(a as int, 1000);
        vstd::arithmetic::div_mod::lemma_mod_bound(a as int % 1000, 100);
        vstd::arithmetic::div_mod::lemma_mod_bound(a as int % 1000, 10);
        vstd::arithmetic::div_mod::lemma_div_pos_is_pos(a as int % 1000, 100);
        vstd::arithmetic::div_mod::lemma_div_pos_is_pos(a as int % 1000, 10);
        vstd::arithmetic::div_mod::lemma_mod_bound((a as int % 1000) / 10, 10);
        vstd::arithmetic::div_mod::lemma_div_pos_is_pos((a as int % 1000) / 10, 10);
        assert((a as int % 1000) / 100 <= 9) by (nonlinear_arith)
            requires
                0 <= a as int % 1000 < 1000,
        ;
    }
    let u = a / 1000;
    let f = a % 1000;
    let mut out = String::new();
    if m < 0 {
        proof {
            reveal_strlit("-");
        }
        out.append("-");
    }
    push_digits(u, &mut out);
    if f != 0 {
        proof {
            reveal_strlit(".");
        }
        out.append(".");
        if f % 100 == 0 {
            out.append(digit_str(f / 100));
        } else if f % 10 == 0 {
            out.append(digit_str(f / 100));
            out.append(digit_str((f / 10) % 10));
        } else {
            out.append(digit_str(f / 100));
            out.append(digit_str((f / 10) % 10));
            out.append(digit_str(f % 10));
        }
    }
    proof {
        assert(out@ =~= spec_fmt_milli(m as int));
    }
    out
}


/// Accumulate the digits of `s[from..to]`, refusing a non-digit or a
/// value above `cap`.
fn parse_digits(s: &str, from: usize, to: usize, cap: u64) -> (r: Option<u64>)
    requires
        from <= to <= s@.len(),
        cap <= 4_000_000_000,
    ensures
        match r {
            Some(v) => all_digits(s@.subrange(from as int, to as int)) && v == digits_val(
                s@.subrange(from as int, to as int),
            ) && v <= cap,
            None => !all_digits(s@.subrange(from as int, to as int)) || digits_val(
                s@.subrange(from as int, to as int),
            ) > cap,
        },
{
    let ghost d = s@.subrange(from as int, to as int);
    let mut acc: u64 = 0;
    let mut i = from;
    while i < to
        invariant
            from <= i <= to <= s@.len(),
            cap <= 4_000_000_000,
            d == s@.subrange(from as int, to as int),
            all_digits(d.take(i - from)),
            acc == digits_val(d.take(i - from)),
            acc <= cap,
        decreases to - i,
    {
        let c = s.get_char(i);
        let dv: u64 = if c == '0' {
            0
        } else if c == '1' {
            1
        } else if c == '2' {
            2
        } else if c == '3' {
            3
        } else if c == '4' {
            4
        } else if c == '5' {
            5
        } else if c == '6' {
            6
        } else if c == '7' {
            7
        } else if c == '8' {
            8
        } else if c == '9' {
            9
        } else {
            proof {
                assert(d[i - from] == s@[i as int]);
                assert(!is_digit(d[i - from]));
            }
            return None;
        };
        proof {
            assert(d[i - from] == s@[i as int]);
            assert(char_digit(d[i - from]) == dv);
            assert(d.take(i - from + 1).drop_last() =~= d.take(i - from));
            assert(d.take(i - from + 1).last() == d[i - from]);
        }
        let na = acc * 10 + dv;
        if na > cap {
            proof {
                assert(all_digits(d.take(i - from + 1)));
                assert(digits_val(d.take(i - from + 1)) == na);
                if all_digits(d) {
                    lemma_digits_val_prefix(d, i - from + 1);
                    assert(digits_val(d) > cap);
                }
            }
            return None;
        }
        acc = na;
        i += 1;
    }
    proof {
        assert(d.take(to - from) =~= d);
    }
    Some(acc)
}

/// Parse a signed integer token, exactly when it is well formed and in
/// range.
pub fn parse_i32(s: &str) -> (r: Option<i32>)
    ensures
        match r {
            Some(v) => valid_int_token(s@) && v == spec_parse_i32(s@),
            None => !valid_int_token(s@),
        },
{
    let n = s.unicode_len();
    if n == 0 {
        return None;
    }
    let c0 = s.get_char(0);
    let neg = c0 == '-';
    let signed = neg || c0 == '+';
    let from: usize = if signed {
        1
    } else {
        0
    };
    let ghost d = if signed {
        s@.skip(1)
    } else {
        s@
    };
    proof {
        assert(d =~= s@.subrange(from as int, n as int));
    }
    if from == n {
        proof {
            assert(d.len() == 0);
        }
        return None;
    }
    match parse_digits(s, from, n, 2147483648) {
        Some(v) => {
            proof {
                lemma_digits_val_nonneg(d);
            }
            if neg {
                proof {
                    assert(-1 * digits_val(d) == -digits_val(d)) by (nonlinear_arith);
                }
                Some((-(v as i64)) as i32)
            } else {
                if v > 2147483647 {
                    proof {
                        assert(1 * digits_val(d) == digits_val(d)) by (nonlinear_arith);
                    }
                    None
                } else {
                    proof {
                        assert(1 * digits_val(d) == digits_val(d)) by (nonlinear_arith);
                    }
                    Some(v as i32)
                }
            }
        },
        None => {
            proof {
                if all_digits(d) {
                    lemma_digits_val_nonneg(d);
                    assert(digits_val(d) > 2147483648);
                    let (g, dd) = sign_split(s@);
                    assert(dd == d);
                    if g == 1 {
                        assert(1 * digits_val(d) == digits_val(d)) by (nonlinear_arith);
                    } else {
                        assert(-1 * digits_val(d) == -digits_val(d)) by (nonlinear_arith);
                    }
                }
            }
            None
        },
    }
}

/// Parse a signed milli-unit decimal token, exactly when it is well
/// formed and in range.
#[verifier::rlimit(100)]
#[verifier::spinoff_prover]
pub fn parse_milli(s: &str) -> (r: Option<i32>)
    ensures
        match r {
            Some(v) => valid_milli_token(s@) && v == spec_parse_milli(s@),
            None => !valid_milli_token(s@),
        },
{
    let n = s.unicode_len();
    if n == 0 {
        return None;
    }
    let c0 = s.get_char(0);
    let neg = c0 == '-';
    let signed = neg || c0 == '+';
    let from: usize = if signed {
        1
    } else {
        0
    };
    let ghost d = if signed {
        s@.skip(1)
    } else {
        s@
    };
    proof {
        assert(d =~= s@.subrange(from as int, n as int));
    }
    // locate the decimal point
    let mut dot: usize = n;
    let mut i = from;
    while i < n
        invariant
            from <= i <= n == s@.len(),
            from <= dot <= n,
            d == s@.subrange(from as int, n as int),
            dot == n ==> forall|j: int| 0 <= j < i - from ==> d[j] != '.',
            dot < n ==> dot < i && d[dot - from] == '.' && forall|j: int|
                0 <= j < dot - from ==> d[j] != '.',
        decreases n - i,
    {
        proof {
            assert(d[i - from] == s@[i as int]);
        }
        if s.get_char(i) == '.' && dot == n {
            dot = i;
        }
        i += 1;
    }
    proof {
        if dot == n {
            assert(forall|j: int| 0 <= j < d.len() ==> d[j] != '.');
            lemma_find_char_none(d, '.');
        } else {
            lemma_find_char_at(d, '.', dot - from);
        }
    }
    if dot == n {
        // no point: a whole number of units
        if from == n {
            return None;
        }
        match parse_digits(s, from, n, 2147484) {
            Some(v) => {
                proof {
                    lemma_digits_val_nonneg(d);
                    assert(digits_val(d) * 1000 == v * 1000) by (nonlinear_arith)
                        requires
                            digits_val(d) == v,
                    ;
                }
                let total = (v as i64) * 1000;
                if neg {
                    if total > 2147483648 {
                        proof {
                            assert(-1 * (digits_val(d) * 1000) < -2147483648) by (nonlinear_arith)
                                requires
                                    digits_val(d) * 1000 > 2147483648,
                            ;
                        }
                        return None;
                    }
                    proof {
                        assert(-1 * (digits_val(d) * 1000) == -(digits_val(d) * 1000))
                            by (nonlinear_arith);
                    }
                    return Some((-total) as i32);
                } else {
                    if total > 2147483647 {
                        proof {
                            assert(1 * (digits_val(d) * 1000) > 2147483647) by (nonlinear_arith)
                                requires
                                    digits_val(d) * 1000 > 2147483647,
                            ;
                        }
                        return None;
                    }
                    proof {
                        assert(1 * (digits_val(d) * 1000) == digits_val(d) * 1000)
                            by (nonlinear_arith);
                    }
                    return Some(total as i32);
                }
            },
            None => {
                proof {
                    if all_digits(d) {
                        lemma_digits_val_nonneg(d);
                        assert(digits_val(d) > 2147484);
                        assert(digits_val(d) * 1000 > 2147484000) by (nonlinear_arith)
                            requires
                                digits_val(d) > 2147484,
                        ;
                        let (g, dd) = sign_split(s@);
                        if g == 1 {
                            assert(1 * (digits_val(d) * 1000) == digits_val(d) * 1000)
                                by (nonlinear_arith);
                        } else {
                            assert(-1 * (digits_val(d) * 1000) == -(digits_val(d) * 1000))
                                by (nonlinear_arith);
                        }
                    }
                }
                return None;
            },
        }
    }
    // a point: integer digits, then one to three fraction digits
    let ghost di = (dot - from) as int;
    let ghost ip = d.take(di);
    let ghost fp = d.skip(di + 1);
    proof {
        assert(find_char(d, '.') == di);
        assert(ip =~= s@.subrange(from as int, dot as int));
        assert(fp =~= s@.subrange(dot as int + 1, n as int));
    }
    if dot == from {
        return None;
    }
    let flen = n - dot - 1;
    if flen < 1 || flen > 3 {
        return None;
    }
    let ipv = match parse_digits(s, from, dot, 2147484) {
        Some(v) => v,
        None => {
            proof {
                if all_digits(ip) && all_digits(fp) {
                    lemma_digits_val_nonneg(ip);
                    lemma_digits_val_nonneg(fp);
                    assert(digits_val(ip) * 1000 > 2147484000) by (nonlinear_arith)
                        requires
                            digits_val(ip) > 2147484,
                    ;
                    assert(pow10(3 - fp.len()) >= 0) by {
                        lemma_digits_val_small('0', '0', '0');
                    }
                    assert(digits_val(fp) * pow10(3 - fp.len()) >= 0) by (nonlinear_arith)
                        requires
                            digits_val(fp) >= 0,
                            pow10(3 - fp.len()) >= 0,
                    ;
                    let (g, dd) = sign_split(s@);
                    if g == 1 {
                        assert(1 * (digits_val(ip) * 1000 + frac_val(fp)) == digits_val(ip)
                            * 1000 + frac_val(fp)) by (nonlinear_arith);
                    } else {
                        assert(-1 * (digits_val(ip) * 1000 + frac_val(fp)) == -(digits_val(ip)
                            * 1000 + frac_val(fp))) by (nonlinear_arith);
                    }
                }
            }
            return None;
        },
    };
    let fdv = match parse_digits(s, dot + 1, n, 4_000_000_000) {
        Some(v) => v,
        None => {
            proof {
                assert(!all_digits(fp) || digits_val(fp) > 4_000_000_000);
                if all_digits(fp) {
                    lemma_digits_val_three(fp);
                }
            }
            return None;
        },
    };
    proof {
        lemma_digits_val_three(fp);
        lemma_digits_val_small('0', '0', '0');
    }
    let scale: u64 = if flen == 1 {
        100
    } else if flen == 2 {
        10
    } else {
        1
    };
    let fscaled = fdv * scale;
    proof {
        assert(fscaled == frac_val(fp));
    }
    let total: i64 = (ipv as i64) * 1000 + fscaled as i64;
    proof {
        lemma_digits_val_nonneg(ip);
        assert(total == digits_val(ip) * 1000 + frac_val(fp)) by (nonlinear_arith)
            requires
                ipv == digits_val(ip),
                fscaled == frac_val(fp),
                total == ipv * 1000 + fscaled,
        ;
        assert(total >= 0) by (nonlinear_arith)
            requires
                ipv >= 0,
                fscaled >= 0,
                total == ipv * 1000 + fscaled,
        ;
    }
    if neg {
        if total > 2147483648 {
            proof {
                assert(-1 * (digits_val(ip) * 1000 + frac_val(fp)) < -2147483648)
                    by (nonlinear_arith)
                    requires
                        digits_val(ip) * 1000 + frac_val(fp) > 2147483648,
                ;
            }
            return None;
        }
        proof {
            assert(-1 * (digits_val(ip) * 1000 + frac_val(fp)) == -(digits_val(ip) * 1000
                + frac_val(fp))) by (nonlinear_arith);
        }
        Some((-total) as i32)
    } else {
        if total > 2147483647 {
            proof {
                assert(1 * (digits_val(ip) * 1000 + frac_val(fp)) > 2147483647)
                    by (nonlinear_arith)
                    requires
                        digits_val(ip) * 1000 + frac_val(fp) > 2147483647,
                ;
            }
            return None;
        }
        proof {
            assert(1 * (digits_val(ip) * 1000 + frac_val(fp)) == digits_val(ip) * 1000 + frac_val(
                fp,
            )) by (nonlinear_arith);
        }
        Some(total as i32)
    }
}

/// A digit string of at most three digits denotes less than a thousand.
pub proof fn lemma_digits_val_three(s: Seq<char>)
    requires
        all_digits(s),
        s.len() <= 3,
    ensures
        0 <= digits_val(s),
        s.len() <= 1 ==> digits_val(s) <= 9,
        s.len() <= 2 ==> digits_val(s) <= 99,
        digits_val(s) <= 999,
    decreases s.len(),
{
    if s.len() > 0 {
        assert(all_digits(s.drop_last())) by {
            assert(forall|i: int| 0 <= i < s.len() - 1 ==> s.drop_last()[i] == s[i]);
        }
        lemma_digits_val_three(s.drop_last());
        if s.len() == 1 {
            assert(0 <= digits_val(s.drop_last()) * 10 <= 0) by (nonlinear_arith)
                requires
                    digits_val(s.drop_last()) == 0,
            ;
        } else if s.len() == 2 {
            assert(0 <= digits_val(s.drop_last()) * 10 <= 90) by (nonlinear_arith)
                requires
                    0 <= digits_val(s.drop_last()) <= 9,
            ;
        } else {
            assert(0 <= digits_val(s.drop_last()) * 10 <= 990) by (nonlinear_arith)
                requires
                    0 <= digits_val(s.drop_last()) <= 99,
            ;
        }
    }
}

/// Split a text into its space-separated tokens.
pub fn tokenize(s: &str) -> (r: Vec<String>)
    ensures
        r.deep_view() == spec_tokens(s@),
{
    let n = s.unicode_len();
    let mut out: Vec<String> = Vec::new();
    let mut start: usize = 0;
    let mut i: usize = 0;
    proof {
        assert(s@.skip(0) =~= s@);
        assert(out.deep_view() =~= Seq::<Seq<char>>::empty());
        assert(out.deep_view() + spec_tokens(s@) =~= spec_tokens(s@));
    }
    while i < n
        invariant
            0 <= start <= i <= n == s@.len(),
            forall|j: int| start <= j < i ==> s@[j] != ' ',
            spec_tokens(s@) == out.deep_view() + spec_tokens(s@.skip(start as int)),
        decreases n - i,
    {
        if s.get_char(i) == ' ' {
            let tok = String::from_str(s.substring_char(start, i));
            proof {
                let rest = s@.skip(start as int);
                assert(forall|j: int| 0 <= j < rest.len() ==> rest[j] == s@[j + start]);
                lemma_find_char_at(rest, ' ', i - start);
                assert(rest.take(i - start) =~= s@.subrange(start as int, i as int));
                assert(rest.skip(i - start + 1) =~= s@.skip(i as int + 1));
                assert(spec_tokens(rest) == seq![rest.take(i - start)] + spec_tokens(
                    rest.skip(i - start + 1),
                ));
            }
            let ghost prev = out.deep_view();
            out.push(tok);
            proof {
                assert(out.deep_view() =~= prev.push(tok@));
                assert(prev + (seq![tok@] + spec_tokens(s@.skip(i as int + 1))) =~= prev.push(
                    tok@,
                ) + spec_tokens(s@.skip(i as int + 1)));
            }
            start = i + 1;
        }
        i += 1;
    }
    let tok = String::from_str(s.substring_char(start, n));
    proof {
        let rest = s@.skip(start as int);
        assert(forall|j: int| 0 <= j < rest.len() ==> rest[j] == s@[j + start]);
        lemma_find_char_none(rest, ' ');
        assert(spec_tokens(rest) == seq![rest]);
        assert(rest =~= s@.subrange(start as int, n as int));
    }
    let ghost prev = out.deep_view();
    out.push(tok);
    proof {
        assert(out.deep_view() =~= prev.push(tok@));
        assert(prev + seq![tok@] =~= prev.push(tok@));
    }
    out
}

} // verus!
