use vstd::prelude::*;
use crate::text::string_of;

verus! {

/// True when `c` is a decimal digit.
pub open spec fn is_digit(c: char) -> bool {
    '0' <= c && c <= '9'
}

/// Numeric value of a decimal digit.
pub open spec fn digit_val(c: char) -> int {
    c as int - '0' as int
}

/// Value of an unsigned decimal digit string, most significant digit first.
pub open spec fn digits_val(s: Seq<char>) -> int
    decreases s.len(),
{
    if s.len() == 0 {
        0
    } else {
        digits_val(s.drop_last()) * 10 + digit_val(s.last())
    }
}

/// True when every character of `s` is a decimal digit.
pub open spec fn all_digits(s: Seq<char>) -> bool {
    forall|i: int| 0 <= i < s.len() ==> is_digit(#[trigger] s[i])
}

/// The canonical decimal text of an integer: "0", or a nonempty digit string
/// without a leading zero, with a leading '-' only on a negative value.
pub open spec fn canonical(s: Seq<char>) -> bool {
    if s.len() == 0 {
        false
    } else if s[0] == '-' {
        s.len() >= 2 && all_digits(s.skip(1)) && s[1] != '0'
    } else {
        all_digits(s) && (s.len() >= 2 ==> s[0] != '0')
    }
}

/// The integer a decimal text stands for.
pub open spec fn int_of(s: Seq<char>) -> int {
    if s.len() > 0 && s[0] == '-' {
        -digits_val(s.skip(1))
    } else {
        digits_val(s)
    }
}

/// The magnitude of an integer.
pub open spec fn abs_int(a: int) -> int {
    if a >= 0 {
        a
    } else {
        -a
    }
}

/// Integer division rounding toward zero, as the host's big integers divide.
pub open spec fn trunc_div(a: int, b: int) -> int {
    if (a >= 0) == (b >= 0) {
        abs_int(a) / abs_int(b)
    } else {
        -(abs_int(a) / abs_int(b))
    }
}

/// Relies on num's `BigInt`: parsing (sign and digits), addition, and
/// `Display`, which prints the canonical decimal text.
#[verifier::external_body]
pub fn big_add(a: &str, b: &str) -> (r: String)
    requires
        canonical(a@),
        canonical(b@),
    ensures
        canonical(r@),
        int_of(r@) == int_of(a@) + int_of(b@),
{
    let x: num::bigint::BigInt = a.parse().unwrap();
    let y: num::bigint::BigInt = b.parse().unwrap();
    (x + y).to_string()
}

/// Relies on num's `BigInt`: parsing, subtraction, and `Display`.
#[verifier::external_body]
pub fn big_sub(a: &str, b: &str) -> (r: String)
    requires
        canonical(a@),
        canonical(b@),
    ensures
        canonical(r@),
        int_of(r@) == int_of(a@) - int_of(b@),
{
    let x: num::bigint::BigInt = a.parse().unwrap();
    let y: num::bigint::BigInt = b.parse().unwrap();
    (x - y).to_string()
}

/// Relies on num's `BigInt`: parsing, multiplication, and `Display`.
#[verifier::external_body]
pub fn big_mul(a: &str, b: &str) -> (r: String)
    requires
        canonical(a@),
        canonical(b@),
    ensures
        canonical(r@),
        int_of(r@) == int_of(a@) * int_of(b@),
{
    let x: num::bigint::BigInt = a.parse().unwrap();
    let y: num::bigint::BigInt = b.parse().unwrap();
    (x * y).to_string()
}

/// Relies on num's `BigInt`: parsing, `Div` (which truncates toward zero and
/// panics on a zero divisor, kept out by the precondition), and `Display`.
#[verifier::external_body]
pub fn big_div(a: &str, b: &str) -> (r: String)
    requires
        canonical(a@),
        canonical(b@),
        int_of(b@) != 0,
    ensures
        canonical(r@),
        int_of(r@) == trunc_div(int_of(a@), int_of(b@)),
{
    let x: num::bigint::BigInt = a.parse().unwrap();
    let y: num::bigint::BigInt = b.parse().unwrap();
    (x / y).to_string()
}

/// Relies on num's `BigInt`: parsing and `Ord`, which orders by value.
#[verifier::external_body]
pub fn big_lt(a: &str, b: &str) -> (r: bool)
    requires
        canonical(a@),
        canonical(b@),
    ensures
        r == (int_of(a@) < int_of(b@)),
{
    let x: num::bigint::BigInt = a.parse().unwrap();
    let y: num::bigint::BigInt = b.parse().unwrap();
    x < y
}

/// Relies on num's `BigInt`: parsing and `Ord`, which orders by value.
#[verifier::external_body]
pub fn big_le(a: &str, b: &str) -> (r: bool)
    requires
        canonical(a@),
        canonical(b@),
    ensures
        r == (int_of(a@) <= int_of(b@)),
{
    let x: num::bigint::BigInt = a.parse().unwrap();
    let y: num::bigint::BigInt = b.parse().unwrap();
    x <= y
}

/// A leading zero does not change the value of a digit string.
pub proof fn lemma_strip_zero(s: Seq<char>)
    requires
        s.len() > 0,
        s[0] == '0',
    ensures
        digits_val(s) == digits_val(s.drop_first()),
    decreases s.len(),
{
    if s.len() == 1 {
        assert(digits_val(Seq::<char>::empty()) == 0);
        assert(s.drop_last() =~= Seq::<char>::empty());
        assert(s.drop_first() =~= Seq::<char>::empty());
        assert(s.last() == s[0]);
        assert(digits_val(s) == digits_val(s.drop_last()) * 10 + digit_val(s.last()));
        assert(digits_val(s) == digit_val('0'));
    } else {
        lemma_strip_zero(s.drop_last());
        assert(s.drop_first().drop_last() =~= s.drop_last().drop_first());
        assert(s.drop_first().last() == s.last());
    }
}

/// A digit string with a nonzero leading digit has a positive value.
pub proof fn lemma_nonzero_lead(s: Seq<char>)
    requires
        s.len() > 0,
        all_digits(s),
        s[0] != '0',
    ensures
        digits_val(s) >= 1,
    decreases s.len(),
{
    assert(digits_val(Seq::<char>::empty()) == 0);
    if s.len() == 1 {
        assert(s.drop_last() =~= Seq::<char>::empty());
        assert(s.last() == s[0]);
        assert(digits_val(s) == digits_val(s.drop_last()) * 10 + digit_val(s.last()));
        assert(is_digit(s[0]));
        assert(digit_val(s[0]) >= 1);
    } else {
        assert(s.drop_last()[0] == s[0]);
        assert(forall|i: int| 0 <= i < s.len() - 1 ==> s.drop_last()[i] == s[i]);
        lemma_nonzero_lead(s.drop_last());
        assert(is_digit(s[s.len() - 1]));
        assert(s.last() == s[s.len() - 1]);
        assert(digit_val(s.last()) >= 0);
    }
}

/// Every digit string has a value at least zero.
pub proof fn lemma_digits_nonneg(s: Seq<char>)
    requires
        all_digits(s),
    ensures
        digits_val(s) >= 0,
    decreases s.len(),
{
    if s.len() > 0 {
        lemma_digits_nonneg(s.drop_last());
        assert(is_digit(s.last()));
    }
}

/// A canonical text stands for zero exactly when it is "0".
pub proof fn lemma_canonical_zero(s: Seq<char>)
    requires
        canonical(s),
    ensures
        (int_of(s) == 0) <==> (s =~= seq!['0']),
{
    if s[0] == '-' {
        assert(s.skip(1)[0] == s[1]);
        lemma_nonzero_lead(s.skip(1));
        assert(int_of(s) <= -1);
        assert(!(s =~= seq!['0']));
    } else if s.len() >= 2 {
        lemma_nonzero_lead(s);
        assert(int_of(s) >= 1);
        assert(!(s =~= seq!['0']));
    } else {
        assert(digits_val(Seq::<char>::empty()) == 0);
        assert(s.drop_last() =~= Seq::<char>::empty());
        assert(s.last() == s[0]);
        assert(digits_val(s) == digits_val(s.drop_last()) * 10 + digit_val(s.last()));
        assert(digits_val(s) == digit_val(s[0]));
        if s[0] == '0' {
            assert(s =~= seq!['0']);
        } else {
            assert(is_digit(s[0]) && s[0] != '0');
            assert(digit_val(s[0]) >= 1);
            assert(!(s =~= seq!['0']));
        }
    }
}

/// Build the canonical text of a digit run, with its sign.
///
/// The run `v[start..end]` is unsigned digits as written in a program text,
/// possibly with leading zeros; `neg` says whether a minus sign preceded it.
#[verifier::rlimit(60)]
pub fn make_number(v: &Vec<char>, start: usize, end: usize, neg: bool) -> (r: String)
    requires
        start < end <= v@.len(),
        all_digits(v@.subrange(start as int, end as int)),
    ensures
        canonical(r@),
        int_of(r@) == if neg {
            -digits_val(v@.subrange(start as int, end as int))
        } else {
            digits_val(v@.subrange(start as int, end as int))
        },
{
    let ghost whole = v@.subrange(start as int, end as int);
    let mut i: usize = start;
    while i + 1 < end && v[i] == '0'
        invariant
            start <= i < end <= v@.len(),
            all_digits(v@.subrange(start as int, end as int)),
            digits_val(v@.subrange(i as int, end as int)) == digits_val(
                v@.subrange(start as int, end as int),
            ),
        decreases end - i,
    {
        proof {
            let cur = v@.subrange(i as int, end as int);
            lemma_strip_zero(cur);
            assert(cur.drop_first() =~= v@.subrange(i as int + 1, end as int));
        }
        i = i + 1;
    }
    if v[i] == '0' {
        // the run was all zeros
        proof {
            let cur = v@.subrange(i as int, end as int);
            assert(i + 1 == end);
            assert(cur =~= seq![v@[i as int]]);
            assert(cur.drop_last() =~= Seq::<char>::empty());
            assert(cur.last() == v@[i as int]);
            assert(cur.last() == '0');
            assert(digits_val(Seq::<char>::empty()) == 0);
            assert(digits_val(cur) == digits_val(cur.drop_last()) * 10 + digit_val(cur.last()));
            assert(digits_val(cur) == digit_val('0'));
            reveal_strlit("0");
        }
        let zero = "0";
        let r = zero.to_owned();
        proof {
            assert(r@ =~= seq!['0']);
            assert(all_digits(r@));
        }
        return r;
    }
    let mut out: Vec<char> = Vec::new();
    if neg {
        out.push('-');
    }
    let ghost sign: Seq<char> = if neg {
        seq!['-']
    } else {
        Seq::<char>::empty()
    };
    proof {
        assert(out@ =~= sign);
    }
    let mut j: usize = i;
    while j < end
        invariant
            start <= i <= j <= end <= v@.len(),
            all_digits(v@.subrange(start as int, end as int)),
            out@ =~= sign + v@.subrange(i as int, j as int),
        decreases end - j,
    {
        let c = v[j];
        out.push(c);
        proof {
            assert(out@ =~= sign + v@.subrange(i as int, j as int + 1));
        }
        j = j + 1;
    }
    let r = string_of(&out);
    proof {
        let digits = v@.subrange(i as int, end as int);
        assert(r@ =~= sign + digits);
        assert(forall|k: int| 0 <= k < digits.len() ==> digits[k] == whole[i - start + k]);
        assert(all_digits(digits));
        assert(digits[0] == v@[i as int] && v@[i as int] != '0');
        if neg {
            assert(r@[0] == '-');
            assert(r@.skip(1) =~= digits);
            assert(r@[1] == digits[0]);
        } else {
            assert(r@[0] == digits[0]);
            assert(r@ =~= digits);
        }
    }
    r
}


/// The decimal digit character of `d`, for 0 <= d <= 9.
pub open spec fn digit_char(d: int) -> char {
    if d == 0 {
        '0'
    } else if d == 1 {
        '1'
    } else if d == 2 {
        '2'
    } else if d == 3 {
        '3'
    } else if d == 4 {
        '4'
    } else if d == 5 {
        '5'
    } else if d == 6 {
        '6'
    } else if d == 7 {
        '7'
    } else if d == 8 {
        '8'
    } else {
        '9'
    }
}

/// The decimal digits of a nonnegative integer, no leading zero but for 0.
pub open spec fn udigits(v: nat) -> Seq<char>
    decreases v,
{
    if v < 10 {
        seq![digit_char(v as int)]
    } else {
        udigits(v / 10).push(digit_char((v % 10) as int))
    }
}

/// The canonical decimal text of an integer.
pub open spec fn canon_of(v: int) -> Seq<char> {
    if v < 0 {
        seq!['-'] + udigits((-v) as nat)
    } else {
        udigits(v as nat)
    }
}

/// The digit character of a digit's value is the digit again.
proof fn lemma_digit_char_val(c: char)
    requires
        is_digit(c),
    ensures
        digit_char(digit_val(c)) == c,
{
}

/// `udigits` writes exactly the digits of its argument.
pub proof fn lemma_udigits_correct(v: nat)
    ensures
        all_digits(udigits(v)),
        digits_val(udigits(v)) == v,
        udigits(v).len() >= 1,
        v >= 1 ==> udigits(v)[0] != '0',
        v < 10 ==> udigits(v) =~= seq![digit_char(v as int)],
    decreases v,
{
    if v < 10 {
        let s = seq![digit_char(v as int)];
        assert(digits_val(Seq::<char>::empty()) == 0);
        assert(s.drop_last() =~= Seq::<char>::empty());
        assert(s.last() == digit_char(v as int));
        assert(digits_val(s) == digit_val(digit_char(v as int)));
        assert(forall|i: int| 0 <= i < s.len() ==> is_digit(#[trigger] s[i]));
    } else {
        lemma_udigits_correct(v / 10);
        let p = udigits(v / 10);
        let d = digit_char((v % 10) as int);
        let s = p.push(d);
        assert(s.drop_last() =~= p);
        assert(s.last() == d);
        assert(digits_val(s) == digits_val(p) * 10 + digit_val(d));
        vstd::arithmetic::div_mod::lemma_fundamental_div_mod(v as int, 10);
        assert(is_digit(d));
        assert(forall|i: int|
            0 <= i < s.len() ==> is_digit(
                #[trigger] s[i],
            )) by {
            assert(forall|i: int| 0 <= i < p.len() ==> is_digit(#[trigger] p[i]));
        }
        assert(s[0] == p[0]);
        assert(v / 10 >= 1);
    }
}

/// `canon_of` writes a canonical text with the given value.
pub proof fn lemma_canon_of_correct(v: int)
    ensures
        canonical(canon_of(v)),
        int_of(canon_of(v)) == v,
{
    if v < 0 {
        lemma_udigits_correct((-v) as nat);
        let u = udigits((-v) as nat);
        let s = seq!['-'] + u;
        assert(s[0] == '-');
        assert(s.skip(1) =~= u);
        assert(s[1] == u[0]);
        assert(u[0] != '0');
    } else {
        lemma_udigits_correct(v as nat);
        let s = udigits(v as nat);
        assert(is_digit(s[0]));
        assert(s[0] != '-');
        if s.len() >= 2 {
            if v < 10 {
                assert(s =~= seq![digit_char(v)]);
                assert(false);
            }
            assert(v >= 10);
        }
    }
}

/// A digit string without a leading zero is `udigits` of its value.
proof fn lemma_udigits_unique(s: Seq<char>)
    requires
        s.len() >= 1,
        all_digits(s),
        s.len() >= 2 ==> s[0] != '0',
    ensures
        s =~= udigits(digits_val(s) as nat),
    decreases s.len(),
{
    lemma_digits_nonneg(s);
    let d = s.last();
    assert(is_digit(d));
    if s.len() == 1 {
        assert(s.drop_last() =~= Seq::<char>::empty());
        assert(digits_val(Seq::<char>::empty()) == 0);
        assert(digits_val(s) == digit_val(d));
        assert(s.last() == s[0]);
        lemma_digit_char_val(d);
        assert(udigits(digits_val(s) as nat) =~= seq![digit_char(digit_val(d))]);
    } else {
        let p = s.drop_last();
        assert(p[0] == s[0]);
        assert(forall|i: int| 0 <= i < p.len() ==> is_digit(#[trigger] p[i])) by {
            assert(forall|i: int| 0 <= i < p.len() ==> p[i] == s[i]);
        }
        lemma_udigits_unique(p);
        lemma_nonzero_lead(p);
        let v = digits_val(s);
        assert(v == digits_val(p) * 10 + digit_val(d));
        vstd::arithmetic::div_mod::lemma_fundamental_div_mod_converse(
            v,
            10,
            digits_val(p),
            digit_val(d),
        );
        assert(v / 10 == digits_val(p));
        assert(v % 10 == digit_val(d));
        assert(v >= 10);
        lemma_digit_char_val(d);
        assert(udigits(v as nat) == udigits((v as nat) / 10).push(digit_char(((v as nat) % 10) as int)));
        assert((v as nat) / 10 == (v / 10) as nat);
        assert((v as nat) % 10 == (v % 10) as nat);
        assert(udigits(v as nat) =~= udigits(digits_val(p) as nat).push(d));
    }
}

/// One integer has one canonical text.
pub proof fn lemma_canonical_unique(s: Seq<char>)
    requires
        canonical(s),
    ensures
        s =~= canon_of(int_of(s)),
{
    if s[0] == '-' {
        let u = s.skip(1);
        assert(u[0] == s[1]);
        assert(forall|i: int| 0 <= i < u.len() ==> is_digit(#[trigger] u[i]));
        lemma_udigits_unique(u);
        lemma_nonzero_lead(u);
        let v = int_of(s);
        assert(v == -digits_val(u));
        assert(v < 0);
        assert(canon_of(v) == seq!['-'] + udigits((-v) as nat));
        assert(udigits((-v) as nat) =~= u);
    } else {
        lemma_digits_nonneg(s);
        let v = int_of(s);
        assert(v == digits_val(s));
        lemma_udigits_unique(s);
    }
}

} // verus!
