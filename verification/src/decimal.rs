//! Whole numbers as decimal text.

use vstd::prelude::*;
use vstd::string::*;

verus! {

/// A decimal digit.
pub open spec fn is_digit(c: char) -> bool {
    '0' <= c <= '9'
}

/// The value of a digit.
pub open spec fn digit_value(c: char) -> int {
    c as int - '0' as int
}

/// The number that a string of digits stands for.
pub open spec fn digits_value(s: Seq<char>) -> int
    decreases s.len(),
{
    if s.len() == 0 {
        0
    } else {
        10 * digits_value(s.drop_last()) + digit_value(s.last())
    }
}

/// At least one digit, and nothing else.
pub open spec fn all_digits(s: Seq<char>) -> bool {
    s.len() > 0 && forall|i: int| 0 <= i < s.len() ==> is_digit(#[trigger] s[i])
}

/// The number that a text stands for: digits, with a sign in front or not. None where it is anything
/// else, or the number does not fit.
pub open spec fn parse_spec(s: Seq<char>) -> Option<i64> {
    if s.len() > 0 && s[0] == '-' {
        let body = s.subrange(1, s.len() as int);
        if all_digits(body) && -digits_value(body) >= i64::MIN {
            Some((-digits_value(body)) as i64)
        } else {
            None
        }
    } else {
        let body = if s.len() > 0 && s[0] == '+' {
            s.subrange(1, s.len() as int)
        } else {
            s
        };
        if all_digits(body) && digits_value(body) <= i64::MAX {
            Some(digits_value(body) as i64)
        } else {
            None
        }
    }
}

proof fn lemma_value_grows(s: Seq<char>, k: int)
    requires
        0 <= k <= s.len(),
        forall|i: int| 0 <= i < s.len() ==> is_digit(#[trigger] s[i]),
    ensures
        0 <= digits_value(s.take(k)) <= digits_value(s),
    decreases s.len() - k,
{
    if k < s.len() {
        lemma_value_grows(s, k + 1);
        assert(s.take(k + 1).drop_last() =~= s.take(k));
        assert(is_digit(s[k]));
        lemma_value_nonnegative(s.take(k));
    } else {
        assert(s.take(k) =~= s);
        lemma_value_nonnegative(s);
    }
}

proof fn lemma_value_nonnegative(s: Seq<char>)
    requires
        forall|i: int| 0 <= i < s.len() ==> is_digit(#[trigger] s[i]),
    ensures
        digits_value(s) >= 0,
    decreases s.len(),
{
    if s.len() > 0 {
        lemma_value_nonnegative(s.drop_last());
        assert(is_digit(s[s.len() - 1]));
    }
}

/// The number that `body` stands for, if it is digits and the number is no larger than `limit`.
fn parse_digits(s: &[char], from: usize, limit: u64) -> (r: Option<u64>)
    requires
        from <= s@.len(),
        limit <= 0x8000_0000_0000_0000,
    ensures
        match r {
            Some(v) => all_digits(s@.subrange(from as int, s@.len() as int)) && v == digits_value(
                s@.subrange(from as int, s@.len() as int),
            ) && v <= limit,
            None => !all_digits(s@.subrange(from as int, s@.len() as int)) || digits_value(
                s@.subrange(from as int, s@.len() as int),
            ) > limit,
        },
{
    let ghost body = s@.subrange(from as int, s@.len() as int);
    if from == s.len() {
        return None;
    }
    let mut v: u64 = 0;
    let mut i: usize = from;
    while i < s.len()
        invariant
            from <= i <= s@.len(),
            limit <= 0x8000_0000_0000_0000,
            body == s@.subrange(from as int, s@.len() as int),
            forall|k: int| 0 <= k < i - from ==> is_digit(#[trigger] body[k]),
            v == digits_value(body.take(i - from)),
            v <= limit,
        decreases s.len() - i,
    {
        let c: char = s[i];
        assert(body[i - from] == c);
        if c < '0' || c > '9' {
            return None;
        }
        let d: u64 = (c as u32 - '0' as u32) as u64;
        proof {
            assert(body.take(i + 1 - from).drop_last() =~= body.take(i - from));
            assert(digits_value(body.take(i + 1 - from)) == 10 * v + d);
        }
        let next: u128 = 10 * (v as u128) + d as u128;
        if next > limit as u128 {
            proof {
                if all_digits(body) {
                    lemma_value_grows(body, i + 1 - from);
                }
            }
            return None;
        }
        v = next as u64;
        i = i + 1;
    }
    assert(body.take(body.len() as int) =~= body);
    Some(v)
}

/// The number that a text stands for.
pub fn parse(s: &[char]) -> (r: Option<i64>)
    ensures
        r == parse_spec(s@),
{
    if s.len() > 0 && s[0] == '-' {
        match parse_digits(s, 1, 0x8000_0000_0000_0000) {
            Some(v) => {
                if v == 0x8000_0000_0000_0000 {
                    Some(i64::MIN)
                } else {
                    Some(-(v as i64))
                }
            },
            None => None,
        }
    } else {
        let from: usize = if s.len() > 0 && s[0] == '+' {
            1
        } else {
            0
        };
        assert(from == 0 ==> s@.subrange(0, s@.len() as int) =~= s@);
        match parse_digits(s, from, 0x7fff_ffff_ffff_ffff) {
            Some(v) => Some(v as i64),
            None => None,
        }
    }
}

/// The digit of a value below ten.
pub open spec fn digit_of(d: int) -> char {
    ('0' as int + d) as char
}

/// The digits of a number that is not negative.
pub open spec fn digits_of(n: int) -> Seq<char>
    decreases n,
{
    if n < 10 {
        seq![digit_of(n)]
    } else {
        digits_of(n / 10).push(digit_of(n % 10))
    }
}

/// A number as text.
pub open spec fn decimal(n: int) -> Seq<char> {
    if n < 0 {
        seq!['-'] + digits_of(-n)
    } else {
        digits_of(n)
    }
}

fn digit_char(d: u64) -> (c: &'static str)
    requires
        d < 10,
    ensures
        c@ == seq![digit_of(d as int)],
{
    proof {
        reveal_strlit("0");
        reveal_strlit("1");
        reveal_strlit("2");
        reveal_strlit("3");
        reveal_strlit("4");
        reveal_strlit("5");
        reveal_strlit("6");
        reveal_strlit("7");
        reveal_strlit("8");
        reveal_strlit("9");
    }
    match d {
        0 => "0",
        1 => "1",
        2 => "2",
        3 => "3",
        4 => "4",
        5 => "5",
        6 => "6",
        7 => "7",
        8 => "8",
        _ => "9",
    }
}

fn digits_text(n: u64) -> (r: String)
    ensures
        r@ == digits_of(n as int),
    decreases n,
{
    if n < 10 {
        digit_char(n).to_owned()
    } else {
        let mut r: String = digits_text(n / 10);
        r.append(digit_char(n % 10));
        assert(r@ =~= digits_of(n as int));
        r
    }
}

/// A number as text.
pub fn to_text(n: i64) -> (r: String)
    ensures
        r@ == decimal(n as int),
{
    if n < 0 {
        let m: u64 = if n == i64::MIN {
            0x8000_0000_0000_0000
        } else {
            (-n) as u64
        };
        let mut r: String = "-".to_owned();
        let digits: String = digits_text(m);
        r.append(digits.as_str());
        proof {
            reveal_strlit("-");
            assert("-"@ =~= seq!['-']);
        }
        r
    } else {
        digits_text(n as u64)
    }
}

proof fn lemma_digits_value(n: int)
    requires
        n >= 0,
    ensures
        all_digits(digits_of(n)),
        digits_value(digits_of(n)) == n,
    decreases n,
{
    let d = digits_of(n);
    if n < 10 {
        assert(d.drop_last() =~= Seq::<char>::empty());
        assert(digits_value(Seq::<char>::empty()) == 0);
        assert(d.last() == digit_of(n));
        assert(is_digit(d[0]));
    } else {
        lemma_digits_value(n / 10);
        assert(d.drop_last() =~= digits_of(n / 10));
        assert(d.last() == digit_of(n % 10));
        assert forall|i: int| 0 <= i < d.len() implies is_digit(#[trigger] d[i]) by {
            if i < d.len() - 1 {
                assert(d[i] == digits_of(n / 10)[i]);
            }
        }
    }
}

/// A number is read back from its text.
pub proof fn lemma_read_back(n: i64)
    ensures
        parse_spec(decimal(n as int)) == Some(n),
{
    let s = decimal(n as int);
    if n < 0 {
        lemma_digits_value(-n);
        assert(s.subrange(1, s.len() as int) =~= digits_of(-n));
    } else {
        lemma_digits_value(n as int);
        assert(is_digit(s[0]));
    }
}

/// The text of a number holds digits and a sign only.
pub proof fn lemma_decimal_plain(n: i64, i: int)
    requires
        0 <= i < decimal(n as int).len(),
    ensures
        is_digit(decimal(n as int)[i]) || decimal(n as int)[i] == '-',
{
    if n < 0 {
        lemma_digits_value(-n);
        if i > 0 {
            assert(decimal(n as int)[i] == digits_of(-n)[i - 1]);
        }
    } else {
        lemma_digits_value(n as int);
    }
}

/// What a text reads as. A single digit is its own value; one more digit makes ten times the number
/// and the digit of it, as long as that fits; a plus in front changes nothing, and a minus the sign.
pub proof fn lemma_parse_steps(s: Seq<char>, c: char)
    requires
        '0' <= c <= '9',
    ensures
        parse_spec(seq![c]) == Some((c as int - '0' as int) as i64),
        s.len() > 0 && '0' <= s[0] <= '9' ==> {
            let d = c as int - '0' as int;
            &&& parse_spec(s) is Some && 10 * parse_spec(s)->0 + d <= i64::MAX ==> parse_spec(
                s.push(c),
            ) == Some((10 * parse_spec(s)->0 + d) as i64)
            &&& parse_spec(s) is Some && 10 * parse_spec(s)->0 + d > i64::MAX ==> parse_spec(
                s.push(c),
            ) is None
            &&& parse_spec(s) is None ==> parse_spec(s.push(c)) is None
            &&& parse_spec(seq!['+'] + s) == parse_spec(s)
            &&& parse_spec(s) is Some ==> parse_spec(seq!['-'] + s) == Some(
                (-parse_spec(s)->0) as i64,
            )
        },
{
    let one = seq![c];
    assert(one.drop_last() =~= Seq::<char>::empty());
    assert(digits_value(one) == digit_value(c)) by {
        assert(digits_value(Seq::<char>::empty()) == 0);
    }
    if s.len() > 0 && '0' <= s[0] <= '9' {
        let t = s.push(c);
        assert(t.drop_last() =~= s);
        assert(digits_value(t) == 10 * digits_value(s) + digit_value(c));
        assert(t[0] == s[0]);
        if all_digits(s) {
            lemma_digits_nonnegative(s);
            assert(all_digits(t));
        } else {
            let i = choose|i: int| 0 <= i < s.len() && !is_digit(#[trigger] s[i]);
            assert(!is_digit(t[i]));
            assert(!all_digits(t));
        }
        let (plus, minus) = (seq!['+'] + s, seq!['-'] + s);
        assert(plus[0] == '+' && minus[0] == '-');
        assert(plus.subrange(1, plus.len() as int) =~= s);
        assert(minus.subrange(1, minus.len() as int) =~= s);
    }
}

proof fn lemma_digits_nonnegative(s: Seq<char>)
    requires
        forall|i: int| 0 <= i < s.len() ==> is_digit(#[trigger] s[i]),
    ensures
        digits_value(s) >= 0,
    decreases s.len(),
{
    if s.len() > 0 {
        let front = s.drop_last();
        assert forall|i: int| 0 <= i < front.len() implies is_digit(#[trigger] front[i]) by {
            assert(is_digit(s[i]));
        }
        lemma_digits_nonnegative(front);
        assert(is_digit(s[s.len() - 1]));
    }
}

/// A text with anything but digits behind its sign is no number, and neither is one without digits.
pub proof fn lemma_parse_refuses(s: Seq<char>, i: int)
    ensures
        0 <= i < s.len() && !('0' <= s[i] <= '9') && (i > 0 || (s[0] != '-' && s[0] != '+'))
            ==> parse_spec(s) is None,
        s.len() == 0 || (s.len() == 1 && !('0' <= s[0] <= '9')) ==> parse_spec(s) is None,
{
    if 0 <= i < s.len() && !('0' <= s[i] <= '9') && (i > 0 || (s[0] != '-' && s[0] != '+')) {
        let body = s.subrange(1, s.len() as int);
        if i > 0 {
            assert(!is_digit(body[i - 1]));
        }
        assert(!is_digit(s[i]));
    }
}

/// The text of a number begins with a minus exactly if the number is negative, holds digits behind it,
/// and has no zero in front unless the number is zero.
pub proof fn lemma_decimal_shape(n: int, i: int)
    ensures
        n < 0 <==> decimal(n)[0] == '-',
        n < 0 ==> decimal(n) == seq!['-'] + decimal(-n),
        n >= 0 && 0 <= i < decimal(n).len() ==> '0' <= decimal(n)[i] <= '9',
        n > 0 ==> decimal(n)[0] != '0',
        decimal(0) == seq!['0'],
{
    if n >= 0 {
        lemma_digits_value(n);
        assert(is_digit(decimal(n)[0]));
        if 0 <= i < decimal(n).len() {
            assert(is_digit(decimal(n)[i]));
        }
        if n > 0 {
            lemma_no_leading_zero(n);
        }
    } else {
        lemma_digits_value(-n);
    }
}

proof fn lemma_no_leading_zero(n: int)
    requires
        n > 0,
    ensures
        digits_of(n)[0] != '0',
    decreases n,
{
    if n >= 10 {
        lemma_no_leading_zero(n / 10);
        lemma_digits_value(n / 10);
        assert(digits_of(n)[0] == digits_of(n / 10)[0]);
    }
}

} // verus!
