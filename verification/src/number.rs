//! Whole numbers as decimal text.
use crate::text::chars_of;
use vstd::prelude::*;
use vstd::string::*;

verus! {

/// The decimal digit with value `d`.
pub open spec fn digit_char(d: int) -> char {
    (48 + d) as char
}

/// Is `c` a decimal digit?
pub open spec fn is_digit(c: char) -> bool {
    '0' <= c <= '9'
}

/// The decimal text of `n`, without leading zeros.
pub open spec fn nat_text(n: nat) -> Seq<char>
    decreases n,
{
    if n < 10 {
        seq![digit_char(n as int)]
    } else {
        nat_text(n / 10).push(digit_char((n % 10) as int))
    }
}

/// The decimal text of `i`, with a minus sign before a negative number.
pub open spec fn int_text(i: int) -> Seq<char> {
    if i < 0 {
        seq!['-'] + nat_text((-i) as nat)
    } else {
        nat_text(i as nat)
    }
}

/// Are all characters of `s` decimal digits?
pub open spec fn all_digits(s: Seq<char>) -> bool {
    forall|i: int| 0 <= i < s.len() ==> is_digit(#[trigger] s[i])
}

/// The number that a run of decimal digits writes.
pub open spec fn digits_value(s: Seq<char>) -> nat
    decreases s.len(),
{
    if s.len() == 0 {
        0
    } else {
        digits_value(s.drop_last()) * 10 + (s.last() as int - 48) as nat
    }
}

/// The number that `s` writes: an optional sign, then at least one digit and
/// nothing else.
pub open spec fn text_int(s: Seq<char>) -> Option<int> {
    let signed = s.len() > 0 && (s[0] == '+' || s[0] == '-');
    let body = if signed {
        s.skip(1)
    } else {
        s
    };
    if body.len() == 0 || !all_digits(body) {
        None
    } else if signed && s[0] == '-' {
        Some(-(digits_value(body) as int))
    } else {
        Some(digits_value(body) as int)
    }
}

fn digit_of(d: u64) -> (c: char)
    requires
        d < 10,
    ensures
        c == digit_char(d as int),
{
    if d == 0 {
        '0'
    } else if d == 1 {
        '1'
    } else if d == 2 {
        '2'
    } else if d == 3 {
        '3'
    } else if d == 4 {
        '4'
    } else if d == 5 {
        '5'
    } else if d == 6 {
        '6'
    } else if d == 7 {
        '7'
    } else if d == 8 {
        '8'
    } else {
        '9'
    }
}

fn value_of(c: char) -> (d: u64)
    requires
        is_digit(c),
    ensures
        d == c as int - 48,
        d < 10,
{
    if c == '0' {
        0
    } else if c == '1' {
        1
    } else if c == '2' {
        2
    } else if c == '3' {
        3
    } else if c == '4' {
        4
    } else if c == '5' {
        5
    } else if c == '6' {
        6
    } else if c == '7' {
        7
    } else if c == '8' {
        8
    } else {
        9
    }
}

/// The decimal text of `n`.
pub fn u64_text(n: u64) -> (r: String)
    ensures
        r@ == nat_text(n as nat),
    decreases n,
{
    let mut out = if n < 10 {
        String::new()
    } else {
        u64_text(n / 10)
    };
    out.push(digit_of(n % 10));
    assert(out@ =~= nat_text(n as nat));
    out
}

/// The decimal text of `i`.
pub fn i64_text(i: i64) -> (r: String)
    ensures
        r@ == int_text(i as int),
{
    if i < 0 {
        let mut out = String::new();
        out.push('-');
        let m: u64 = if i == i64::MIN {
            9_223_372_036_854_775_808
        } else {
            (-i) as u64
        };
        let digits = u64_text(m);
        out.append(digits.as_str());
        assert(out@ =~= int_text(i as int));
        out
    } else {
        u64_text(i as u64)
    }
}

/// Reads `s` as a signed number of 64 bits: an optional sign, then at least
/// one digit and nothing else, with a value that fits.
pub fn parse_i64(s: &str) -> (r: Option<i64>)
    ensures
        match text_int(s@) {
            Some(v) => if i64::MIN <= v <= i64::MAX {
                r is Some && r->0 == v
            } else {
                r is None
            },
            None => r is None,
        },
{
    let x = chars_of(s);
    let signed = x.len() > 0 && (x[0] == '+' || x[0] == '-');
    let from: usize = if signed {
        1
    } else {
        0
    };
    if from == x.len() {
        return None;
    }
    let ghost body = x@.skip(from as int);
    assert(!signed ==> body =~= x@);
    let mut i: usize = from;
    let mut acc: u64 = 0;
    // Stays set once the digits so far exceed every number of 64 bits.
    let mut over = false;
    assert(body.take(0) =~= Seq::<char>::empty());
    while i < x.len()
        invariant
            x@ == s@,
            from <= i <= x@.len(),
            body == x@.skip(from as int),
            body.len() > 0,
            signed == (x@.len() > 0 && (x@[0] == '+' || x@[0] == '-')),
            from == if signed {
                1int
            } else {
                0int
            },
            body == (if signed {
                s@.skip(1)
            } else {
                s@
            }),
            all_digits(body.take(i - from)),
            !over ==> acc == digits_value(body.take(i - from)),
            over ==> digits_value(body.take(i - from)) > 9_223_372_036_854_775_808,
            acc <= 9_223_372_036_854_775_808,
        decreases x@.len() - i,
    {
        let c = x[i];
        let ghost k = i - from;
        assert(body[k] == c);
        if !('0' <= c && c <= '9') {
            assert(!is_digit(body[k]));
            return None;
        }
        let d = value_of(c);
        proof {
            assert(body.take(k + 1).drop_last() =~= body.take(k));
            assert(body.take(k + 1).last() == c);
        }
        if over || acc > 922_337_203_685_477_580 || acc == 922_337_203_685_477_580 && d > 8 {
            over = true;
        } else {
            acc = acc * 10 + d;
        }
        i += 1;
    }
    assert(body.take(body.len() as int) =~= body);
    if over {
        return None;
    }
    if signed && x[0] == '-' {
        if acc == 9_223_372_036_854_775_808 {
            Some(i64::MIN)
        } else {
            Some(-(acc as i64))
        }
    } else if acc <= 9_223_372_036_854_775_807 {
        Some(acc as i64)
    } else {
        None
    }
}

/// The number that a text writes, if it is one of 32 bits.
pub open spec fn text_i32(s: Seq<char>) -> Option<i32> {
    match text_int(s) {
        Some(v) => if i32::MIN <= v <= i32::MAX {
            Some(v as i32)
        } else {
            None
        },
        None => None,
    }
}

/// Reads a number of 32 bits.
pub fn parse_i32(s: &str) -> (r: Option<i32>)
    ensures
        r == text_i32(s@),
{
    match parse_i64(s) {
        Some(v) => {
            if -0x8000_0000 <= v && v <= 0x7fff_ffff {
                Some(v as i32)
            } else {
                None
            }
        },
        None => None,
    }
}

} // verus!
