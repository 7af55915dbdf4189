//! What holds of texts and of numbers as text.
use crate::number::{
    all_digits, digit_char, digits_value, int_text, is_digit, nat_text, text_i32, text_int,
};
use crate::text::{
    ends_with, has_part, join_text, lex_lt, line_end, line_end_bounds, lines_of, pad_right,
    stands_at, starts_with,
};
use vstd::prelude::*;

verus! {

/// Do the texts differ first at position `k`: are they the same before it, and
/// is one of them at its end there, or have they different characters?
pub open spec fn differ_at(a: Seq<char>, b: Seq<char>, k: int) -> bool {
    &&& 0 <= k <= a.len()
    &&& k <= b.len()
    &&& a.take(k) == b.take(k)
    &&& k < a.len() && k < b.len() ==> a[k] != b[k]
    &&& k < a.len() || k < b.len()
}

/// Texts are ordered by the first place at which they differ: by the
/// characters there, and the one that ends there comes first.
pub proof fn texts_are_ordered_by_their_first_difference(a: Seq<char>, b: Seq<char>, k: int)
    requires
        differ_at(a, b, k),
    ensures
        lex_lt(a, b) <==> k < b.len() && (k == a.len() || a[k] < b[k]),
    decreases k,
{
    if k > 0 {
        assert(a.take(k)[0] == b.take(k)[0]);
        let (c, d) = (a.drop_first(), b.drop_first());
        assert(c.take(k - 1) =~= a.take(k).drop_first());
        assert(d.take(k - 1) =~= b.take(k).drop_first());
        if k < a.len() {
            assert(c[k - 1] == a[k]);
        }
        if k < b.len() {
            assert(d[k - 1] == b[k]);
        }
        texts_are_ordered_by_their_first_difference(c, d, k - 1);
    }
}

/// Padding puts spaces behind a text, and takes nothing away.
pub proof fn padding_adds_spaces_only(s: Seq<char>, width: nat)
    ensures
        starts_with(pad_right(s, width), s),
        s.len() <= width ==> pad_right(s, width).len() == width,
        s.len() >= width ==> pad_right(s, width) == s,
        forall|i: int|
            s.len() <= i < pad_right(s, width).len() ==> (#[trigger] pad_right(s, width)[i]) == ' ',
{
    assert(pad_right(s, width).subrange(0, s.len() as int) =~= s);
}

/// Joining puts the separator between neighbours and nowhere else: one item
/// stands alone, and two lists that are joined are joined by it.
pub proof fn joining_separates_neighbours(
    a: Seq<Seq<char>>,
    b: Seq<Seq<char>>,
    x: Seq<char>,
    sep: Seq<char>,
)
    ensures
        join_text(Seq::empty(), sep) == Seq::<char>::empty(),
        join_text(seq![x], sep) == x,
        a.len() > 0 && b.len() > 0 ==> join_text(a + b, sep) == join_text(a, sep) + sep + join_text(
            b,
            sep,
        ),
    decreases b.len(),
{
    if a.len() > 0 && b.len() > 0 {
        let front = b.drop_last();
        assert((a + b).drop_last() =~= a + front);
        if b.len() == 1 {
            assert(a + front =~= a);
            assert(join_text(a + b, sep) =~= join_text(a, sep) + sep + b[0]);
        } else {
            joining_separates_neighbours(a, front, x, sep);
            assert(join_text(a + b, sep) =~= join_text(a, sep) + sep + join_text(b, sep));
        }
    }
}

/// What stands between two texts is a part of the whole.
pub(crate) proof fn lemma_part(a: Seq<char>, part: Seq<char>, b: Seq<char>)
    ensures
        has_part(a + part + b, part),
{
    let s = a + part + b;
    assert(s.subrange(a.len() as int, a.len() as int + part.len()) =~= part);
    assert(stands_at(s, part, a.len() as int));
}

/// A text without a line break is one line, if it is not empty.
pub proof fn a_text_without_breaks_is_one_line(s: Seq<char>)
    requires
        s.len() > 0,
        forall|i: int| 0 <= i < s.len() ==> s[i] != '\n',
    ensures
        lines_of(s) == seq![s],
{
    line_end_bounds(s);
}

// ---------------------------------------------------------------------
// Numbers
// ---------------------------------------------------------------------
/// The decimal text of a number is made of digits, the first of which is no
/// zero but for zero itself, and writes that number.
pub proof fn a_number_is_written_in_digits(n: nat)
    ensures
        nat_text(n).len() > 0,
        all_digits(nat_text(n)),
        digits_value(nat_text(n)) == n,
        nat_text(n)[0] == '0' ==> n == 0,
    decreases n,
{
    if n < 10 {
        let s = nat_text(n);
        assert(s.drop_last() =~= Seq::empty());
        assert(digits_value(Seq::empty()) == 0);
        assert(s.last() == digit_char(n as int));
    } else {
        let s = nat_text(n);
        let front = nat_text(n / 10);
        a_number_is_written_in_digits(n / 10);
        assert(s.drop_last() =~= front);
        assert(s.last() == digit_char((n % 10) as int));
        assert forall|i: int| 0 <= i < s.len() implies is_digit(#[trigger] s[i]) by {
            if i < front.len() {
                assert(s[i] == front[i]);
            }
        }
        assert(s[0] == front[0]);
    }
}

/// A number is read back from its text, with its sign.
pub proof fn a_number_is_read_back(i: int)
    ensures
        text_int(int_text(i)) == Some(i),
        i32::MIN <= i <= i32::MAX ==> text_i32(int_text(i)) == Some(i as i32),
        !(i32::MIN <= i <= i32::MAX) ==> text_i32(int_text(i)) is None,
{
    if i < 0 {
        let n = (-i) as nat;
        a_number_is_written_in_digits(n);
        assert(int_text(i).skip(1) =~= nat_text(n));
    } else {
        a_number_is_written_in_digits(i as nat);
        assert(is_digit(nat_text(i as nat)[0]));
    }
}

/// Two numbers have the same text only if they are the same.
pub proof fn number_texts_tell_numbers_apart(i: int, j: int)
    requires
        int_text(i) == int_text(j),
    ensures
        i == j,
{
    a_number_is_read_back(i);
    a_number_is_read_back(j);
}

/// In a run of digits each stands for ten times what the one behind it does.
pub proof fn digits_count_by_tens(s: Seq<char>, c: char)
    requires
        is_digit(c),
    ensures
        digits_value(s.push(c)) == 10 * digits_value(s) + (c as int - '0' as int),
{
    assert(s.push(c).drop_last() =~= s);
}

/// A text with anything but digits behind an optional sign is no number, nor
/// is one without digits.
pub proof fn only_digits_make_a_number(s: Seq<char>, k: int)
    requires
        0 <= k < s.len(),
        !is_digit(s[k]),
        k > 0 || s.len() == 1 || s[0] != '+' && s[0] != '-',
    ensures
        text_int(s) is None,
        text_i32(s) is None,
        text_int(Seq::empty()) is None,
{
    let signed = s[0] == '+' || s[0] == '-';
    if signed {
        if k > 0 {
            assert(s.skip(1)[k - 1] == s[k]);
        }
    }
}

/// A part stands where the text is cut into what is before it, the part
/// itself, and what is behind it.
pub proof fn a_part_cuts_the_text(s: Seq<char>, part: Seq<char>, at: int)
    ensures
        stands_at(s, part, at) <==> 0 <= at <= s.len() - part.len() && s == s.take(at) + part + s.skip(
            at + part.len(),
        ),
        starts_with(s, part) <==> stands_at(s, part, 0),
        ends_with(s, part) <==> stands_at(s, part, s.len() - part.len()),
        stands_at(s, part, at) ==> has_part(s, part),
{
    if stands_at(s, part, at) {
        assert(s =~= s.take(at) + part + s.skip(at + part.len())) by {
            assert forall|i: int| at <= i < at + part.len() implies s[i] == part[i - at] by {
                assert(s.subrange(at, at + part.len())[i - at] == s[i]);
            }
        }
    }
    if 0 <= at <= s.len() - part.len() && s == s.take(at) + part + s.skip(at + part.len()) {
        let whole = s.take(at) + part + s.skip(at + part.len());
        assert forall|i: int| 0 <= i < part.len() implies s[at + i] == part[i] by {
            assert(whole[at + i] == part[i]);
        }
        assert(s.subrange(at, at + part.len()) =~= part);
    }
}

/// A carriage return before a line break belongs to the break.
pub proof fn a_carriage_return_belongs_to_the_break(line: Seq<char>, rest: Seq<char>)
    requires
        forall|i: int| 0 <= i < line.len() ==> line[i] != '\n',
    ensures
        lines_of(line + seq!['\r', '\n'] + rest) == seq![line] + lines_of(rest),
{
    let s = line + seq!['\r', '\n'] + rest;
    let n = line.len() + 1int;
    line_end_bounds(s);
    assert(s[n] == '\n' && s[n - 1] == '\r');
    assert(line_end(s) == n) by {
        let e = line_end(s);
        if e < n {
            if e < line.len() {
                assert(s[e] == line[e]);
            }
        }
    }
    assert(s.take(n - 1) =~= line);
    assert(s.skip(n + 1) =~= rest);
}

/// A plus sign before a number changes nothing, a minus sign turns it round.
pub proof fn a_sign_is_read(n: nat)
    ensures
        text_int(seq!['+'] + nat_text(n)) == Some(n as int),
        text_int(seq!['-'] + nat_text(n)) == Some(-(n as int)),
        text_int(nat_text(n)) == Some(n as int),
{
    a_number_is_written_in_digits(n);
    assert((seq!['+'] + nat_text(n)).skip(1) =~= nat_text(n));
    assert((seq!['-'] + nat_text(n)).skip(1) =~= nat_text(n));
    assert(is_digit(nat_text(n)[0]));
}

} // verus!
