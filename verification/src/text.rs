//! Text as sequences of characters: comparison, search, numbers and order.
//!
//! Every rule of this crate that looks at text is stated over `Seq<char>`,
//! the view of `str` and `String`. The functions here are the executable
//! side of those statements.
use vstd::prelude::*;
use vstd::string::*;
use vstd::utf8::{decode_utf8, valid_utf8};

verus! {

/// `String::push` appends one character.
pub assume_specification[ String::push ](s: &mut String, c: char)
    ensures
        final(s)@ == old(s)@.push(c),
;

/// `char::from_u32` gives the character with a number, and nothing where the
/// number is not that of a character.
pub assume_specification[ char::from_u32 ](i: u32) -> (r: Option<char>)
    ensures
        match r {
            Some(c) => c as int == i && (i < 0xd800 || 0xe000 <= i <= 0x10_ffff),
            None => 0xd800 <= i < 0xe000 || i > 0x10_ffff,
        },
;

/// The views of a list of strings.
pub open spec fn texts(list: Seq<String>) -> Seq<Seq<char>> {
    Seq::new(list.len(), |i: int| list[i]@)
}

/// The view of an optional string.
pub open spec fn opt_text(s: Option<String>) -> Option<Seq<char>> {
    match s {
        Some(t) => Some(t@),
        None => None,
    }
}

/// The characters of `s`.
pub fn chars_of(s: &str) -> (r: Vec<char>)
    ensures
        r@ == s@,
{
    let mut out: Vec<char> = Vec::new();
    for c in it: s.chars()
        invariant
            out@ == it.seq().take(it.index() as int),
    {
        out.push(c);
    }
    out
}

/// The string made of `chars[from..to]`.
pub fn string_of(chars: &Vec<char>, from: usize, to: usize) -> (r: String)
    requires
        from <= to <= chars@.len(),
    ensures
        r@ == chars@.subrange(from as int, to as int),
{
    let mut out = String::new();
    let mut i: usize = from;
    while i < to
        invariant
            from <= i <= to <= chars@.len(),
            out@ == chars@.subrange(from as int, i as int),
        decreases to - i,
    {
        out.push(chars[i]);
        i += 1;
        assert(out@ =~= chars@.subrange(from as int, i as int));
    }
    assert(out@ =~= chars@.subrange(from as int, to as int));
    out
}

// ---------------------------------------------------------------------
// Comparison
// ---------------------------------------------------------------------
/// Strict lexical order by code point, the order of `str`.
pub open spec fn lex_lt(a: Seq<char>, b: Seq<char>) -> bool
    decreases a.len(),
{
    if b.len() == 0 {
        false
    } else if a.len() == 0 {
        true
    } else {
        a[0] < b[0] || a[0] == b[0] && lex_lt(a.drop_first(), b.drop_first())
    }
}

/// Lexical order, equality included.
pub open spec fn lex_le(a: Seq<char>, b: Seq<char>) -> bool {
    a == b || lex_lt(a, b)
}

/// Text order is transitive.
pub proof fn lex_transitive(a: Seq<char>, b: Seq<char>, c: Seq<char>)
    requires
        lex_lt(a, b),
        lex_lt(b, c),
    ensures
        lex_lt(a, c),
    decreases a.len(),
{
    if a.len() > 0 && a[0] == b[0] && b[0] == c[0] {
        lex_transitive(a.drop_first(), b.drop_first(), c.drop_first());
    }
}

/// Text order is total: exactly one of less, equal and greater holds.
pub proof fn lex_total(a: Seq<char>, b: Seq<char>)
    ensures
        lex_lt(a, b) || a == b || lex_lt(b, a),
        !(lex_lt(a, b) && lex_lt(b, a)),
        a == b ==> !lex_lt(a, b) && !lex_lt(b, a),
    decreases a.len(),
{
    if a.len() > 0 && b.len() > 0 {
        lex_total(a.drop_first(), b.drop_first());
        if a[0] == b[0] {
            if a.drop_first() == b.drop_first() {
                assert(a =~= seq![a[0]] + a.drop_first());
                assert(b =~= seq![b[0]] + b.drop_first());
            }
        }
    } else if a.len() == 0 && b.len() == 0 {
        assert(a =~= b);
    }
}

/// Are the two texts the same?
pub fn same_text(a: &str, b: &str) -> (r: bool)
    ensures
        r == (a@ == b@),
{
    let x = chars_of(a);
    let y = chars_of(b);
    if x.len() != y.len() {
        return false;
    }
    let mut i: usize = 0;
    while i < x.len()
        invariant
            i <= x@.len(),
            x@ == a@,
            y@ == b@,
            x@.len() == y@.len(),
            forall|k: int| 0 <= k < i ==> x@[k] == y@[k],
        decreases x@.len() - i,
    {
        if x[i] != y[i] {
            return false;
        }
        i += 1;
    }
    assert(x@ =~= y@);
    true
}

/// Does `a` come strictly before `b`?
pub fn text_lt(a: &str, b: &str) -> (r: bool)
    ensures
        r == lex_lt(a@, b@),
{
    let x = chars_of(a);
    let y = chars_of(b);
    let mut i: usize = 0;
    proof {
        assert(x@.skip(0) =~= x@);
        assert(y@.skip(0) =~= y@);
    }
    loop
        invariant
            x@ == a@,
            y@ == b@,
            i <= x@.len(),
            i <= y@.len(),
            lex_lt(a@, b@) == lex_lt(x@.skip(i as int), y@.skip(i as int)),
        decreases x@.len() - i,
    {
        if i == y.len() {
            return false;
        }
        if i == x.len() {
            return true;
        }
        proof {
            assert(x@.skip(i as int).drop_first() =~= x@.skip(i + 1));
            assert(y@.skip(i as int).drop_first() =~= y@.skip(i + 1));
        }
        if x[i] != y[i] {
            return x[i] < y[i];
        }
        i += 1;
    }
}

/// Does `a` come before `b`, or equal it?
pub fn text_le(a: &str, b: &str) -> (r: bool)
    ensures
        r == lex_le(a@, b@),
{
    proof {
        lex_total(a@, b@);
    }
    !text_lt(b, a)
}

// ---------------------------------------------------------------------
// Search
// ---------------------------------------------------------------------
/// Does `part` stand in `s` at position `at`?
pub open spec fn stands_at(s: Seq<char>, part: Seq<char>, at: int) -> bool {
    &&& 0 <= at
    &&& at + part.len() <= s.len()
    &&& s.subrange(at, at + part.len()) == part
}

/// Does `part` stand anywhere in `s`?
pub open spec fn has_part(s: Seq<char>, part: Seq<char>) -> bool {
    exists|at: int| stands_at(s, part, at)
}

/// Does `s` begin with `part`?
pub open spec fn starts_with(s: Seq<char>, part: Seq<char>) -> bool {
    stands_at(s, part, 0)
}

/// Does `s` end with `part`?
pub open spec fn ends_with(s: Seq<char>, part: Seq<char>) -> bool {
    stands_at(s, part, s.len() - part.len())
}

/// Does `part` stand in `s` at position `at`?
pub fn part_stands_at(s: &Vec<char>, part: &Vec<char>, at: usize) -> (r: bool)
    ensures
        r == stands_at(s@, part@, at as int),
{
    if at > s.len() || part.len() > s.len() - at {
        return false;
    }
    let n = s.len();
    let mut i: usize = 0;
    while i < part.len()
        invariant
            i <= part@.len(),
            n == s@.len(),
            at + part@.len() <= n,
            forall|k: int| 0 <= k < i ==> s@[at + k] == part@[k],
        decreases part@.len() - i,
    {
        if s[at + i] != part[i] {
            assert(s@.subrange(at as int, at + part@.len())[i as int] != part@[i as int]);
            return false;
        }
        i += 1;
    }
    assert(s@.subrange(at as int, at + part@.len()) =~= part@);
    true
}

/// The first position of `part` in `s`.
pub fn find_part(s: &Vec<char>, part: &Vec<char>) -> (r: Option<usize>)
    ensures
        match r {
            Some(at) => stands_at(s@, part@, at as int) && forall|k: int|
                0 <= k < at ==> !stands_at(s@, part@, k),
            None => !has_part(s@, part@),
        },
{
    let mut i: usize = 0;
    while i < s.len()
        invariant
            i <= s@.len(),
            forall|k: int| 0 <= k < i ==> !stands_at(s@, part@, k),
        decreases s@.len() - i,
    {
        if part_stands_at(s, part, i) {
            return Some(i);
        }
        i += 1;
    }
    if part_stands_at(s, part, i) {
        return Some(i);
    }
    None
}

/// Does `part` stand anywhere in `s`?
pub fn contains_part(s: &str, part: &str) -> (r: bool)
    ensures
        r == has_part(s@, part@),
{
    let x = chars_of(s);
    let y = chars_of(part);
    find_part(&x, &y).is_some()
}

/// Does `s` begin with `part`?
pub fn begins_with(s: &str, part: &str) -> (r: bool)
    ensures
        r == starts_with(s@, part@),
{
    let x = chars_of(s);
    let y = chars_of(part);
    part_stands_at(&x, &y, 0)
}

/// Has `s` no characters?
pub fn no_text(s: &str) -> (r: bool)
    ensures
        r == (s@.len() == 0),
{
    chars_of(s).len() == 0
}

// ---------------------------------------------------------------------
// Bytes
// ---------------------------------------------------------------------
/// The text of bytes that need not be UTF-8, as `String::from_utf8_lossy`
/// gives it.
pub uninterp spec fn lossy_text(bytes: Seq<u8>) -> Seq<char>;

/// Calls `String::from_utf8_lossy`. It is claimed that the text depends on
/// the bytes alone, and that bytes which are UTF-8 give the text that they
/// encode.
#[verifier::external_body]
pub(crate) fn lossy(bytes: &Vec<u8>) -> (r: String)
    ensures
        r@ == lossy_text(bytes@),
        valid_utf8(bytes@) ==> r@ == decode_utf8(bytes@),
{
    String::from_utf8_lossy(bytes).into_owned()
}

// ---------------------------------------------------------------------
// White space and lines
// ---------------------------------------------------------------------
/// Is `c` white space, by the Unicode property of that name?
pub open spec fn is_white(c: char) -> bool {
    ||| '\u{9}' <= c <= '\u{d}'
    ||| c == ' '
    ||| c == '\u{85}'
    ||| c == '\u{a0}'
    ||| c == '\u{1680}'
    ||| '\u{2000}' <= c <= '\u{200a}'
    ||| c == '\u{2028}'
    ||| c == '\u{2029}'
    ||| c == '\u{202f}'
    ||| c == '\u{205f}'
    ||| c == '\u{3000}'
}

/// Is `s` nothing but white space?
pub open spec fn is_blank(s: Seq<char>) -> bool {
    forall|i: int| 0 <= i < s.len() ==> is_white(#[trigger] s[i])
}

/// Is `c` white space?
pub fn white(c: char) -> (r: bool)
    ensures
        r == is_white(c),
{
    ('\u{9}' <= c && c <= '\u{d}') || c == ' ' || c == '\u{85}' || c == '\u{a0}' || c == '\u{1680}' || (
    '\u{2000}' <= c && c <= '\u{200a}') || c == '\u{2028}' || c == '\u{2029}' || c == '\u{202f}' || c
        == '\u{205f}' || c == '\u{3000}'
}

/// Is `s` nothing but white space?
pub fn blank(s: &str) -> (r: bool)
    ensures
        r == is_blank(s@),
{
    let x = chars_of(s);
    let mut i: usize = 0;
    while i < x.len()
        invariant
            x@ == s@,
            i <= x@.len(),
            forall|k: int| 0 <= k < i ==> is_white(#[trigger] x@[k]),
        decreases x@.len() - i,
    {
        if !white(x[i]) {
            return false;
        }
        i += 1;
    }
    true
}

/// The position of the first line break in `s`, or its length.
pub open spec fn line_end(s: Seq<char>) -> int
    decreases s.len(),
{
    if s.len() == 0 || s[0] == '\n' {
        0
    } else {
        1 + line_end(s.skip(1))
    }
}

/// The first line of `s`. Before a line break a carriage return belongs to
/// the break.
pub open spec fn first_line(s: Seq<char>) -> Seq<char> {
    let j = line_end(s);
    if j < s.len() && j > 0 && s[j - 1] == '\r' {
        s.take(j - 1)
    } else {
        s.take(j)
    }
}

/// The first line break is within the text, and no line break is before it.
pub proof fn line_end_bounds(s: Seq<char>)
    ensures
        0 <= line_end(s) <= s.len(),
        line_end(s) < s.len() ==> s[line_end(s)] == '\n',
        forall|i: int| 0 <= i < line_end(s) ==> s[i] != '\n',
    decreases s.len(),
{
    if s.len() > 0 && s[0] != '\n' {
        let tail = s.skip(1);
        line_end_bounds(tail);
        assert forall|i: int| 0 <= i < line_end(s) implies s[i] != '\n' by {
            if i > 0 {
                assert(s[i] == tail[i - 1]);
            }
        }
    }
}

/// The lines of `s`. A line break at the very end begins no further line.
pub open spec fn lines_of(s: Seq<char>) -> Seq<Seq<char>>
    decreases s.len(),
{
    if s.len() == 0 || line_end(s) >= s.len() || line_end(s) < 0 {
        if s.len() == 0 {
            Seq::empty()
        } else {
            seq![s]
        }
    } else {
        seq![first_line(s)] + lines_of(s.skip(line_end(s) + 1))
    }
}

/// The lines of `s`.
pub fn lines(s: &str) -> (r: Vec<String>)
    ensures
        texts(r@) == lines_of(s@),
{
    let x = chars_of(s);
    let n = x.len();
    let mut out: Vec<String> = Vec::new();
    let mut i: usize = 0;
    assert(x@.skip(0) =~= x@);
    assert(texts(out@) + lines_of(x@) =~= lines_of(x@));
    while i < n
        invariant
            n == x@.len(),
            x@ == s@,
            i <= n,
            texts(out@) + lines_of(x@.skip(i as int)) == lines_of(s@),
        decreases n - i,
    {
        let ghost rest = x@.skip(i as int);
        let ghost before = out@;
        let mut j: usize = i;
        assert(rest =~= x@.skip(j as int));
        while j < n && x[j] != '\n'
            invariant
                n == x@.len(),
                i <= j <= n,
                line_end(x@.skip(i as int)) == (j - i) + line_end(x@.skip(j as int)),
            decreases n - j,
        {
            assert(x@.skip(j as int)[0] == x@[j as int]);
            assert(x@.skip(j as int).skip(1) =~= x@.skip(j + 1));
            j += 1;
        }
        assert(j < n ==> x@.skip(j as int)[0] == x@[j as int]);
        assert(line_end(rest) == j - i);
        if j < n {
            let to = if j > i && x[j - 1] == '\r' {
                j - 1
            } else {
                j
            };
            let line = string_of(&x, i, to);
            assert(line@ =~= first_line(rest));
            out.push(line);
            proof {
                assert(texts(out@) =~= texts(before).push(line@));
                assert(rest.skip(line_end(rest) + 1) =~= x@.skip(j + 1));
                assert(texts(out@) + lines_of(x@.skip(j + 1)) =~= texts(before) + lines_of(rest));
            }
            i = j + 1;
        } else {
            let line = string_of(&x, i, n);
            assert(line@ =~= rest);
            out.push(line);
            proof {
                assert(texts(out@) =~= texts(before).push(line@));
                assert(x@.skip(n as int) =~= Seq::<char>::empty());
                assert(texts(out@) + lines_of(x@.skip(n as int)) =~= texts(before) + lines_of(rest));
            }
            i = n;
        }
    }
    assert(x@.skip(n as int) =~= Seq::<char>::empty());
    assert(texts(out@) =~= lines_of(s@));
    out
}

/// A line without a line break in it that a line break follows is the first
/// line.
pub proof fn a_whole_line_is_read_first(line: Seq<char>, rest: Seq<char>)
    requires
        forall|i: int| 0 <= i < line.len() ==> line[i] != '\n',
        line.len() > 0 ==> line.last() != '\r',
    ensures
        lines_of(line.push('\n') + rest) == seq![line] + lines_of(rest),
{
    let s = line.push('\n') + rest;
    line_end_bounds(s);
    let j = line_end(s);
    let n = line.len() as int;
    assert(s[n] == '\n');
    assert(j == n) by {
        if j < n {
            assert(s[j] == line[j]);
        }
    }
    assert(first_line(s) =~= line);
    assert(s.skip(j + 1) =~= rest);
}

// ---------------------------------------------------------------------
// Layout
// ---------------------------------------------------------------------
/// `n` spaces.
pub open spec fn spaces(n: nat) -> Seq<char> {
    Seq::new(n, |i: int| ' ')
}

/// `s` with spaces after it up to `width` characters; a longer `s` as it is.
pub open spec fn pad_right(s: Seq<char>, width: nat) -> Seq<char> {
    if s.len() < width {
        s + spaces((width - s.len()) as nat)
    } else {
        s
    }
}

/// `s` padded with spaces on the right to `width` characters.
pub fn padded(s: &str, width: usize) -> (r: String)
    ensures
        r@ == pad_right(s@, width as nat),
{
    let x = chars_of(s);
    let mut out = String::new();
    out.append(s);
    let mut n: usize = x.len();
    assert(out@ =~= s@);
    while n < width
        invariant
            x@ == s@,
            x@.len() <= n,
            n <= width || n == x@.len(),
            out@ == s@ + spaces((n - x@.len()) as nat),
        decreases width - n,
    {
        out.push(' ');
        n += 1;
        assert(out@ =~= s@ + spaces((n - x@.len()) as nat));
    }
    assert(out@ =~= pad_right(s@, width as nat));
    out
}

/// The items of `list` with `sep` between neighbours.
pub open spec fn join_text(list: Seq<Seq<char>>, sep: Seq<char>) -> Seq<char>
    decreases list.len(),
{
    if list.len() == 0 {
        Seq::empty()
    } else if list.len() == 1 {
        list[0]
    } else {
        join_text(list.drop_last(), sep) + sep + list.last()
    }
}

/// The items of `list` with `sep` between neighbours.
pub fn joined(list: &Vec<String>, sep: &str) -> (r: String)
    ensures
        r@ == join_text(texts(list@), sep@),
{
    let mut out = String::new();
    let mut i: usize = 0;
    while i < list.len()
        invariant
            i <= list@.len(),
            out@ == join_text(texts(list@).take(i as int), sep@),
        decreases list@.len() - i,
    {
        let ghost before = texts(list@).take(i as int);
        let ghost after = texts(list@).take(i + 1);
        if i > 0 {
            out.append(sep);
        }
        out.append(list[i].as_str());
        proof {
            assert(after.drop_last() =~= before);
            if i == 0 {
                assert(out@ =~= after[0]);
            }
        }
        i += 1;
    }
    assert(texts(list@).take(list@.len() as int) =~= texts(list@));
    out
}

} // verus!
