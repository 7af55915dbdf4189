//! The audit log's lines: one flat JSON object per event, and the reader of
//! exactly that form.
use crate::number::{i64_text, int_text, is_digit, nat_text, u64_text};
use crate::text::{chars_of, find_part, has_part, stands_at};
use vstd::prelude::*;
use vstd::string::*;

verus! {

// ---------------------------------------------------------------------
// Escaping
// ---------------------------------------------------------------------
/// A hexadecimal digit in lower case.
pub open spec fn hex_digit(d: int) -> char {
    if d < 10 {
        (48 + d) as char
    } else {
        (87 + d) as char
    }
}

/// One character inside a JSON string.
pub open spec fn escaped_char(c: char) -> Seq<char> {
    if c == '"' {
        seq!['\\', '"']
    } else if c == '\\' {
        seq!['\\', '\\']
    } else if c == '\n' {
        seq!['\\', 'n']
    } else if c == '\t' {
        seq!['\\', 't']
    } else if (c as int) < 0x20 {
        seq!['\\', 'u', '0', '0', hex_digit(c as int / 16), hex_digit(c as int % 16)]
    } else {
        seq![c]
    }
}

/// A text inside a JSON string.
pub open spec fn escaped(s: Seq<char>) -> Seq<char>
    decreases s.len(),
{
    if s.len() == 0 {
        Seq::empty()
    } else {
        escaped_char(s[0]) + escaped(s.skip(1))
    }
}

fn hex_char(d: u8) -> (r: char)
    requires
        d < 16,
    ensures
        r == hex_digit(d as int),
{
    if d < 10 {
        (48 + d) as char
    } else {
        (87 + d) as char
    }
}

/// The control character's number, below 32.
fn control_number(c: char) -> (r: u8)
    requires
        (c as int) < 0x20,
    ensures
        r == c as int,
{
    c as u8
}

/// Escapes a text for a JSON string.
pub fn json_escape(s: &str) -> (r: String)
    ensures
        r@ == escaped(s@),
{
    let x = chars_of(s);
    let mut out = String::new();
    let mut i: usize = 0;
    proof {
        assert(x@.skip(0) =~= x@);
        assert(out@ + escaped(x@) =~= escaped(x@));
    }
    while i < x.len()
        invariant
            x@ == s@,
            i <= x@.len(),
            out@ + escaped(x@.skip(i as int)) == escaped(x@),
        decreases x@.len() - i,
    {
        let c = x[i];
        let ghost before = out@;
        let ghost rest = x@.skip(i as int);
        if c == '"' {
            out.push('\\');
            out.push('"');
        } else if c == '\\' {
            out.push('\\');
            out.push('\\');
        } else if c == '\n' {
            out.push('\\');
            out.push('n');
        } else if c == '\t' {
            out.push('\\');
            out.push('t');
        } else if ' ' > c {
            let n = control_number(c);
            out.push('\\');
            out.push('u');
            out.push('0');
            out.push('0');
            out.push(hex_char(n / 16));
            out.push(hex_char(n % 16));
        } else {
            out.push(c);
        }
        proof {
            assert(rest[0] == c);
            assert(rest.skip(1) =~= x@.skip(i + 1));
            assert(out@ =~= before + escaped_char(c));
            assert(out@ + escaped(x@.skip(i + 1)) =~= before + escaped(rest));
        }
        i += 1;
    }
    assert(x@.skip(x@.len() as int) =~= Seq::<char>::empty());
    assert(out@ =~= escaped(x@));
    out
}

// ---------------------------------------------------------------------
// Reading
// ---------------------------------------------------------------------
/// What an escaped character stands for.
pub open spec fn unescaped_char(c: char) -> char {
    if c == 'n' {
        '\n'
    } else if c == 't' {
        '\t'
    } else {
        c
    }
}

/// The value of a hexadecimal digit, in either case; -1 for any other
/// character.
pub open spec fn hex_value(c: char) -> int {
    if '0' <= c <= '9' {
        c as int - 48
    } else if 'a' <= c <= 'f' {
        c as int - 87
    } else if 'A' <= c <= 'F' {
        c as int - 55
    } else {
        -1
    }
}

/// The number that four hexadecimal digits write.
pub open spec fn hex_number(s: Seq<char>, at: int) -> int {
    hex_value(s[at]) * 4096 + hex_value(s[at + 1]) * 256 + hex_value(s[at + 2]) * 16 + hex_value(
        s[at + 3],
    )
}

/// Is this the number of a character?
pub open spec fn is_char_number(n: int) -> bool {
    0 <= n < 0xd800 || 0xe000 <= n <= 0x10_ffff
}

/// Does `s` begin with a character written by its number: a backslash, the
/// letter `u` and four hexadecimal digits?
pub open spec fn begins_with_number(s: Seq<char>) -> bool {
    &&& s.len() >= 6
    &&& s[0] == '\\'
    &&& s[1] == 'u'
    &&& forall|k: int| 2 <= k < 6 ==> hex_value(#[trigger] s[k]) >= 0
    &&& is_char_number(hex_number(s, 2))
}

/// The text of a JSON string that begins behind its opening quote, up to the
/// first quote that no backslash escapes.
pub open spec fn string_value(s: Seq<char>) -> Seq<char>
    decreases s.len(),
{
    if s.len() == 0 || s[0] == '"' {
        Seq::empty()
    } else if s[0] == '\\' {
        if s.len() == 1 {
            Seq::empty()
        } else if begins_with_number(s) {
            seq![hex_number(s, 2) as char] + string_value(s.skip(6))
        } else {
            seq![unescaped_char(s[1])] + string_value(s.skip(2))
        }
    } else {
        seq![s[0]] + string_value(s.skip(1))
    }
}

/// A value that is no string: everything up to a comma or a closing brace.
pub open spec fn bare_value(s: Seq<char>) -> Seq<char>
    decreases s.len(),
{
    if s.len() == 0 || s[0] == ',' || s[0] == '}' {
        Seq::empty()
    } else {
        seq![s[0]] + bare_value(s.skip(1))
    }
}

/// The value at the beginning of `s`.
pub open spec fn value_of(s: Seq<char>) -> Seq<char> {
    if s.len() > 0 && s[0] == '"' {
        string_value(s.skip(1))
    } else {
        bare_value(s)
    }
}

/// A key as it stands before its value.
pub open spec fn key_text(key: Seq<char>) -> Seq<char> {
    seq!['"'] + key + seq!['"', ':']
}

/// Is `at` the first place where `part` stands in `s`?
pub open spec fn is_first_at(s: Seq<char>, part: Seq<char>, at: int) -> bool {
    stands_at(s, part, at) && forall|k: int| 0 <= k < at ==> !stands_at(s, part, k)
}

/// The value behind the first occurrence of the key in a line; empty where
/// the key does not occur.
pub open spec fn field_value(line: Seq<char>, key: Seq<char>) -> Seq<char> {
    if has_part(line, key_text(key)) {
        let at = choose|at: int| is_first_at(line, key_text(key), at);
        value_of(line.skip(at + key_text(key).len()))
    } else {
        Seq::empty()
    }
}

/// The value of a hexadecimal digit, if it is one.
fn read_hex(c: char) -> (r: Option<u32>)
    ensures
        match r {
            Some(v) => v == hex_value(c) && v < 16,
            None => hex_value(c) < 0,
        },
{
    if '0' <= c && c <= '9' {
        Some(c as u32 - 48)
    } else if 'a' <= c && c <= 'f' {
        Some(c as u32 - 87)
    } else if 'A' <= c && c <= 'F' {
        Some(c as u32 - 55)
    } else {
        None
    }
}

/// The character that is written by its number at position `at`, if one is.
fn read_numbered(x: &Vec<char>, at: usize) -> (r: Option<char>)
    requires
        at < x@.len(),
        x@[at as int] == '\\',
    ensures
        match r {
            Some(c) => begins_with_number(x@.skip(at as int)) && c == hex_number(
                x@.skip(at as int),
                2,
            ) as char,
            None => !begins_with_number(x@.skip(at as int)),
        },
{
    let n = x.len();
    let ghost rest = x@.skip(at as int);
    assert(forall|k: int| 0 <= k < rest.len() ==> #[trigger] rest[k] == x@[at + k]);
    if n - at < 6 || x[at + 1] != 'u' {
        return None;
    }
    match (read_hex(x[at + 2]), read_hex(x[at + 3]), read_hex(x[at + 4]), read_hex(x[at + 5])) {
        (Some(a), Some(b), Some(c), Some(d)) => {
            assert(forall|k: int| 2 <= k < 6 ==> hex_value(#[trigger] rest[k]) >= 0) by {
                assert(rest[2] == x@[at + 2] && rest[3] == x@[at + 3] && rest[4] == x@[at + 4]
                    && rest[5] == x@[at + 5]);
            }
            let number = a * 4096 + b * 256 + c * 16 + d;
            assert(rest[0] == '\\' && rest[1] == 'u');
            assert(hex_number(rest, 2) == number);
            char::from_u32(number)
        },
        _ => {
            proof {
                if begins_with_number(rest) {
                    assert(hex_value(rest[2]) >= 0 && hex_value(rest[3]) >= 0 && hex_value(rest[4])
                        >= 0 && hex_value(rest[5]) >= 0);
                }
            }
            None
        },
    }
}

/// The string value that begins at position `from`.
fn read_string(x: &Vec<char>, from: usize) -> (r: String)
    requires
        from <= x@.len(),
    ensures
        r@ == string_value(x@.skip(from as int)),
{
    let mut out = String::new();
    let mut i: usize = from;
    let n = x.len();
    let ghost all = string_value(x@.skip(from as int));
    assert(out@ + all =~= all);
    while i < n
        invariant
            n == x@.len(),
            from <= i <= n,
            all == string_value(x@.skip(from as int)),
            out@ + string_value(x@.skip(i as int)) == all,
        decreases n - i,
    {
        let c = x[i];
        let ghost before = out@;
        let ghost rest = x@.skip(i as int);
        assert(rest[0] == c);
        if c == '"' {
            assert(out@ =~= all);
            return out;
        }
        if c == '\\' {
            if i + 1 >= n {
                assert(out@ =~= all);
                return out;
            }
            match read_numbered(x, i) {
                Some(d) => {
                    out.push(d);
                    proof {
                        assert(rest.skip(6) =~= x@.skip(i + 6));
                        assert(out@ + string_value(x@.skip(i + 6)) =~= before + string_value(rest));
                    }
                    i += 6;
                    continue ;
                },
                None => {},
            }
            let d = x[i + 1];
            assert(rest[1] == d);
            out.push(
                if d == 'n' {
                    '\n'
                } else if d == 't' {
                    '\t'
                } else {
                    d
                },
            );
            proof {
                assert(rest.skip(2) =~= x@.skip(i + 2));
                assert(out@ + string_value(x@.skip(i + 2)) =~= before + string_value(rest));
            }
            i += 2;
        } else {
            out.push(c);
            proof {
                assert(rest.skip(1) =~= x@.skip(i + 1));
                assert(out@ + string_value(x@.skip(i + 1)) =~= before + string_value(rest));
            }
            i += 1;
        }
    }
    assert(x@.skip(n as int) =~= Seq::<char>::empty());
    assert(out@ =~= all);
    out
}

/// The bare value that begins at position `from`.
fn read_bare(x: &Vec<char>, from: usize) -> (r: String)
    requires
        from <= x@.len(),
    ensures
        r@ == bare_value(x@.skip(from as int)),
{
    let mut out = String::new();
    let mut i: usize = from;
    let ghost all = bare_value(x@.skip(from as int));
    assert(out@ + all =~= all);
    while i < x.len()
        invariant
            from <= i <= x@.len(),
            all == bare_value(x@.skip(from as int)),
            out@ + bare_value(x@.skip(i as int)) == all,
        decreases x@.len() - i,
    {
        let c = x[i];
        let ghost before = out@;
        let ghost rest = x@.skip(i as int);
        assert(rest[0] == c);
        if c == ',' || c == '}' {
            assert(out@ =~= all);
            return out;
        }
        out.push(c);
        proof {
            assert(rest.skip(1) =~= x@.skip(i + 1));
            assert(out@ + bare_value(x@.skip(i + 1)) =~= before + bare_value(rest));
        }
        i += 1;
    }
    assert(x@.skip(x@.len() as int) =~= Seq::<char>::empty());
    assert(out@ =~= all);
    out
}

/// Two first places are the same place.
proof fn first_place_is_unique(s: Seq<char>, part: Seq<char>, a: int, b: int)
    requires
        is_first_at(s, part, a),
        is_first_at(s, part, b),
    ensures
        a == b,
{
}

/// The value of one field of a line, empty where the line has no such field.
///
/// Reads what the log writer writes, characters written by their number
/// included; not JSON in general.
pub fn field(line: &str, key: &str) -> (r: String)
    ensures
        r@ == field_value(line@, key@),
{
    let x = chars_of(line);
    let n = x.len();
    let mut needle: Vec<char> = Vec::new();
    needle.push('"');
    let mut letters = chars_of(key);
    needle.append(&mut letters);
    needle.push('"');
    needle.push(':');
    assert(needle@ =~= key_text(key@));
    match find_part(&x, &needle) {
        Some(at) => {
            proof {
                assert(is_first_at(line@, key_text(key@), at as int));
                let first = choose|k: int| is_first_at(line@, key_text(key@), k);
                first_place_is_unique(line@, key_text(key@), at as int, first);
                assert(has_part(line@, key_text(key@)));
            }
            let from = at + needle.len();
            let ghost rest = x@.skip(from as int);
            if from < n && x[from] == '"' {
                assert(rest.skip(1) =~= x@.skip(from + 1));
                read_string(&x, from + 1)
            } else {
                read_bare(&x, from)
            }
        },
        None => String::new(),
    }
}

// ---------------------------------------------------------------------
// Writing
// ---------------------------------------------------------------------
/// What the audit log says of one event.
#[derive(Debug, Clone)]
pub struct Entry {
    pub ts: String,
    pub path: String,
    pub op: String,
    pub pid: i32,
    pub comm: String,
    pub exe: String,
    pub cmdline: String,
    pub uid: u32,
}

/// The plain values of an [`Entry`].
#[verifier::ext_equal]
pub struct EntryModel {
    pub ts: Seq<char>,
    pub path: Seq<char>,
    pub op: Seq<char>,
    pub pid: int,
    pub comm: Seq<char>,
    pub exe: Seq<char>,
    pub cmdline: Seq<char>,
    pub uid: nat,
}

impl View for Entry {
    type V = EntryModel;

    open spec fn view(&self) -> EntryModel {
        EntryModel {
            ts: self.ts@,
            path: self.path@,
            op: self.op@,
            pid: self.pid as int,
            comm: self.comm@,
            exe: self.exe@,
            cmdline: self.cmdline@,
            uid: self.uid as nat,
        }
    }
}

/// A string field.
pub open spec fn string_field(key: Seq<char>, value: Seq<char>) -> Seq<char> {
    key_text(key) + seq!['"'] + value + seq!['"']
}

/// A number field.
pub open spec fn number_field(key: Seq<char>, value: Seq<char>) -> Seq<char> {
    key_text(key) + value
}

/// The log line of an entry, without the line break behind it.
pub open spec fn entry_line(e: EntryModel) -> Seq<char> {
    seq!['{'] + string_field("ts"@, e.ts) + seq![','] + string_field("path"@, escaped(e.path)) + seq![
        ',',
    ] + string_field("op"@, e.op) + seq![','] + number_field("pid"@, int_text(e.pid)) + seq![',']
        + string_field("comm"@, escaped(e.comm)) + seq![','] + string_field("exe"@, escaped(e.exe))
        + seq![','] + string_field("cmdline"@, escaped(e.cmdline)) + seq![','] + number_field(
        "uid"@,
        nat_text(e.uid),
    ) + seq!['}']
}

fn push_key(out: &mut String, key: &str)
    ensures
        final(out)@ == old(out)@ + key_text(key@),
{
    let ghost before = out@;
    out.push('"');
    out.append(key);
    out.push('"');
    out.push(':');
    assert(out@ =~= before + key_text(key@));
}

fn push_string_field(out: &mut String, key: &str, value: &str)
    ensures
        final(out)@ == old(out)@ + string_field(key@, value@),
{
    let ghost before = out@;
    push_key(out, key);
    out.push('"');
    out.append(value);
    out.push('"');
    assert(out@ =~= before + string_field(key@, value@));
}

fn push_number_field(out: &mut String, key: &str, value: &str)
    ensures
        final(out)@ == old(out)@ + number_field(key@, value@),
{
    let ghost before = out@;
    push_key(out, key);
    out.append(value);
    assert(out@ =~= before + number_field(key@, value@));
}

/// The log line of an entry, with the line break behind it.
pub fn log_line(e: &Entry) -> (r: String)
    ensures
        r@ == entry_line(e@).push('\n'),
{
    let mut out = String::new();
    out.push('{');
    assert(out@ =~= seq!['{']);
    push_string_field(&mut out, "ts", e.ts.as_str());
    out.push(',');
    push_string_field(&mut out, "path", json_escape(e.path.as_str()).as_str());
    out.push(',');
    push_string_field(&mut out, "op", e.op.as_str());
    out.push(',');
    push_number_field(&mut out, "pid", i64_text(e.pid as i64).as_str());
    out.push(',');
    push_string_field(&mut out, "comm", json_escape(e.comm.as_str()).as_str());
    out.push(',');
    push_string_field(&mut out, "exe", json_escape(e.exe.as_str()).as_str());
    out.push(',');
    push_string_field(&mut out, "cmdline", json_escape(e.cmdline.as_str()).as_str());
    out.push(',');
    push_number_field(&mut out, "uid", u64_text(e.uid as u64).as_str());
    out.push('}');
    assert(out@ =~= entry_line(e@));
    out.push('\n');
    out
}

// ---------------------------------------------------------------------
// Laws
// ---------------------------------------------------------------------
/// Does the text stand for itself in a JSON string: has it neither a quote nor
/// a backslash?
pub open spec fn is_plain(s: Seq<char>) -> bool {
    forall|i: int| 0 <= i < s.len() ==> (#[trigger] s[i]) != '"' && s[i] != '\\'
}

/// Is every quote behind a backslash?
pub open spec fn quotes_are_escaped(s: Seq<char>) -> bool {
    forall|i: int| 0 <= i < s.len() && (#[trigger] s[i]) == '"' ==> i > 0 && s[i - 1] == '\\'
}

/// What is escaped is read back, whatever it is.
pub proof fn escaping_is_undone(s: Seq<char>, rest: Seq<char>)
    ensures
        string_value(escaped(s) + seq!['"'] + rest) == s,
    decreases s.len(),
{
    let all = escaped(s) + seq!['"'] + rest;
    if s.len() == 0 {
        assert(all =~= seq!['"'] + rest);
        assert(all[0] == '"');
        assert(string_value(all) =~= s);
    } else {
        let c = s[0];
        let tail = s.skip(1);
        escaping_is_undone(tail, rest);
        let after = escaped(tail) + seq!['"'] + rest;
        assert(all =~= escaped_char(c) + after);
        if escaped_char(c).len() == 2 {
            assert(all[0] == '\\');
            assert(all[1] != 'u');
            assert(all.skip(2) =~= after);
            assert(unescaped_char(all[1]) == c);
            assert(string_value(all) =~= seq![c] + tail);
        } else if escaped_char(c).len() == 6 {
            lemma_char_number(c);
            lemma_numbered(c);
            assert(all[0] == '\\' && all[1] == 'u' && all[2] == '0' && all[3] == '0');
            assert(all[4] == hex_digit(c as int / 16) && all[5] == hex_digit(c as int % 16));
            assert(hex_number(all, 2) == c as int);
            assert(begins_with_number(all));
            assert(all.skip(6) =~= after);
            assert(string_value(all) =~= seq![c] + tail);
        } else {
            assert(all[0] == c);
            assert(all.skip(1) =~= after);
            assert(string_value(all) =~= seq![c] + tail);
        }
        assert(seq![c] + tail =~= s);
    }
}

/// A plain text is read back as it stands.
proof fn lemma_plain_reads_back(s: Seq<char>, rest: Seq<char>)
    requires
        is_plain(s),
    ensures
        string_value(s + seq!['"'] + rest) == s,
    decreases s.len(),
{
    let all = s + seq!['"'] + rest;
    if s.len() == 0 {
        assert(all[0] == '"');
        assert(string_value(all) =~= s);
    } else {
        let tail = s.skip(1);
        assert forall|i: int| 0 <= i < tail.len() implies (#[trigger] tail[i]) != '"' && tail[i]
            != '\\' by {
            assert(tail[i] == s[i + 1]);
        }
        lemma_plain_reads_back(tail, rest);
        assert(s[0] != '"' && s[0] != '\\');
        assert(all[0] == s[0]);
        assert(all.skip(1) =~= tail + seq!['"'] + rest);
        assert(string_value(all) =~= s);
    }
}

/// A character's number is not negative.
proof fn lemma_char_number(c: char)
    ensures
        0 <= c as int,
{
}

proof fn lemma_numbered(c: char)
    requires
        (c as int) < 0x20,
    ensures
        '0' <= hex_digit(c as int / 16) <= 'f',
        '0' <= hex_digit(c as int % 16) <= 'f',
        hex_value(hex_digit(c as int / 16)) == c as int / 16,
        hex_value(hex_digit(c as int % 16)) == c as int % 16,
{
}

/// An escaped text has no bare quote, no line break and no carriage return.
pub proof fn escaped_text_stays_in_its_string(s: Seq<char>)
    ensures
        quotes_are_escaped(escaped(s)),
        forall|i: int| 0 <= i < escaped(s).len() ==> (#[trigger] escaped(s)[i]) != '\n' && escaped(
            s,
        )[i] != '\r',
    decreases s.len(),
{
    if s.len() > 0 {
        let tail = s.skip(1);
        escaped_text_stays_in_its_string(tail);
        let head = escaped_char(s[0]);
        let rest = escaped(tail);
        let all = escaped(s);
        if (s[0] as int) < 0x20 {
            lemma_numbered(s[0]);
        }
        assert forall|i: int| 0 <= i < all.len() && (#[trigger] all[i]) == '"' implies i > 0 && all[i
            - 1] == '\\' by {
            if i >= head.len() {
                assert(rest[i - head.len()] == '"');
                assert(all[i - 1] == rest[i - head.len() - 1]);
            } else {
                assert(head[i] == '"');
                assert(head.len() == 2 || head.len() == 6 || head.len() == 1);
            }
        }
        assert forall|i: int| 0 <= i < all.len() implies (#[trigger] all[i]) != '\n' && all[i]
            != '\r' by {
            if i >= head.len() {
                assert(all[i] == rest[i - head.len()]);
            } else {
                assert(all[i] == head[i]);
            }
        }
    }
}

/// Is `key` made of letters, and not empty?
pub open spec fn is_key(key: Seq<char>) -> bool {
    key.len() > 0 && forall|i: int| 0 <= i < key.len() ==> 'a' <= #[trigger] key[i] <= 'z'
}

/// A number's digits hold no quote and end before a comma or a brace.
proof fn lemma_number_text(i: int)
    ensures
        int_text(i).len() > 0,
        forall|k: int|
            0 <= k < int_text(i).len() ==> is_digit(#[trigger] int_text(i)[k]) || int_text(i)[k]
                == '-',
{
    if i < 0 {
        lemma_nat_text((-i) as nat);
        let t = nat_text((-i) as nat);
        assert forall|k: int| 0 <= k < int_text(i).len() implies is_digit(#[trigger] int_text(i)[k])
            || int_text(i)[k] == '-' by {
            if k > 0 {
                assert(int_text(i)[k] == t[k - 1]);
            }
        }
    } else {
        lemma_nat_text(i as nat);
    }
}

pub(crate) proof fn lemma_nat_text(n: nat)
    ensures
        nat_text(n).len() > 0,
        forall|k: int| 0 <= k < nat_text(n).len() ==> is_digit(#[trigger] nat_text(n)[k]),
    decreases n,
{
    if n >= 10 {
        lemma_nat_text(n / 10);
    }
}

/// A bare value ends at the comma or brace behind it.
proof fn lemma_bare_value(v: Seq<char>, end: char, rest: Seq<char>)
    requires
        end == ',' || end == '}',
        forall|k: int| 0 <= k < v.len() ==> is_digit(#[trigger] v[k]) || v[k] == '-',
    ensures
        bare_value(v + seq![end] + rest) == v,
    decreases v.len(),
{
    let all = v + seq![end] + rest;
    if v.len() == 0 {
        assert(all[0] == end);
        assert(bare_value(all) =~= v);
    } else {
        let tail = v.skip(1);
        assert forall|k: int| 0 <= k < tail.len() implies is_digit(#[trigger] tail[k]) || tail[k]
            == '-' by {
            assert(tail[k] == v[k + 1]);
        }
        lemma_bare_value(tail, end, rest);
        assert(all[0] == v[0]);
        assert(all.skip(1) =~= tail + seq![end] + rest);
        assert(bare_value(all) =~= v);
    }
}

/// The key of one field does not stand in a field of another key, nor across
/// the comma behind it.
proof fn lemma_key_not_in_field(key: Seq<char>, other: Seq<char>, value: Seq<char>, quoted: bool, at: int)
    requires
        is_key(key),
        is_key(other),
        key != other,
        quoted ==> quotes_are_escaped(value),
        !quoted ==> forall|k: int| 0 <= k < value.len() ==> (#[trigger] value[k]) != '"',
    ensures
        !stands_at(
            (if quoted {
                string_field(other, value)
            } else {
                number_field(other, value)
            }).push(','),
            key_text(key),
            at,
        ),
{
    let s = (if quoted {
        string_field(other, value)
    } else {
        number_field(other, value)
    }).push(',');
    let part = key_text(key);
    let m = key.len() as int;
    let r = other.len() as int;
    if stands_at(s, part, at) {
        let found = s.subrange(at, at + part.len());
        // The quote behind the key, the letter before it, the colon after it.
        let q = at + 1 + m;
        assert(part[0] == '"' && part[1 + m] == '"' && part[2 + m] == ':' && part[m] == key[m - 1]);
        assert(found[0] == '"' && found[1 + m] == '"' && found[2 + m] == ':' && found[m] == key[m - 1]);
        assert(s[at] == '"');
        assert(s[q] == '"');
        assert(s[q + 1] == ':');
        assert(s[q - 1] == key[m - 1]);
        assert(forall|i: int| 0 <= i < r ==> s[1 + i] == other[i]);
        assert(s[r + 1] == '"' && s[r + 2] == ':');
        if q <= r {
            assert(s[q] == other[q - 1]);
        } else if q == r + 1 {
            if at > 0 {
                assert(s[at] == other[at - 1]);
            } else {
                assert(key =~= other) by {
                    assert forall|i: int| 0 <= i < m implies key[i] == other[i] by {
                        assert(part[1 + i] == key[i]);
                        assert(found[1 + i] == s[1 + i]);
                    }
                }
            }
        } else if q == r + 2 {
        } else if quoted {
            if q == r + 3 {
                assert(s[q - 1] == ':');
            } else if q < r + 4 + value.len() {
                assert(s[q] == value[q - r - 4]);
                assert(s[q - 1] == value[q - r - 5]);
            } else if q == r + 4 + value.len() {
                assert(s[q + 1] == ',');
            } else {
                assert(s[q] == ',');
            }
        } else {
            if q < r + 3 + value.len() {
                assert(s[q] == value[q - r - 3]);
            } else {
                assert(s[q] == ',');
            }
        }
    }
}

/// Does the text end where a field can begin, and has it no field `key` yet?
spec fn is_before(s: Seq<char>, key: Seq<char>) -> bool {
    &&& s.len() > 0
    &&& (s.last() == ',' || s.last() == '{')
    &&& !has_part(s, key_text(key))
}

/// A text that ends where a field can begin, with one more field.
spec fn with_field(s: Seq<char>, other: Seq<char>, value: Seq<char>, quoted: bool) -> Seq<char> {
    s + (if quoted {
        string_field(other, value)
    } else {
        number_field(other, value)
    }).push(',')
}

/// One more field of another key brings no field `key`.
proof fn lemma_still_before(
    s: Seq<char>,
    key: Seq<char>,
    other: Seq<char>,
    value: Seq<char>,
    quoted: bool,
)
    requires
        is_before(s, key),
        is_key(key),
        is_key(other),
        key != other,
        quoted ==> quotes_are_escaped(value),
        !quoted ==> forall|k: int| 0 <= k < value.len() ==> (#[trigger] value[k]) != '"',
    ensures
        is_before(with_field(s, other, value, quoted), key),
{
    let f = (if quoted {
        string_field(other, value)
    } else {
        number_field(other, value)
    }).push(',');
    let all = s + f;
    let part = key_text(key);
    if has_part(all, part) {
        let at = choose|at: int| stands_at(all, part, at);
        assert(all.subrange(at, at + part.len()) == part);
        if at + part.len() <= s.len() {
            assert(s.subrange(at, at + part.len()) =~= part);
            assert(stands_at(s, part, at));
        } else if at < s.len() {
            // The last character before the field would be part of the key.
            let k = s.len() - 1 - at;
            assert(part[k] == all.subrange(at, at + part.len())[k]);
            assert(part[k] == s.last());
            assert(0 < k < part.len() || k == 0);
            if 1 <= k <= key.len() {
                assert(part[k] == key[k - 1]);
            }
        } else {
            let from = at - s.len();
            assert(f.subrange(from, from + part.len()) =~= part) by {
                assert forall|i: int| 0 <= i < part.len() implies f.subrange(
                    from,
                    from + part.len(),
                )[i] == part[i] by {
                    assert(all.subrange(at, at + part.len())[i] == part[i]);
                    assert(all[at + i] == f[from + i]);
                }
            }
            assert(stands_at(f, part, from));
            lemma_key_not_in_field(key, other, value, quoted, from);
        }
    }
}

/// Behind a text without the key, the key's own field is the first.
proof fn lemma_field_found(s: Seq<char>, key: Seq<char>, rest: Seq<char>)
    requires
        is_before(s, key),
        is_key(key),
    ensures
        field_value(s + key_text(key) + rest, key) == value_of(rest),
{
    let part = key_text(key);
    let line = s + part + rest;
    let at = s.len() as int;
    assert(line.subrange(at, at + part.len()) =~= part);
    assert(stands_at(line, part, at));
    assert forall|k: int| 0 <= k < at implies !stands_at(line, part, k) by {
        if stands_at(line, part, k) {
            let found = line.subrange(k, k + part.len());
            if k + part.len() <= at {
                assert(s.subrange(k, k + part.len()) =~= found);
                assert(stands_at(s, part, k));
            } else {
                let i = at - 1 - k;
                assert(found[i] == part[i]);
                assert(part[i] == s.last());
                if 1 <= i <= key.len() {
                    assert(part[i] == key[i - 1]);
                }
            }
        }
    }
    assert(is_first_at(line, part, at));
    assert(has_part(line, part));
    let first = choose|k: int| is_first_at(line, part, k);
    first_place_is_unique(line, part, first, at);
    assert(line.skip(at + part.len()) =~= rest);
}

/// The value of a string field is what was written, as it is or escaped.
proof fn lemma_string_read(written: Seq<char>, v: Seq<char>, rest: Seq<char>)
    requires
        written == v && is_plain(v) || written == escaped(v),
    ensures
        value_of(seq!['"'] + written + seq!['"'] + rest) == v,
{
    let all = seq!['"'] + written + seq!['"'] + rest;
    assert(all[0] == '"');
    assert(all.skip(1) =~= written + seq!['"'] + rest);
    if written == escaped(v) {
        escaping_is_undone(v, rest);
    } else {
        lemma_plain_reads_back(v, rest);
    }
}

/// The value of a number field is its digits.
proof fn lemma_number_read(i: int, end: char, rest: Seq<char>)
    requires
        end == ',' || end == '}',
    ensures
        value_of(int_text(i) + seq![end] + rest) == int_text(i),
{
    lemma_number_text(i);
    lemma_bare_value(int_text(i), end, rest);
    assert((int_text(i) + seq![end] + rest)[0] == int_text(i)[0]);
}

/// Do the two fields that are written without escaping, the time and the name
/// of the operation, stand for themselves?
pub open spec fn is_faithful(e: EntryModel) -> bool {
    is_plain(e.ts) && is_plain(e.op)
}

/// Reading a log line gives back every field that was written, whatever the
/// texts hold: quotes, backslashes, line breaks, control characters, or what
/// looks like another field.
pub proof fn a_log_line_reads_back(e: EntryModel)
    requires
        is_faithful(e),
    ensures
        field_value(entry_line(e), "ts"@) == e.ts,
        field_value(entry_line(e), "path"@) == e.path,
        field_value(entry_line(e), "op"@) == e.op,
        field_value(entry_line(e), "pid"@) == int_text(e.pid),
        field_value(entry_line(e), "comm"@) == e.comm,
        field_value(entry_line(e), "exe"@) == e.exe,
        field_value(entry_line(e), "cmdline"@) == e.cmdline,
        field_value(entry_line(e), "uid"@) == nat_text(e.uid),
{
    lemma_string_field_reads_back(e, 0, e.ts);
    lemma_string_field_reads_back(e, 1, e.path);
    lemma_string_field_reads_back(e, 2, e.op);
    lemma_pid_reads_back(e);
    lemma_string_field_reads_back(e, 4, e.comm);
    lemma_string_field_reads_back(e, 5, e.exe);
    lemma_string_field_reads_back(e, 6, e.cmdline);
    lemma_uid_reads_back(e);
}

/// Has the text no line break?
pub open spec fn is_one_line(s: Seq<char>) -> bool {
    forall|i: int| 0 <= i < s.len() ==> s[i] != '\n'
}

/// A log line has no line break in it, and ends in a brace.
pub proof fn a_log_line_is_one_line(e: EntryModel)
    requires
        is_one_line(e.ts),
        is_one_line(e.op),
    ensures
        is_one_line(entry_line(e)),
        entry_line(e).len() > 0,
        entry_line(e).last() == '}',
{
    lemma_one_line(e, 7);
    lemma_line_in_fields(e);
    lemma_keys_differ();
    lemma_nat_text(e.uid);
    let f = number_field(entry_keys()[7], nat_text(e.uid)).push('}');
    assert(is_key(entry_keys()[7]));
    lemma_key_is_one_line(entry_keys()[7]);
    assert(is_one_line(f));
    assert(entry_line(e) =~= up_to(e, 7) + f);
}

proof fn lemma_key_is_one_line(key: Seq<char>)
    requires
        is_key(key),
    ensures
        is_one_line(key_text(key)),
{
    assert forall|i: int| 0 <= i < key_text(key).len() implies key_text(key)[i] != '\n' by {
        if 1 <= i <= key.len() {
            assert(key_text(key)[i] == key[i - 1]);
        }
    }
}

proof fn lemma_one_line(e: EntryModel, k: int)
    requires
        is_one_line(e.ts),
        is_one_line(e.op),
        0 <= k <= 7,
    ensures
        is_one_line(up_to(e, k)),
    decreases k,
{
    if k > 0 {
        lemma_one_line(e, k - 1);
        lemma_keys_differ();
        assert(is_key(entry_keys()[k - 1]));
        lemma_key_is_one_line(entry_keys()[k - 1]);
        escaped_text_stays_in_its_string(e.path);
        escaped_text_stays_in_its_string(e.comm);
        escaped_text_stays_in_its_string(e.exe);
        escaped_text_stays_in_its_string(e.cmdline);
        lemma_number_text(e.pid);
        assert(is_one_line(entry_values(e)[k - 1]));
    }
}

/// The keys of a log line, in order.
spec fn entry_keys() -> Seq<Seq<char>> {
    seq!["ts"@, "path"@, "op"@, "pid"@, "comm"@, "exe"@, "cmdline"@, "uid"@]
}

/// The values of a log line as they stand in it, in order.
spec fn entry_values(e: EntryModel) -> Seq<Seq<char>> {
    seq![
        e.ts,
        escaped(e.path),
        e.op,
        int_text(e.pid),
        escaped(e.comm),
        escaped(e.exe),
        escaped(e.cmdline),
        nat_text(e.uid),
    ]
}

/// Is the field with this number a string field?
spec fn is_string_field(k: int) -> bool {
    k != 3 && k != 7
}

/// A log line up to the field with this number.
spec fn up_to(e: EntryModel, k: int) -> Seq<char>
    decreases k,
{
    if k <= 0 {
        seq!['{']
    } else {
        with_field(up_to(e, k - 1), entry_keys()[k - 1], entry_values(e)[k - 1], is_string_field(k - 1))
    }
}

/// No key stands before its own field.
proof fn lemma_key_comes_later(e: EntryModel, k: int, j: int)
    requires
        is_faithful(e),
        0 <= k <= j < 8,
    ensures
        is_before(up_to(e, k), entry_keys()[j]),
    decreases k,
{
    let keys = entry_keys();
    lemma_keys_differ();
    if k == 0 {
        assert(is_key(keys[j]));
        assert(key_text(keys[j]).len() >= 3);
    } else {
        lemma_key_comes_later(e, k - 1, j);
        escaped_text_stays_in_its_string(e.path);
        escaped_text_stays_in_its_string(e.comm);
        escaped_text_stays_in_its_string(e.exe);
        escaped_text_stays_in_its_string(e.cmdline);
        lemma_number_text(e.pid);
        assert(keys[k - 1] != keys[j]);
        lemma_still_before(
            up_to(e, k - 1),
            keys[j],
            keys[k - 1],
            entry_values(e)[k - 1],
            is_string_field(k - 1),
        );
    }
}

/// A log line is its seven first fields and the last.
proof fn lemma_line_in_fields(e: EntryModel)
    ensures
        entry_line(e) == up_to(e, 7) + number_field("uid"@, nat_text(e.uid)).push('}'),
{
    reveal_with_fuel(up_to, 8);
    assert(entry_line(e) =~= up_to(e, 7) + number_field("uid"@, nat_text(e.uid)).push('}'));
}

/// A log line begins with its first fields.
proof fn lemma_line_begins(e: EntryModel, k: int)
    requires
        0 <= k <= 7,
    ensures
        up_to(e, k).len() <= entry_line(e).len(),
        entry_line(e).take(up_to(e, k).len() as int) == up_to(e, k),
    decreases 7 - k,
{
    let line = entry_line(e);
    if k == 7 {
        lemma_line_in_fields(e);
        assert(line.take(up_to(e, 7).len() as int) =~= up_to(e, 7));
    } else {
        lemma_line_begins(e, k + 1);
        let f = if is_string_field(k) {
            string_field(entry_keys()[k], entry_values(e)[k])
        } else {
            number_field(entry_keys()[k], entry_values(e)[k])
        };
        lemma_prefix(line, up_to(e, k), f.push(','));
    }
}

/// A string field reads back.
proof fn lemma_string_field_reads_back(e: EntryModel, k: int, v: Seq<char>)
    requires
        is_faithful(e),
        0 <= k < 7,
        k != 3,
        entry_values(e)[k] == v && is_plain(v) || entry_values(e)[k] == escaped(v),
    ensures
        field_value(entry_line(e), entry_keys()[k]) == v,
{
    let line = entry_line(e);
    lemma_keys_differ();
    lemma_key_comes_later(e, k, k);
    lemma_line_begins(e, k + 1);
    lemma_split(entry_values(e)[k], up_to(e, k), entry_keys()[k], line);
    lemma_string_read(entry_values(e)[k], v, line.skip(up_to(e, k + 1).len() - 1));
}

proof fn lemma_pid_reads_back(e: EntryModel)
    requires
        is_faithful(e),
    ensures
        field_value(entry_line(e), "pid"@) == int_text(e.pid),
{
    let line = entry_line(e);
    let key = entry_keys()[3];
    let before = up_to(e, 3);
    let through = up_to(e, 4);
    lemma_keys_differ();
    lemma_key_comes_later(e, 3, 3);
    lemma_line_begins(e, 4);
    let rest = line.skip(through.len() as int);
    assert(line =~= line.take(through.len() as int) + rest);
    assert(through =~= before + key_text(key) + (int_text(e.pid) + seq![',']));
    assert(line =~= before + key_text(key) + (int_text(e.pid) + seq![','] + rest));
    lemma_field_found(before, key, int_text(e.pid) + seq![','] + rest);
    lemma_number_read(e.pid, ',', rest);
}

proof fn lemma_uid_reads_back(e: EntryModel)
    requires
        is_faithful(e),
    ensures
        field_value(entry_line(e), "uid"@) == nat_text(e.uid),
{
    let line = entry_line(e);
    let key = entry_keys()[7];
    let before = up_to(e, 7);
    let none = Seq::<char>::empty();
    lemma_keys_differ();
    lemma_key_comes_later(e, 7, 7);
    lemma_line_in_fields(e);
    assert(line =~= before + key_text(key) + (int_text(e.uid as int) + seq!['}'] + none));
    lemma_field_found(before, key, int_text(e.uid as int) + seq!['}'] + none);
    lemma_number_read(e.uid as int, '}', none);
}

/// What begins with a longer text begins with the beginning of that text.
proof fn lemma_prefix(line: Seq<char>, t: Seq<char>, f: Seq<char>)
    requires
        (t + f).len() <= line.len(),
        line.take((t + f).len() as int) == t + f,
    ensures
        line.take(t.len() as int) == t,
{
    assert(line.take(t.len() as int) =~= (t + f).take(t.len() as int));
    assert((t + f).take(t.len() as int) =~= t);
}

/// The keys are words, and no two are the same.
proof fn lemma_keys_differ()
    ensures
        forall|k: int| 0 <= k < 8 ==> is_key(#[trigger] entry_keys()[k]),
        forall|i: int, j: int|
            0 <= i < 8 && 0 <= j < 8 && i != j ==> #[trigger] entry_keys()[i]
                != #[trigger] entry_keys()[j],
{
    reveal_strlit("ts");
    reveal_strlit("path");
    reveal_strlit("op");
    reveal_strlit("pid");
    reveal_strlit("comm");
    reveal_strlit("exe");
    reveal_strlit("cmdline");
    reveal_strlit("uid");
    let keys = entry_keys();
    assert(keys[0][0] == 't');
    assert(keys[1][0] == 'p' && keys[1].len() == 4);
    assert(keys[2][0] == 'o');
    assert(keys[3][0] == 'p' && keys[3].len() == 3);
    assert(keys[4][0] == 'c' && keys[4].len() == 4);
    assert(keys[5][0] == 'e');
    assert(keys[6][0] == 'c' && keys[6].len() == 7);
    assert(keys[7][0] == 'u');
}

/// A string field at its place in a line is found there.
proof fn lemma_split(value: Seq<char>, before: Seq<char>, key: Seq<char>, line: Seq<char>)
    requires
        is_before(before, key),
        is_key(key),
        with_field(before, key, value, true).len() <= line.len(),
        line.take(with_field(before, key, value, true).len() as int) == with_field(
            before,
            key,
            value,
            true,
        ),
    ensures
        field_value(line, key) == value_of(
            seq!['"'] + value + seq!['"'] + line.skip(
                with_field(before, key, value, true).len() - 1,
            ),
        ),
{
    let t = with_field(before, key, value, true);
    let rest = seq!['"'] + value + seq!['"'] + line.skip(t.len() - 1);
    assert(line =~= before + key_text(key) + rest) by {
        let whole = before + key_text(key) + rest;
        assert(whole.len() == line.len());
        assert forall|i: int| 0 <= i < line.len() implies line[i] == whole[i] by {
            if i < t.len() {
                assert(line.take(t.len() as int)[i] == t[i]);
            }
        }
    }
    lemma_field_found(before, key, rest);
}

} // verus!
