//! The decisions of the command-line front end that need no I/O: which
//! subcommand the arguments ask for, the trailing `--json` flag, and the
//! JSON text of a flat object.

use vstd::prelude::*;
use crate::text::{chars_of, string_from_chars};

verus! {

/// `s` is exactly `--json`.
pub open spec fn is_json_flag(s: Seq<char>) -> bool {
    s == seq!['-', '-', 'j', 's', 'o', 'n']
}

/// The characters of `s` equal `word`.
fn chars_equal(s: &str, word: &[char]) -> (b: bool)
    ensures
        b == (s@ == word@),
{
    let cs = chars_of(s);
    if cs.len() != word.len() {
        return false;
    }
    let mut i: usize = 0;
    while i < cs.len()
        invariant
            i <= cs@.len() == word@.len(),
            cs@ == s@,
            forall|k: int| 0 <= k < i ==> cs@[k] == word@[k],
        decreases cs.len() - i,
    {
        if cs[i] != word[i] {
            return false;
        }
        i = i + 1;
    }
    assert(cs@ =~= word@);
    true
}

/// Pulls a trailing `--json` flag off the argument list, if present.
pub fn strip_json_flag(args: &[String]) -> (res: (bool, &[String]))
    ensures
        res.0 == (args@.len() > 0 && is_json_flag(args@.last()@)),
        res.0 ==> res.1@ == args@.drop_last(),
        !res.0 ==> res.1@ == args@,
{
    let n = args.len();
    if n > 0 && chars_equal(args[n - 1].as_str(), &['-', '-', 'j', 's', 'o', 'n']) {
        proof {
            assert(seq!['-', '-', 'j', 's', 'o', 'n'] =~= ['-', '-', 'j', 's', 'o', 'n']@);
        }
        let (rest, _) = args.split_at(n - 1);
        assert(rest@ =~= args@.drop_last());
        (true, rest)
    } else {
        proof {
            if n > 0 {
                assert(seq!['-', '-', 'j', 's', 'o', 'n'] =~= ['-', '-', 'j', 's', 'o', 'n']@);
            }
        }
        (false, args)
    }
}

/// The subcommands of the command-line tool.
#[derive(Debug, Clone, Copy, PartialEq, Eq, Structural)]
pub enum Command {
    /// `bytes parse <text>`
    BytesParse,
    /// `bytes fmt <n>`
    BytesFmt,
    /// `duration parse <text>`
    DurationParse,
    /// `duration fmt <seconds>`
    DurationFmt,
}

/// The subcommand that three arguments `cmd sub value` ask for.
pub open spec fn command_of(cmd: Seq<char>, sub: Seq<char>) -> Option<Command> {
    let bytes = seq!['b', 'y', 't', 'e', 's'];
    let duration = seq!['d', 'u', 'r', 'a', 't', 'i', 'o', 'n'];
    let parse = seq!['p', 'a', 'r', 's', 'e'];
    let fmt = seq!['f', 'm', 't'];
    if cmd == bytes && sub == parse {
        Some(Command::BytesParse)
    } else if cmd == bytes && sub == fmt {
        Some(Command::BytesFmt)
    } else if cmd == duration && sub == parse {
        Some(Command::DurationParse)
    } else if cmd == duration && sub == fmt {
        Some(Command::DurationFmt)
    } else {
        None
    }
}

/// The subcommand that the arguments (without the `--json` flag) ask for:
/// exactly three of them, the first two naming it.
pub fn select_command(args: &[String]) -> (c: Option<Command>)
    ensures
        c == (if args@.len() == 3 {
            command_of(args@[0]@, args@[1]@)
        } else {
            None
        }),
{
    if args.len() != 3 {
        return None;
    }
    let bytes = ['b', 'y', 't', 'e', 's'];
    let duration = ['d', 'u', 'r', 'a', 't', 'i', 'o', 'n'];
    let parse = ['p', 'a', 'r', 's', 'e'];
    let fmt = ['f', 'm', 't'];
    assert(bytes@ =~= seq!['b', 'y', 't', 'e', 's']);
    assert(duration@ =~= seq!['d', 'u', 'r', 'a', 't', 'i', 'o', 'n']);
    assert(parse@ =~= seq!['p', 'a', 'r', 's', 'e']);
    assert(fmt@ =~= seq!['f', 'm', 't']);
    let is_bytes = chars_equal(args[0].as_str(), &bytes);
    let is_duration = chars_equal(args[0].as_str(), &duration);
    let is_parse = chars_equal(args[1].as_str(), &parse);
    let is_fmt = chars_equal(args[1].as_str(), &fmt);
    if is_bytes && is_parse {
        Some(Command::BytesParse)
    } else if is_bytes && is_fmt {
        Some(Command::BytesFmt)
    } else if is_duration && is_parse {
        Some(Command::DurationParse)
    } else if is_duration && is_fmt {
        Some(Command::DurationFmt)
    } else {
        None
    }
}

/// A lower-case hexadecimal digit.
pub open spec fn hex_digit(d: nat) -> char {
    if d < 10 {
        (d + ('0' as u32)) as char
    } else {
        (d - 10 + ('a' as u32)) as char
    }
}

/// How one character stands inside a JSON string: quotes, backslashes and
/// the control characters escaped (`\n`, `\r`, `\t`, else `\u00XX`).
pub open spec fn escape_char(c: char) -> Seq<char> {
    if c == '"' {
        seq!['\\', '"']
    } else if c == '\\' {
        seq!['\\', '\\']
    } else if c == '\n' {
        seq!['\\', 'n']
    } else if c == '\r' {
        seq!['\\', 'r']
    } else if c == '\t' {
        seq!['\\', 't']
    } else if (c as u32) < 0x20 {
        seq!['\\', 'u', '0', '0', hex_digit((c as u32 / 16) as nat), hex_digit((c as u32 % 16) as nat)]
    } else {
        seq![c]
    }
}

/// `s` with every character escaped for a JSON string.
pub open spec fn json_escaped(s: Seq<char>) -> Seq<char>
    decreases s.len(),
{
    if s.len() == 0 {
        Seq::empty()
    } else {
        json_escaped(s.drop_last()) + escape_char(s.last())
    }
}

/// The character that a two-character JSON escape `\c` stands for.
pub open spec fn short_escape(c: char) -> Option<char> {
    if c == '"' {
        Some('"')
    } else if c == '\\' {
        Some('\\')
    } else if c == '/' {
        Some('/')
    } else if c == 'b' {
        Some('\u{8}')
    } else if c == 'f' {
        Some('\u{c}')
    } else if c == 'n' {
        Some('\n')
    } else if c == 'r' {
        Some('\r')
    } else if c == 't' {
        Some('\t')
    } else {
        None
    }
}

/// The value of a hexadecimal digit, in either case.
pub open spec fn hex_value(c: char) -> Option<nat> {
    if '0' <= c && c <= '9' {
        Some((c as u32 - '0' as u32) as nat)
    } else if 'a' <= c && c <= 'f' {
        Some((c as u32 - 'a' as u32 + 10) as nat)
    } else if 'A' <= c && c <= 'F' {
        Some((c as u32 - 'A' as u32 + 10) as nat)
    } else {
        None
    }
}

/// The value of four hexadecimal digits.
pub open spec fn hex4_value(t: Seq<char>) -> Option<nat> {
    if t.len() == 4 && hex_value(t[0]) is Some && hex_value(t[1]) is Some && hex_value(t[2]) is Some
        && hex_value(t[3]) is Some {
        Some(
            ((hex_value(t[0])->0 * 16 + hex_value(t[1])->0) * 16 + hex_value(t[2])->0) * 16
                + hex_value(t[3])->0,
        )
    } else {
        None
    }
}

/// The characters that `t`, the text between the quotes of a JSON string
/// (RFC 8259, section 7), stands for; `None` where `t` is no such text. A
/// `\u` escape of a surrogate, which only a pair of them can stand for,
/// is refused here.
pub open spec fn json_unescaped(t: Seq<char>) -> Option<Seq<char>>
    decreases t.len(),
{
    if t.len() == 0 {
        Some(Seq::empty())
    } else if t[0] == '\\' {
        if t.len() >= 2 && short_escape(t[1]) is Some {
            match json_unescaped(t.skip(2)) {
                Some(r) => Some(seq![short_escape(t[1])->0] + r),
                None => None,
            }
        } else if t.len() >= 6 && t[1] == 'u' && hex4_value(t.subrange(2, 6)) is Some && !(0xd800
            <= hex4_value(t.subrange(2, 6))->0 <= 0xdfff) {
            match json_unescaped(t.skip(6)) {
                Some(r) => Some(seq![(hex4_value(t.subrange(2, 6))->0) as char] + r),
                None => None,
            }
        } else {
            None
        }
    } else if t[0] == '"' || (t[0] as u32) < 0x20 {
        None
    } else {
        match json_unescaped(t.skip(1)) {
            Some(r) => Some(seq![t[0]] + r),
            None => None,
        }
    }
}

proof fn lemma_hex_digit_value(d: nat)
    requires
        d < 16,
    ensures
        hex_value(hex_digit(d)) == Some(d),
{
}

/// Decoding one escaped character and then the rest.
proof fn lemma_unescape_char(c: char, rest: Seq<char>)
    ensures
        json_unescaped(escape_char(c) + rest) == match json_unescaped(rest) {
            Some(r) => Some(seq![c] + r),
            None => None::<Seq<char>>,
        },
{
    let e = escape_char(c);
    let t = e + rest;
    if c == '"' || c == '\\' || c == '\n' || c == '\r' || c == '\t' {
        assert(t[0] == '\\' && t[1] == e[1]);
        assert(t.skip(2) =~= rest);
    } else if (c as u32) < 0x20 {
        let v = c as u32;
        lemma_hex_digit_value((v / 16) as nat);
        lemma_hex_digit_value((v % 16) as nat);
        assert(t[0] == '\\' && t[1] == 'u');
        assert(t.subrange(2, 6) =~= seq!['0', '0', hex_digit((v / 16) as nat), hex_digit((v % 16) as nat)]);
        assert(hex4_value(t.subrange(2, 6)) == Some(((v / 16) * 16 + v % 16) as nat));
        assert(t.skip(6) =~= rest);
    } else {
        assert(t[0] == c);
        assert(t.skip(1) =~= rest);
    }
}

/// The escaped text, read from the front: the first character's escape,
/// then the escaped rest.
proof fn lemma_escaped_front(s: Seq<char>)
    requires
        s.len() > 0,
    ensures
        json_escaped(s) == escape_char(s[0]) + json_escaped(s.skip(1)),
    decreases s.len(),
{
    if s.len() == 1 {
        assert(s.drop_last() =~= Seq::<char>::empty());
        assert(s.skip(1) =~= Seq::<char>::empty());
        assert(escape_char(s[0]) + Seq::<char>::empty() =~= escape_char(s[0]));
    } else {
        let d = s.drop_last();
        lemma_escaped_front(d);
        assert(d.skip(1) =~= s.skip(1).drop_last());
        assert(s.skip(1).last() == s.last());
        assert(json_escaped(s.skip(1)) == json_escaped(s.skip(1).drop_last()) + escape_char(s.last()));
        assert(escape_char(s[0]) + json_escaped(d.skip(1)) + escape_char(s.last()) =~= escape_char(
            s[0],
        ) + (json_escaped(d.skip(1)) + escape_char(s.last())));
    }
}

proof fn lemma_escape_char_printable(c: char)
    ensures
        forall|k: int| 0 <= k < escape_char(c).len() ==> (#[trigger] escape_char(c)[k] as u32) >= 0x20,
{
    if (c as u32) < 0x20 && !(c == '\n' || c == '\r' || c == '\t') {
        let v = c as u32;
        assert(hex_digit((v / 16) as nat) as u32 >= 0x30);
        assert(hex_digit((v % 16) as nat) as u32 >= 0x30);
    }
}

/// Escaping gives the text of a JSON string that reads back as `s`, with no
/// control character left in it.
pub proof fn escaped_text_is_a_json_string(s: Seq<char>)
    ensures
        json_unescaped(json_escaped(s)) == Some(s),
        forall|k: int| 0 <= k < json_escaped(s).len() ==> (#[trigger] json_escaped(s)[k] as u32) >= 0x20,
    decreases s.len(),
{
    if s.len() == 0 {
        assert(json_escaped(s) =~= Seq::<char>::empty());
    } else {
        lemma_escaped_front(s);
        escaped_text_is_a_json_string(s.skip(1));
        lemma_unescape_char(s[0], json_escaped(s.skip(1)));
        assert(seq![s[0]] + s.skip(1) =~= s);
        let e = escape_char(s[0]);
        let r = json_escaped(s.skip(1));
        lemma_escape_char_printable(s[0]);
        assert forall|k: int| 0 <= k < json_escaped(s).len() implies (#[trigger] json_escaped(s)[k] as u32)
            >= 0x20 by {
            if k < e.len() {
                assert(json_escaped(s)[k] == e[k]);
            } else {
                assert(json_escaped(s)[k] == r[k - e.len()]);
            }
        }
    }
}

fn hex_digit_exec(d: u32) -> (c: char)
    requires
        d < 16,
    ensures
        c == hex_digit(d as nat),
{
    if d < 10 {
        ((d as u8) + 48) as char
    } else {
        ((d as u8) - 10 + 97) as char
    }
}

/// Escapes `s` for use inside a JSON string.
pub fn json_escape(s: &str) -> (out: String)
    ensures
        out@ == json_escaped(s@),
{
    let cs = chars_of(s);
    let mut out: Vec<char> = Vec::new();
    push_escaped(&mut out, cs.as_slice());
    assert(out@ =~= json_escaped(s@));
    string_from_chars(out)
}

/// Appends `s`, escaped for a JSON string, to `out`.
fn push_escaped(out: &mut Vec<char>, s: &[char])
    ensures
        final(out)@ == old(out)@ + json_escaped(s@),
{
    let ghost start = out@;
    let mut i: usize = 0;
    while i < s.len()
        invariant
            i <= s@.len(),
            out@ == start + json_escaped(s@.take(i as int)),
            start == old(out)@,
        decreases s.len() - i,
    {
        let c = s[i];
        let ghost before = out@;
        if c == '"' {
            out.push('\\');
            out.push('"');
        } else if c == '\\' {
            out.push('\\');
            out.push('\\');
        } else if c == '\n' {
            out.push('\\');
            out.push('n');
        } else if c == '\r' {
            out.push('\\');
            out.push('r');
        } else if c == '\t' {
            out.push('\\');
            out.push('t');
        } else if (c as u32) < 0x20 {
            out.push('\\');
            out.push('u');
            out.push('0');
            out.push('0');
            out.push(hex_digit_exec((c as u32) / 16));
            out.push(hex_digit_exec((c as u32) % 16));
        } else {
            out.push(c);
        }
        proof {
            assert(out@ =~= before + escape_char(c));
            assert(s@.take(i + 1).drop_last() =~= s@.take(i as int));
        }
        i = i + 1;
    }
    assert(s@.take(s.len() as int) =~= s@);
}

/// A value of a flat JSON object: a string, to be escaped, or a number,
/// given as the text that it is written with.
pub enum JsonValue {
    Str(String),
    Num(String),
}

/// `JsonValue` with its text taken as a character sequence.
pub enum JsonText {
    Str(Seq<char>),
    Num(Seq<char>),
}

impl View for JsonValue {
    type V = JsonText;

    open spec fn view(&self) -> JsonText {
        match self {
            JsonValue::Str(s) => JsonText::Str(s@),
            JsonValue::Num(n) => JsonText::Num(n@),
        }
    }
}

/// `"key":value`, with a string value quoted and escaped and a number as
/// it is; the key goes in as it is.
pub open spec fn field_text(key: Seq<char>, value: JsonText) -> Seq<char> {
    seq!['"'] + key + seq!['"', ':'] + match value {
        JsonText::Str(s) => seq!['"'] + json_escaped(s) + seq!['"'],
        JsonText::Num(n) => n,
    }
}

/// The fields, written one after the other with `,` between them.
pub open spec fn fields_text(fields: Seq<(Seq<char>, JsonText)>) -> Seq<char>
    decreases fields.len(),
{
    if fields.len() == 0 {
        Seq::empty()
    } else if fields.len() == 1 {
        field_text(fields[0].0, fields[0].1)
    } else {
        fields_text(fields.drop_last()) + seq![','] + field_text(
            fields.last().0,
            fields.last().1,
        )
    }
}

/// An object with no field has nothing between its braces.
pub proof fn no_fields_no_text()
    ensures
        fields_text(Seq::<(Seq<char>, JsonText)>::empty()) == Seq::<char>::empty(),
{
}

/// One field is written as its quoted key, a `:` and its value: a string
/// value between quotes, escaped (so that it reads back as the string), a
/// number as its text.
pub proof fn one_field_is_quoted(key: Seq<char>, value: JsonText)
    ensures
        fields_text(seq![(key, value)]) == seq!['"'] + key + seq!['"', ':'] + match value {
            JsonText::Str(s) => seq!['"'] + json_escaped(s) + seq!['"'],
            JsonText::Num(n) => n,
        },
        value matches JsonText::Str(s) ==> json_unescaped(json_escaped(s)) == Some(s),
{
    if let JsonText::Str(s) = value {
        escaped_text_is_a_json_string(s);
    }
}

/// Every field is written the same way wherever it stands: the fields of
/// `a` followed by those of `b` are written as the text of `a`, a `,`, and
/// the text of `b`. With `one_field_is_quoted`, every string value, at any
/// position, stands quoted in the object.
pub proof fn fields_join(a: Seq<(Seq<char>, JsonText)>, b: Seq<(Seq<char>, JsonText)>)
    requires
        a.len() > 0,
        b.len() > 0,
    ensures
        fields_text(a + b) == fields_text(a) + seq![','] + fields_text(b),
    decreases b.len(),
{
    let ab = a + b;
    if b.len() == 1 {
        assert(ab.drop_last() =~= a);
        assert(ab.last() == b[0]);
    } else {
        let b1 = b.drop_last();
        assert(ab.drop_last() =~= a + b1);
        assert(ab.last() == b.last());
        fields_join(a, b1);
        let ft = field_text(b.last().0, b.last().1);
        assert(fields_text(a) + seq![','] + fields_text(b1) + seq![','] + ft =~= fields_text(a)
            + seq![','] + (fields_text(b1) + seq![','] + ft));
    }
}

/// The keys and values of `fields` as character sequences.
pub open spec fn fields_view(fields: Seq<(&str, JsonValue)>) -> Seq<(Seq<char>, JsonText)> {
    fields.map_values(|f: (&str, JsonValue)| (f.0@, f.1@))
}

/// A JSON object with the given fields, in order.
pub fn json_object(fields: &[(&str, JsonValue)]) -> (out: String)
    ensures
        out@ == seq!['{'] + fields_text(fields_view(fields@)) + seq!['}'],
{
    let mut out: Vec<char> = Vec::new();
    out.push('{');
    let mut i: usize = 0;
    while i < fields.len()
        invariant
            i <= fields@.len(),
            out@ == seq!['{'] + fields_text(fields_view(fields@.take(i as int))),
        decreases fields.len() - i,
    {
        let ghost before = out@;
        if i > 0 {
            out.push(',');
        }
        let (key, value) = &fields[i];
        out.push('"');
        let key_chars = chars_of(key);
        let mut j: usize = 0;
        let ghost mid = out@;
        while j < key_chars.len()
            invariant
                j <= key_chars@.len(),
                out@ == mid + key_chars@.take(j as int),
            decreases key_chars.len() - j,
        {
            out.push(key_chars[j]);
            proof {
                assert(key_chars@.take(j + 1) =~= key_chars@.take(j as int).push(key_chars@[j as int]));
            }
            j = j + 1;
        }
        assert(key_chars@.take(key_chars.len() as int) =~= key_chars@);
        out.push('"');
        out.push(':');
        match value {
            JsonValue::Str(s) => {
                out.push('"');
                let cs = chars_of(s.as_str());
                push_escaped(&mut out, cs.as_slice());
                out.push('"');
            },
            JsonValue::Num(text) => {
                let cs = chars_of(text.as_str());
                let mut j: usize = 0;
                let ghost mid2 = out@;
                while j < cs.len()
                    invariant
                        j <= cs@.len(),
                        out@ == mid2 + cs@.take(j as int),
                    decreases cs.len() - j,
                {
                    out.push(cs[j]);
                    proof {
                        assert(cs@.take(j + 1) =~= cs@.take(j as int).push(cs@[j as int]));
                    }
                    j = j + 1;
                }
                assert(cs@.take(cs.len() as int) =~= cs@);
            },
        }
        proof {
            let fv = fields_view(fields@.take(i + 1));
            assert(fields_view(fields@.take(i + 1)).drop_last() =~= fields_view(
                fields@.take(i as int),
            ));
            assert(fv.last() == (key@, value@));
            let ft = field_text(key@, value@);
            if i == 0 {
                assert(out@ =~= before + ft);
            } else {
                assert(out@ =~= before + seq![','] + ft);
            }
        }
        i = i + 1;
    }
    assert(fields@.take(fields.len() as int) =~= fields@);
    out.push('}');
    string_from_chars(out)
}

/// The help text printed for arguments that name no subcommand.
pub open spec fn usage_text() -> Seq<char> {
    "usage:\n  sizespan bytes parse <text> [--json]      e.g. sizespan bytes parse 1.5MiB\n  sizespan bytes fmt <n> [--json]           e.g. sizespan bytes fmt 1572864\n  sizespan duration parse <text> [--json]   e.g. sizespan duration parse 1h30m\n  sizespan duration fmt <seconds> [--json]  e.g. sizespan duration fmt 5400"@
}

/// The help text.
pub fn usage() -> (text: String)
    ensures
        text@ == usage_text(),
{
    "usage:\n  sizespan bytes parse <text> [--json]      e.g. sizespan bytes parse 1.5MiB\n  sizespan bytes fmt <n> [--json]           e.g. sizespan bytes fmt 1572864\n  sizespan duration parse <text> [--json]   e.g. sizespan duration parse 1h30m\n  sizespan duration fmt <seconds> [--json]  e.g. sizespan duration fmt 5400".to_string()
}

} // verus!
