use vstd::prelude::*;
use vstd::string::*;
use crate::tokenizer::state::push_char;

verus! {

/// The hexadecimal digit of the four low bits of `v`, in upper case.
pub open spec fn hex_digit(v: u16) -> char {
    let d = (v & 0xF) as int;
    if d < 10 {
        ('0' as int + d) as char
    } else {
        ('A' as int + d - 10) as char
    }
}

/// The `\uXXXX` escape of a UTF-16 code unit.
pub open spec fn js_escape(c: u16) -> Seq<char> {
    seq!['\\', 'u', hex_digit(c >> 12u16), hex_digit(c >> 8u16), hex_digit(c >> 4u16), hex_digit(c)]
}

/// How a UTF-16 code unit appears inside a JSON string: the short escapes of JSON for the
/// backslash, the quote and five control characters, a `\u` escape for the other control
/// characters and everything outside ASCII, itself otherwise.
pub open spec fn json_unit(c: u16) -> Seq<char> {
    if c >= 0x80 {
        js_escape(c)
    } else if c == '\\' as u16 {
        seq!['\\', '\\']
    } else if c == '"' as u16 {
        seq!['\\', '"']
    } else if c == 0x08 {
        seq!['\\', 'b']
    } else if c == 0x0C {
        seq!['\\', 'f']
    } else if c == '\n' as u16 {
        seq!['\\', 'n']
    } else if c == '\r' as u16 {
        seq!['\\', 'r']
    } else if c == '\t' as u16 {
        seq!['\\', 't']
    } else if c < 0x20 {
        js_escape(c)
    } else {
        seq![c as char]
    }
}

/// The code units one after the other, each as it appears inside a JSON string.
pub open spec fn json_units(s: Seq<u16>) -> Seq<char>
    decreases s.len(),
{
    if s.len() == 0 {
        Seq::empty()
    } else {
        json_units(s.drop_last()) + json_unit(s.last())
    }
}

/// The JSON string literal of a UTF-16 string.
pub open spec fn json_string(s: Seq<u16>) -> Seq<char> {
    seq!['"'] + json_units(s) + seq!['"']
}

/// The code unit that the JSON escape `\c` stands for, for the escapes that JSON has besides
/// `\u`.
pub open spec fn json_short_escape(c: char) -> Option<u16> {
    if c == '"' {
        Some(0x22u16)
    } else if c == '\\' {
        Some(0x5Cu16)
    } else if c == '/' {
        Some(0x2Fu16)
    } else if c == 'b' {
        Some(0x08u16)
    } else if c == 'f' {
        Some(0x0Cu16)
    } else if c == 'n' {
        Some(0x0Au16)
    } else if c == 'r' {
        Some(0x0Du16)
    } else if c == 't' {
        Some(0x09u16)
    } else {
        None
    }
}

/// The value of a hexadecimal digit, in either case.
pub open spec fn hex_value(c: char) -> Option<int> {
    if '0' <= c && c <= '9' {
        Some(c as int - '0' as int)
    } else if 'A' <= c && c <= 'F' {
        Some(c as int - 'A' as int + 10)
    } else if 'a' <= c && c <= 'f' {
        Some(c as int - 'a' as int + 10)
    } else {
        None
    }
}

/// The code unit of the four hexadecimal digits of a `\u` escape that starts at `t[2]`.
pub open spec fn hex4_value(t: Seq<char>) -> Option<u16> {
    match (hex_value(t[2]), hex_value(t[3]), hex_value(t[4]), hex_value(t[5])) {
        (Some(a), Some(b), Some(c), Some(d)) => Some((a * 4096 + b * 256 + c * 16 + d) as u16),
        _ => None,
    }
}

/// `u` in front of the decoded units, if any.
pub open spec fn prepend_unit(u: u16, rest: Option<Seq<u16>>) -> Option<Seq<u16>> {
    match rest {
        Some(r) => Some(seq![u] + r),
        None => None,
    }
}

/// The UTF-16 units that the inside of a JSON string literal written in ASCII stands for, or
/// none when it is not one: printable characters other than `"` and `\` stand for themselves,
/// and each escape is one of JSON's (`\"`, `\\`, `\/`, `\b`, `\f`, `\n`, `\r`, `\t`, `\uXXXX`).
pub open spec fn json_decode(t: Seq<char>) -> Option<Seq<u16>>
    decreases t.len(),
{
    if t.len() == 0 {
        Some(Seq::empty())
    } else if t[0] == '\\' {
        if t.len() >= 2 && json_short_escape(t[1]) is Some {
            prepend_unit(json_short_escape(t[1])->0, json_decode(t.skip(2)))
        } else if t.len() >= 6 && t[1] == 'u' && hex4_value(t) is Some {
            prepend_unit(hex4_value(t)->0, json_decode(t.skip(6)))
        } else {
            None
        }
    } else if t[0] == '"' || (t[0] as int) < 0x20 || (t[0] as int) >= 0x80 {
        None
    } else {
        prepend_unit(t[0] as u16, json_decode(t.skip(1)))
    }
}

/// The digit that `hex_digit` writes reads back as the four low bits.
proof fn lemma_hex_digit(v: u16)
    ensures
        hex_value(hex_digit(v)) == Some((v & 0xF) as int),
{
    assert((v & 0xF) < 16) by (bit_vector);
}

/// The four digits of a `\u` escape read back as the code unit.
proof fn lemma_js_escape(c: u16, rest: Seq<char>)
    ensures
        json_decode(js_escape(c) + rest) == prepend_unit(c, json_decode(rest)),
{
    let t = js_escape(c) + rest;
    lemma_hex_digit(c >> 12u16);
    lemma_hex_digit(c >> 8u16);
    lemma_hex_digit(c >> 4u16);
    lemma_hex_digit(c);
    assert(t[0] == '\\' && t[1] == 'u');
    assert(t[2] == hex_digit(c >> 12u16) && t[3] == hex_digit(c >> 8u16));
    assert(t[4] == hex_digit(c >> 4u16) && t[5] == hex_digit(c));
    assert(((c >> 12u16) & 0xF) * 4096 + ((c >> 8u16) & 0xF) * 256 + ((c >> 4u16) & 0xF) * 16 + (c
        & 0xF) == c) by (bit_vector);
    assert(json_short_escape('u') is None);
    assert(t.skip(6) =~= rest);
}

/// Each unit as written reads back as itself, whatever follows it.
proof fn lemma_json_unit(c: u16, rest: Seq<char>)
    ensures
        json_decode(json_unit(c) + rest) == prepend_unit(c, json_decode(rest)),
{
    let t = json_unit(c) + rest;
    if c >= 0x80 || (c < 0x20 && c != 0x08 && c != 0x0C && c != 0x0A && c != 0x0D && c != 0x09) {
        lemma_js_escape(c, rest);
    } else if c == 0x5C || c == 0x22 || c == 0x08 || c == 0x0C || c == 0x0A || c == 0x0D || c == 0x09 {
        assert(t[0] == '\\');
        assert(t.skip(2) =~= rest);
    } else {
        assert(t[0] == c as char);
        assert(t.skip(1) =~= rest);
    }
}

/// The units written one after the other, from the first.
proof fn lemma_json_units_first(s: Seq<u16>)
    requires
        s.len() > 0,
    ensures
        json_units(s) == json_unit(s[0]) + json_units(s.drop_first()),
    decreases s.len(),
{
    if s.len() > 1 {
        lemma_json_units_first(s.drop_last());
        assert(s.drop_last().drop_first() =~= s.drop_first().drop_last());
        assert(s.drop_first().last() == s.last());
        assert(s.drop_last()[0] == s[0]);
        let a = json_unit(s[0]);
        let b = json_units(s.drop_first().drop_last());
        let c = json_unit(s.last());
        assert(json_units(s) == (a + b) + c);
        assert(json_units(s.drop_first()) == b + c);
        assert((a + b) + c =~= a + (b + c));
    } else {
        assert(s.drop_first().len() == 0);
        assert(s.drop_last().len() == 0);
        assert(json_units(s.drop_first()) =~= Seq::<char>::empty());
        assert(json_units(s.drop_last()) =~= Seq::<char>::empty());
        assert(s.last() == s[0]);
        assert(json_units(s) =~= json_unit(s[0]));
        assert(json_unit(s[0]) + Seq::<char>::empty() =~= json_unit(s[0]));
    }
}

/// The JSON string literal of a string reads back as that string: it is a quote, a text that
/// JSON decodes to exactly the string's code units, and a quote.
pub proof fn law_json_string_decodes(s: Seq<u16>)
    ensures
        json_string(s).len() >= 2,
        json_string(s)[0] == '"',
        json_string(s).last() == '"',
        json_decode(json_string(s).subrange(1, json_string(s).len() - 1)) == Some(s),
    decreases s.len(),
{
    let j = json_string(s);
    assert(j.subrange(1, j.len() - 1) =~= json_units(s));
    lemma_units_decode(s);
}

/// The written units read back as the units.
proof fn lemma_units_decode(s: Seq<u16>)
    ensures
        json_decode(json_units(s)) == Some(s),
    decreases s.len(),
{
    if s.len() == 0 {
        assert(json_units(s) =~= Seq::<char>::empty());
    } else {
        lemma_json_units_first(s);
        lemma_units_decode(s.drop_first());
        lemma_json_unit(s[0], json_units(s.drop_first()));
        assert(seq![s[0]] + s.drop_first() =~= s);
    }
}

/// A text that JSON can be written to.
pub trait WriteJson: Sized {
    /// The text written so far.
    spec fn written(&self) -> Seq<char>;

    /// Appends a character.
    fn write_char(&mut self, c: char)
        ensures
            final(self).written() == old(self).written().push(c),
    ;

    /// Appends a string.
    fn write_str(&mut self, s: &str)
        ensures
            final(self).written() == old(self).written() + s@,
    ;

    /// Appends the hexadecimal digit of the four low bits of `v`.
    fn write_u4_hex(&mut self, v: u16)
        ensures
            final(self).written() == old(self).written().push(hex_digit(v)),
    {
        let digits = ['0', '1', '2', '3', '4', '5', '6', '7', '8', '9', 'A', 'B', 'C', 'D', 'E', 'F'];
        let d = v & 0xF;
        assert(d < 16) by (bit_vector)
            requires
                d == v & 0xF,
        ;
        let c = digits[d as usize];
        assert(c == hex_digit(v)) by {
            assert(d == (v & 0xF));
        }
        self.write_char(c);
    }

    /// Appends the `\u` escape of a code unit.
    fn write_js_escape(&mut self, c: u16)
        ensures
            final(self).written() == old(self).written() + js_escape(c),
    {
        let ghost start = self.written();
        let escape = "\\u";
        proof {
            reveal_strlit("\\u");
        }
        self.write_str(escape);
        self.write_u4_hex(c >> 12);
        self.write_u4_hex(c >> 8);
        self.write_u4_hex(c >> 4);
        self.write_u4_hex(c);
        proof {
            assert(self.written() =~= start + js_escape(c));
        }
    }

    /// Appends the JSON string literal of a UTF-16 string (see `json_string`).
    fn write_js_string(&mut self, s: &[u16])
        ensures
            final(self).written() == old(self).written() + json_string(s@),
    {
        let ghost start = self.written();
        self.write_char('"');
        let n = s.len();
        let mut i: usize = 0;
        proof {
            assert(s@.take(0) =~= Seq::<u16>::empty());
            assert(self.written() =~= start + seq!['"'] + json_units(s@.take(0)));
        }
        while i < n
            invariant
                i <= n,
                n == s@.len(),
                self.written() == start + seq!['"'] + json_units(s@.take(i as int)),
            decreases n - i,
        {
            let c = s[i];
            let ghost before = self.written();
            if c < 0x80 {
                if c == '\\' as u16 {
                    let t = "\\\\";
                    proof {
                        reveal_strlit("\\\\");
                    }
                    self.write_str(t);
                } else if c == '"' as u16 {
                    let t = "\\\"";
                    proof {
                        reveal_strlit("\\\"");
                    }
                    self.write_str(t);
                } else if c == 0x08 {
                    let t = "\\b";
                    proof {
                        reveal_strlit("\\b");
                    }
                    self.write_str(t);
                } else if c == 0x0C {
                    let t = "\\f";
                    proof {
                        reveal_strlit("\\f");
                    }
                    self.write_str(t);
                } else if c == '\n' as u16 {
                    let t = "\\n";
                    proof {
                        reveal_strlit("\\n");
                    }
                    self.write_str(t);
                } else if c == '\r' as u16 {
                    let t = "\\r";
                    proof {
                        reveal_strlit("\\r");
                    }
                    self.write_str(t);
                } else if c == '\t' as u16 {
                    let t = "\\t";
                    proof {
                        reveal_strlit("\\t");
                    }
                    self.write_str(t);
                } else if c < 0x20 {
                    self.write_js_escape(c);
                } else {
                    self.write_char(c as u8 as char);
                }
            } else {
                self.write_js_escape(c);
            }
            proof {
                assert(s@.take(i + 1).drop_last() =~= s@.take(i as int));
                assert(s@.take(i + 1).last() == c);
                assert(self.written() =~= before + json_unit(c));
            }
            i = i + 1;
        }
        self.write_char('"');
        proof {
            assert(s@.take(n as int) =~= s@);
            assert(self.written() =~= start + json_string(s@));
        }
    }
}

/// A `String` is written to by appending.
impl WriteJson for String {
    open spec fn written(&self) -> Seq<char> {
        self@
    }

    fn write_char(&mut self, c: char) {
        push_char(self, c);
    }

    fn write_str(&mut self, s: &str) {
        self.append(s);
    }
}

} // verus!
