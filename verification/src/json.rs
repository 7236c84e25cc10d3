//! The pieces of JSON that the wire format is made of.
//!
//! Field values are written by `serde_json`; the library lays them out as one
//! compact JSON object per line.
use vstd::prelude::*;
use vstd::utf8::{encode_scalar, encode_utf8, encode_utf8_valid_utf8, valid_utf8, valid_utf8_concat};

verus! {

/// The error type of `serde_json`; opaque to the library.
#[verifier::external_type_specification]
#[verifier::external_body]
pub struct ExJsonError(serde_json::Error);

/// `'\n'`: ends every message on the wire.
pub const NEWLINE: u8 = 10;

/// `'"'`
pub const QUOTE: u8 = 34;

/// `'\\'`
pub const BACKSLASH: u8 = 92;

/// `','`
pub const COMMA: u8 = 44;

/// `':'`
pub const COLON: u8 = 58;

/// `'['`
pub const LBRACKET: u8 = 91;

/// `']'`
pub const RBRACKET: u8 = 93;

/// `'{'`
pub const LBRACE: u8 = 123;

/// `'}'`
pub const RBRACE: u8 = 125;

/// The contents of each of some byte vectors.
pub open spec fn byte_views(vs: Seq<Vec<u8>>) -> Seq<Seq<u8>> {
    vs.map_values(|v: Vec<u8>| v@)
}

/// `bytes` holds no newline byte.
pub open spec fn no_newline(bytes: Seq<u8>) -> bool {
    forall|i: int| 0 <= i < bytes.len() ==> bytes[i] != NEWLINE
}

/// `bytes` is one line: it ends with a newline and holds no other.
pub open spec fn is_one_line(bytes: Seq<u8>) -> bool {
    &&& bytes.len() > 0
    &&& bytes.last() == NEWLINE
    &&& no_newline(bytes.drop_last())
}

/// The parts, with `sep` between each two of them.
pub open spec fn join(parts: Seq<Seq<u8>>, sep: u8) -> Seq<u8>
    decreases parts.len(),
{
    if parts.len() == 0 {
        seq![]
    } else if parts.len() == 1 {
        parts[0]
    } else {
        join(parts.drop_last(), sep).push(sep) + parts.last()
    }
}

/// A compact JSON array of already serialised elements.
pub open spec fn json_array(elements: Seq<Seq<u8>>) -> Seq<u8> {
    seq![LBRACKET] + join(elements, COMMA) + seq![RBRACKET]
}

/// A compact JSON object of already serialised `"key":value` members.
pub open spec fn json_object(members: Seq<Seq<u8>>) -> Seq<u8> {
    seq![LBRACE] + join(members, COMMA) + seq![RBRACE]
}

/// A member `"key":value` of a JSON object.
pub open spec fn json_member(key: Seq<char>, value: Seq<u8>) -> Seq<u8> {
    json_of_str(key) + seq![COLON] + value
}

/// The ASCII digit of `d`, for `0 <= d < 10`.
pub open spec fn ascii_digit(d: u8) -> u8 {
    (48 + d) as u8
}

/// The shortest decimal notation of a byte value, in ASCII digits.
pub open spec fn decimal(b: u8) -> Seq<u8> {
    if b < 10 {
        seq![ascii_digit(b)]
    } else if b < 100 {
        seq![ascii_digit(b / 10), ascii_digit(b % 10)]
    } else {
        seq![ascii_digit(b / 100), ascii_digit((b / 10) % 10), ascii_digit(b % 10)]
    }
}

/// The JSON array of numbers that a byte vector is written as.
pub open spec fn json_of_bytes(data: Seq<u8>) -> Seq<u8> {
    json_array(data.map_values(|b: u8| decimal(b)))
}

/// The JSON array of string literals that a vector of strings is written as.
pub open spec fn json_of_strs(strs: Seq<Seq<char>>) -> Seq<u8> {
    json_array(strs.map_values(|s: Seq<char>| json_of_str(s)))
}

/// A character that a JSON string literal holds as it is: printable ASCII
/// other than `"` and `\`.
pub open spec fn is_plain_char(c: char) -> bool {
    ' ' <= c <= '~' && c != '"' && c != '\\'
}

/// The bytes of a string all of whose characters are ASCII.
pub open spec fn ascii_bytes(s: Seq<char>) -> Seq<u8> {
    s.map_values(|c: char| c as u8)
}

/// The lower-case hexadecimal digit of `d`, for `0 <= d < 16`.
pub open spec fn hex_digit(d: u32) -> u8 {
    if d < 10 {
        (48 + d) as u8
    } else {
        (87 + d) as u8
    }
}

/// How a JSON string literal writes one character: `"` and `\` after a
/// backslash; backspace, tab, newline, form feed and carriage return as `\b`,
/// `\t`, `\n`, `\f`, `\r`; any other character below U+0020 as `\u00` and two
/// lower-case hex digits; every other character as its UTF-8 bytes.
pub open spec fn escape_char(c: char) -> Seq<u8> {
    if c == '"' {
        seq![BACKSLASH, QUOTE]
    } else if c == '\\' {
        seq![BACKSLASH, BACKSLASH]
    } else if c == '\u{8}' {
        seq![BACKSLASH, 98]
    } else if c == '\t' {
        seq![BACKSLASH, 116]
    } else if c == '\n' {
        seq![BACKSLASH, 110]
    } else if c == '\u{c}' {
        seq![BACKSLASH, 102]
    } else if c == '\r' {
        seq![BACKSLASH, 114]
    } else if (c as u32) < 0x20 {
        seq![BACKSLASH, 117, 48, 48, hex_digit((c as u32) / 16), hex_digit((c as u32) % 16)]
    } else {
        encode_utf8(seq![c])
    }
}

/// The characters of a string, each written as `escape_char` writes it.
pub open spec fn escape_str(s: Seq<char>) -> Seq<u8>
    decreases s.len(),
{
    if s.len() == 0 {
        seq![]
    } else {
        escape_char(s[0]) + escape_str(s.drop_first())
    }
}

/// The JSON string literal of a string: its escaped characters between quotes.
pub open spec fn json_of_str(s: Seq<char>) -> Seq<u8> {
    seq![QUOTE] + escape_str(s) + seq![QUOTE]
}

/// Serialises a string as a JSON string literal with `serde_json::to_vec`.
///
/// Trusted. From the crate's source (`format_escaped_str` and its escape
/// table): writing into a `Vec<u8>` cannot fail, so the call returns `Ok`; the
/// bytes are the string's JSON literal as `json_of_str` states it.
#[verifier::external_body]
fn to_vec_str(s: &str) -> (res: Result<Vec<u8>, serde_json::Error>)
    ensures
        res is Ok,
        res matches Ok(v) ==> v@ == json_of_str(s@),
{
    serde_json::to_vec(s)
}

/// Serialises a vector of strings with `serde_json::to_vec`.
///
/// Trusted. From the crate's source: the call returns `Ok`; the result is a
/// compact array, `[`, the elements each written as `to_vec` writes a string,
/// separated by `,`, then `]`.
#[verifier::external_body]
fn to_vec_strings(strs: &Vec<String>) -> (res: Result<Vec<u8>, serde_json::Error>)
    ensures
        res is Ok,
        res matches Ok(v) ==> v@ == json_of_strs(strs.deep_view()),
{
    serde_json::to_vec(strs)
}

/// Serialises a byte vector with `serde_json::to_vec`.
///
/// Trusted. From the crate's source: the call returns `Ok`; a byte vector is a
/// sequence of numbers, written as a compact array of the bytes' shortest
/// decimal notations.
#[verifier::external_body]
fn to_vec_bytes(data: &Vec<u8>) -> (res: Result<Vec<u8>, serde_json::Error>)
    ensures
        res is Ok,
        res matches Ok(v) ==> v@ == json_of_bytes(data@),
{
    serde_json::to_vec(data)
}

/// The JSON string literal of `s`.
pub fn json_string(s: &str) -> (res: Vec<u8>)
    ensures
        res@ == json_of_str(s@),
        no_newline(res@),
        valid_utf8(res@),
        (forall|i: int| 0 <= i < s@.len() ==> is_plain_char(#[trigger] s@[i])) ==> res@ == seq![QUOTE]
            + ascii_bytes(s@) + seq![QUOTE],
{
    match to_vec_str(s) {
        Ok(v) => {
            proof {
                lemma_json_of_str(s@);
            }
            v
        },
        Err(_) => {
            proof {
                assert(false);
            }
            Vec::new()
        },
    }
}

/// The JSON array of the string literals of `strs`.
pub fn json_strings(strs: &Vec<String>) -> (res: Vec<u8>)
    ensures
        res@ == json_of_strs(strs.deep_view()),
        no_newline(res@),
        valid_utf8(res@),
{
    match to_vec_strings(strs) {
        Ok(v) => {
            proof {
                lemma_json_of_strs(strs.deep_view());
            }
            v
        },
        Err(_) => {
            proof {
                assert(false);
            }
            Vec::new()
        },
    }
}

/// The JSON array of numbers of `data`.
pub fn json_bytes(data: &Vec<u8>) -> (res: Vec<u8>)
    ensures
        res@ == json_of_bytes(data@),
        no_newline(res@),
        valid_utf8(res@),
{
    match to_vec_bytes(data) {
        Ok(v) => {
            proof {
                lemma_json_of_bytes_no_newline(data@);
                lemma_json_of_bytes_valid_utf8(data@);
            }
            v
        },
        Err(_) => {
            proof {
                assert(false);
            }
            Vec::new()
        },
    }
}

/// Joining parts that hold no newline, with a separator that is none, gives
/// bytes that hold no newline.
pub proof fn lemma_join_no_newline(parts: Seq<Seq<u8>>, sep: u8)
    requires
        sep != NEWLINE,
        forall|i: int| 0 <= i < parts.len() ==> no_newline(#[trigger] parts[i]),
    ensures
        no_newline(join(parts, sep)),
    decreases parts.len(),
{
    if parts.len() > 1 {
        let init = parts.drop_last();
        assert forall|i: int| 0 <= i < init.len() implies no_newline(#[trigger] init[i]) by {
            assert(init[i] == parts[i]);
        }
        lemma_join_no_newline(init, sep);
        assert(no_newline(parts[parts.len() - 1]));
        let j = join(parts, sep);
        let left = join(init, sep).push(sep);
        assert forall|i: int| 0 <= i < j.len() implies j[i] != NEWLINE by {
            if i < left.len() {
                assert(j[i] == left[i]);
            } else {
                assert(j[i] == parts.last()[i - left.len()]);
            }
        }
    } else if parts.len() == 1 {
        assert(no_newline(parts[0]));
    }
}

/// An array or object of members that hold no newline holds none.
pub proof fn lemma_json_array_no_newline(elements: Seq<Seq<u8>>)
    requires
        forall|i: int| 0 <= i < elements.len() ==> no_newline(#[trigger] elements[i]),
    ensures
        no_newline(json_array(elements)),
        no_newline(json_object(elements)),
{
    lemma_join_no_newline(elements, COMMA);
    let j = join(elements, COMMA);
    assert forall|i: int| 0 <= i < json_array(elements).len() implies json_array(elements)[i]
        != NEWLINE by {
        if 0 < i < j.len() + 1 {
            assert(json_array(elements)[i] == j[i - 1]);
        }
    }
    assert forall|i: int| 0 <= i < json_object(elements).len() implies json_object(elements)[i]
        != NEWLINE by {
        if 0 < i < j.len() + 1 {
            assert(json_object(elements)[i] == j[i - 1]);
        }
    }
}

/// The decimal notation of a byte holds digits only.
proof fn lemma_decimal_no_newline(b: u8)
    ensures
        no_newline(decimal(b)),
{
    assert(0 <= b / 100 < 10 && 0 <= (b / 10) % 10 < 10 && 0 <= b % 10 < 10 && (b < 100 ==> b / 10
        < 10));
}

/// The JSON of a byte vector holds no newline.
pub proof fn lemma_json_of_bytes_no_newline(data: Seq<u8>)
    ensures
        no_newline(json_of_bytes(data)),
{
    let elements = data.map_values(|b: u8| decimal(b));
    assert forall|i: int| 0 <= i < elements.len() implies no_newline(#[trigger] elements[i]) by {
        lemma_decimal_no_newline(data[i]);
    }
    lemma_json_array_no_newline(elements);
}

/// The bytes of one escaped character hold no newline, are valid UTF-8, and
/// are the character itself when it is plain.
pub proof fn lemma_escape_char(c: char)
    ensures
        no_newline(escape_char(c)),
        valid_utf8(escape_char(c)),
        is_plain_char(c) ==> escape_char(c) == seq![c as u8],
{
    let v = c as u32;
    let e = escape_char(c);
    if (c as u32) < 0x20 || c == '"' || c == '\\' {
        assert(0 <= v / 16 < 16 && 0 <= v % 16 < 16);
        assert forall|i: int| 0 <= i < e.len() implies e[i] < 128 && e[i] != NEWLINE by {}
        lemma_ascii_valid_utf8(e);
    } else {
        encode_utf8_valid_utf8(seq![c]);
        assert(seq![c].drop_first() =~= Seq::<char>::empty());
        assert(encode_utf8(Seq::<char>::empty()) =~= Seq::<u8>::empty());
        assert(seq![c][0] == c);
        assert(encode_utf8(seq![c]) == encode_scalar(v) + encode_utf8(seq![c].drop_first()));
        assert(e =~= encode_scalar(v));
        assert(forall|y: u8| #![trigger (0xC0u8 | y)] (0xC0u8 | y) >= 0xC0u8) by (bit_vector);
        assert(forall|y: u8| #![trigger (0xE0u8 | y)] (0xE0u8 | y) >= 0xE0u8) by (bit_vector);
        assert(forall|y: u8| #![trigger (0xF0u8 | y)] (0xF0u8 | y) >= 0xF0u8) by (bit_vector);
        assert(forall|y: u8| #![trigger (0x80u8 | y)] (0x80u8 | y) >= 0x80u8) by (bit_vector);
        assert(v <= 0x7F ==> (v & 0x7F) == v) by (bit_vector);
        if v <= 0x7F {
            assert(e =~= seq![(v & 0x7F) as u8]);
            assert(e[0] == c as u8);
        }
    }
}

/// An escaped string holds no newline, is valid UTF-8, and is the string's
/// bytes when all its characters are plain.
pub proof fn lemma_escape_str(s: Seq<char>)
    ensures
        no_newline(escape_str(s)),
        valid_utf8(escape_str(s)),
        (forall|i: int| 0 <= i < s.len() ==> is_plain_char(#[trigger] s[i])) ==> escape_str(s)
            == ascii_bytes(s),
    decreases s.len(),
{
    if s.len() == 0 {
        lemma_ascii_valid_utf8(Seq::<u8>::empty());
        assert(ascii_bytes(s) =~= Seq::<u8>::empty());
    } else {
        let rest = s.drop_first();
        lemma_escape_str(rest);
        lemma_escape_char(s[0]);
        let a = escape_char(s[0]);
        let b = escape_str(rest);
        valid_utf8_concat(a, b);
        assert forall|i: int| 0 <= i < escape_str(s).len() implies escape_str(s)[i] != NEWLINE by {
            if i < a.len() {
                assert(escape_str(s)[i] == a[i]);
            } else {
                assert(escape_str(s)[i] == b[i - a.len()]);
            }
        }
        if forall|i: int| 0 <= i < s.len() ==> is_plain_char(#[trigger] s[i]) {
            assert(is_plain_char(s[0]));
            assert forall|i: int| 0 <= i < rest.len() implies is_plain_char(#[trigger] rest[i]) by {
                assert(rest[i] == s[i + 1]);
            }
            assert(escape_str(s) =~= ascii_bytes(s));
        }
    }
}

/// A JSON string literal holds no newline, is valid UTF-8, and is a plain
/// string between quotes when all its characters are plain.
pub proof fn lemma_json_of_str(s: Seq<char>)
    ensures
        no_newline(json_of_str(s)),
        valid_utf8(json_of_str(s)),
        (forall|i: int| 0 <= i < s.len() ==> is_plain_char(#[trigger] s[i])) ==> json_of_str(s)
            == seq![QUOTE] + ascii_bytes(s) + seq![QUOTE],
{
    lemma_escape_str(s);
    let e = escape_str(s);
    lemma_ascii_valid_utf8(seq![QUOTE]);
    valid_utf8_concat(seq![QUOTE], e);
    valid_utf8_concat(seq![QUOTE] + e, seq![QUOTE]);
    let j = json_of_str(s);
    assert forall|i: int| 0 <= i < j.len() implies j[i] != NEWLINE by {
        if 0 < i < e.len() + 1 {
            assert(j[i] == e[i - 1]);
        }
    }
}

/// The JSON array of string literals holds no newline and is valid UTF-8.
pub proof fn lemma_json_of_strs(strs: Seq<Seq<char>>)
    ensures
        no_newline(json_of_strs(strs)),
        valid_utf8(json_of_strs(strs)),
{
    let elements = strs.map_values(|s: Seq<char>| json_of_str(s));
    assert forall|i: int| 0 <= i < elements.len() implies no_newline(#[trigger] elements[i])
        && valid_utf8(elements[i]) by {
        lemma_json_of_str(strs[i]);
    }
    lemma_json_array_no_newline(elements);
    lemma_json_array_valid_utf8(elements);
}

/// Bytes that are all ASCII are valid UTF-8.
pub proof fn lemma_ascii_valid_utf8(s: Seq<u8>)
    requires
        forall|i: int| 0 <= i < s.len() ==> s[i] < 128,
    ensures
        valid_utf8(s),
    decreases s.len(),
{
    if s.len() > 0 {
        let rest = s.drop_first();
        lemma_ascii_valid_utf8(rest);
        let first = seq![s[0]];
        assert(first.drop_first() =~= Seq::<u8>::empty());
        assert(valid_utf8(Seq::<u8>::empty()));
        assert(valid_utf8(first));
        valid_utf8_concat(first, rest);
        assert(first + rest =~= s);
    }
}

/// Joining valid UTF-8 parts with an ASCII separator gives valid UTF-8.
pub proof fn lemma_join_valid_utf8(parts: Seq<Seq<u8>>, sep: u8)
    requires
        sep < 128,
        forall|i: int| 0 <= i < parts.len() ==> valid_utf8(#[trigger] parts[i]),
    ensures
        valid_utf8(join(parts, sep)),
    decreases parts.len(),
{
    if parts.len() == 0 {
        lemma_ascii_valid_utf8(Seq::<u8>::empty());
    } else if parts.len() == 1 {
        assert(valid_utf8(parts[0]));
    } else {
        let init = parts.drop_last();
        assert forall|i: int| 0 <= i < init.len() implies valid_utf8(#[trigger] init[i]) by {
            assert(init[i] == parts[i]);
        }
        lemma_join_valid_utf8(init, sep);
        lemma_ascii_valid_utf8(seq![sep]);
        valid_utf8_concat(join(init, sep), seq![sep]);
        assert(join(init, sep) + seq![sep] =~= join(init, sep).push(sep));
        assert(valid_utf8(parts[parts.len() - 1]));
        valid_utf8_concat(join(init, sep).push(sep), parts.last());
    }
}

/// An array or object of valid UTF-8 members is valid UTF-8.
pub proof fn lemma_json_array_valid_utf8(elements: Seq<Seq<u8>>)
    requires
        forall|i: int| 0 <= i < elements.len() ==> valid_utf8(#[trigger] elements[i]),
    ensures
        valid_utf8(json_array(elements)),
        valid_utf8(json_object(elements)),
{
    let j = join(elements, COMMA);
    lemma_join_valid_utf8(elements, COMMA);
    lemma_ascii_valid_utf8(seq![LBRACKET]);
    lemma_ascii_valid_utf8(seq![RBRACKET]);
    lemma_ascii_valid_utf8(seq![LBRACE]);
    lemma_ascii_valid_utf8(seq![RBRACE]);
    valid_utf8_concat(seq![LBRACKET], j);
    valid_utf8_concat(seq![LBRACKET] + j, seq![RBRACKET]);
    valid_utf8_concat(seq![LBRACE], j);
    valid_utf8_concat(seq![LBRACE] + j, seq![RBRACE]);
}

/// The JSON of a byte vector is valid UTF-8.
pub proof fn lemma_json_of_bytes_valid_utf8(data: Seq<u8>)
    ensures
        valid_utf8(json_of_bytes(data)),
{
    let elements = data.map_values(|b: u8| decimal(b));
    assert forall|i: int| 0 <= i < elements.len() implies valid_utf8(#[trigger] elements[i]) by {
        let b = data[i];
        assert(0 <= b / 100 < 10 && 0 <= (b / 10) % 10 < 10 && 0 <= b % 10 < 10 && (b < 100 ==> b
            / 10 < 10));
        lemma_ascii_valid_utf8(decimal(b));
    }
    lemma_json_array_valid_utf8(elements);
}

/// Appends `bytes` to `out`.
pub fn write_bytes(out: &mut Vec<u8>, bytes: &Vec<u8>)
    ensures
        final(out)@ == old(out)@ + bytes@,
{
    let ghost start = out@;
    let n = bytes.len();
    for k in 0..n
        invariant
            n == bytes@.len(),
            out@ == start + bytes@.take(k as int),
    {
        out.push(bytes[k]);
        proof {
            assert(bytes@.take(k + 1) =~= bytes@.take(k as int).push(bytes@[k as int]));
        }
    }
    assert(bytes@.take(n as int) =~= bytes@);
}

/// Appends the parts to `out`, with `sep` between each two of them.
pub fn write_joined(out: &mut Vec<u8>, parts: &Vec<Vec<u8>>, sep: u8)
    ensures
        final(out)@ == old(out)@ + join(byte_views(parts@), sep),
{
    let ghost all = byte_views(parts@);
    let ghost start = out@;
    let n = parts.len();
    for i in 0..n
        invariant
            n == all.len(),
            all == byte_views(parts@),
            out@ == start + join(all.take(i as int), sep),
    {
        proof {
            assert(all.take(i + 1).drop_last() =~= all.take(i as int));
            assert(all.take(i + 1).last() == parts@[i as int]@);
        }
        if i > 0 {
            out.push(sep);
        }
        write_bytes(out, &parts[i]);
        proof {
            if i == 0 {
                assert(join(all.take(0), sep) =~= seq![]);
                assert(out@ =~= start + join(all.take(1), sep));
            } else {
                assert(out@ =~= start + join(all.take(i + 1), sep));
            }
        }
    }
    assert(all.take(n as int) =~= all);
}

} // verus!
