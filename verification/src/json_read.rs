//! Reading back what the library writes: JSON string literals, arrays of
//! strings and arrays of byte values. The lemmas here show that each value
//! written reads back as itself, so no value is lost or changed on the wire.
use vstd::prelude::*;
use vstd::utf8::{decode_utf8, encode_scalar, encode_utf8, encode_utf8_decode_utf8};

use crate::json::{
    ascii_digit, decimal, escape_char, escape_str, hex_digit, join, json_array, json_of_bytes,
    json_of_str, json_of_strs, BACKSLASH, COMMA, LBRACKET, QUOTE, RBRACKET,
};

verus! {

/// The value of a hexadecimal digit, lower case.
pub open spec fn hex_value(b: u8) -> int {
    if 48 <= b <= 57 {
        b - 48
    } else {
        b - 87
    }
}

/// The byte that a two-byte escape `\e` stands for.
pub open spec fn unescaped(e: u8) -> u8 {
    if e == 98 {
        8
    } else if e == 116 {
        9
    } else if e == 110 {
        10
    } else if e == 102 {
        12
    } else if e == 114 {
        13
    } else {
        e
    }
}

/// Reads the rest of a JSON string literal, after its opening quote: the
/// bytes it stands for, and how many bytes were read, closing quote included.
/// A `\u00XX` escape stands for the byte `XX`; `\e` for `unescaped(e)`; any
/// other byte for itself.
pub open spec fn read_str_rest(b: Seq<u8>) -> Option<(Seq<u8>, int)>
    decreases b.len(),
{
    if b.len() == 0 {
        None
    } else if b[0] == QUOTE {
        Some((seq![], 1))
    } else if b[0] == BACKSLASH {
        if b.len() >= 6 && b[1] == 117 && b[2] == 48 && b[3] == 48 {
            match read_str_rest(b.skip(6)) {
                Some((r, n)) => Some(
                    (seq![(16 * hex_value(b[4]) + hex_value(b[5])) as u8] + r, n + 6),
                ),
                None => None,
            }
        } else if b.len() >= 2 && b[1] != 117 {
            match read_str_rest(b.skip(2)) {
                Some((r, n)) => Some((seq![unescaped(b[1])] + r, n + 2)),
                None => None,
            }
        } else {
            None
        }
    } else {
        match read_str_rest(b.skip(1)) {
            Some((r, n)) => Some((seq![b[0]] + r, n + 1)),
            None => None,
        }
    }
}

/// Reads a JSON string literal at the start of `b`: the bytes it stands for,
/// and its length.
pub open spec fn read_str(b: Seq<u8>) -> Option<(Seq<u8>, int)> {
    if b.len() > 0 && b[0] == QUOTE {
        match read_str_rest(b.skip(1)) {
            Some((r, n)) => Some((r, n + 1)),
            None => None,
        }
    } else {
        None
    }
}

/// Copying a run of bytes that holds neither a quote nor a backslash.
proof fn lemma_read_plain_run(r: Seq<u8>, x: Seq<u8>)
    requires
        forall|i: int| 0 <= i < r.len() ==> r[i] != QUOTE && r[i] != BACKSLASH,
    ensures
        read_str_rest(r + x) == match read_str_rest(x) {
            Some((v, n)) => Some((r + v, n + r.len())),
            None => None,
        },
    decreases r.len(),
{
    if r.len() > 0 {
        let rest = r.drop_first();
        lemma_read_plain_run(rest, x);
        assert((r + x)[0] == r[0]);
        assert((r + x).skip(1) =~= rest + x);
        match read_str_rest(x) {
            Some((v, n)) => {
                assert(seq![r[0]] + (rest + v) =~= r + v);
            },
            None => {},
        }
    } else {
        assert(r + x =~= x);
        match read_str_rest(x) {
            Some((v, n)) => {
                assert(r + v =~= v);
            },
            None => {},
        }
    }
}

/// An escaped character reads back as its UTF-8 bytes.
proof fn lemma_read_escape_char(c: char, x: Seq<u8>)
    requires
        read_str_rest(x) is Some,
    ensures
        read_str_rest(escape_char(c) + x) == Some(
            (
                encode_utf8(seq![c]) + read_str_rest(x)->Some_0.0,
                escape_char(c).len() + read_str_rest(x)->Some_0.1,
            ),
        ),
{
    let v = c as u32;
    let e = escape_char(c);
    let b = e + x;
    let (r, n) = read_str_rest(x)->Some_0;
    assert(seq![c].drop_first() =~= Seq::<char>::empty());
    assert(encode_utf8(Seq::<char>::empty()) =~= Seq::<u8>::empty());
    assert(seq![c][0] == c);
    assert(encode_utf8(seq![c]) =~= encode_scalar(v));
    assert(v <= 0x7F ==> (v & 0x7F) == v) by (bit_vector);
    if v < 0x20 || c == '"' || c == '\\' {
        assert(encode_scalar(v) =~= seq![(v & 0x7F) as u8]);
        if c == '"' || c == '\\' || c == '\u{8}' || c == '\t' || c == '\n' || c == '\u{c}' || c
            == '\r' {
            assert(b.skip(2) =~= x);
            assert(b[0] == BACKSLASH);
        } else {
            assert(b.skip(6) =~= x);
            assert(b[0] == BACKSLASH);
            assert(16 * hex_value(hex_digit(v / 16)) + hex_value(hex_digit(v % 16)) == v);
        }
    } else {
        assert(forall|y: u8| #![trigger (0xC0u8 | y)] (0xC0u8 | y) >= 0xC0u8) by (bit_vector);
        assert(forall|y: u8| #![trigger (0xE0u8 | y)] (0xE0u8 | y) >= 0xE0u8) by (bit_vector);
        assert(forall|y: u8| #![trigger (0xF0u8 | y)] (0xF0u8 | y) >= 0xF0u8) by (bit_vector);
        assert(forall|y: u8| #![trigger (0x80u8 | y)] (0x80u8 | y) >= 0x80u8) by (bit_vector);
        assert(e == encode_scalar(v));
        if v <= 0x7F {
            assert(e =~= seq![(v & 0x7F) as u8]);
        }
        lemma_read_plain_run(e, x);
    }
}

/// The escaped characters of a string, then a quote, read back as the
/// string's UTF-8 bytes.
proof fn lemma_read_escape_str(s: Seq<char>, x: Seq<u8>)
    ensures
        read_str_rest(escape_str(s) + seq![QUOTE] + x) == Some(
            (encode_utf8(s), escape_str(s).len() + 1int),
        ),
    decreases s.len(),
{
    if s.len() == 0 {
        assert(escape_str(s) + seq![QUOTE] + x =~= seq![QUOTE] + x);
        assert(encode_utf8(s) =~= Seq::<u8>::empty());
    } else {
        let rest = s.drop_first();
        lemma_read_escape_str(rest, x);
        let tail = escape_str(rest) + seq![QUOTE] + x;
        lemma_read_escape_char(s[0], tail);
        assert(escape_str(s) + seq![QUOTE] + x =~= escape_char(s[0]) + tail);
        assert(seq![s[0]].drop_first() =~= Seq::<char>::empty());
        assert(encode_utf8(Seq::<char>::empty()) =~= Seq::<u8>::empty());
        assert(seq![s[0]][0] == s[0]);
        assert(encode_utf8(seq![s[0]]) + encode_utf8(rest) =~= encode_utf8(s));
    }
}

/// A JSON string literal reads back as the string's UTF-8 bytes, whatever
/// follows it.
pub proof fn lemma_read_json_of_str(s: Seq<char>, x: Seq<u8>)
    ensures
        read_str(json_of_str(s) + x) == Some((encode_utf8(s), json_of_str(s).len() as int)),
{
    lemma_read_escape_str(s, x);
    let b = json_of_str(s) + x;
    assert(b[0] == QUOTE);
    assert(b.skip(1) =~= escape_str(s) + seq![QUOTE] + x);
}

/// Law: a JSON string literal that the library writes reads back as the very
/// string it was written for.
pub proof fn law_string_reads_back(s: Seq<char>)
    ensures
        read_str(json_of_str(s)) matches Some((bytes, n)) && n == json_of_str(s).len()
            && decode_utf8(bytes) == s,
{
    lemma_read_json_of_str(s, seq![]);
    assert(json_of_str(s) + Seq::<u8>::empty() =~= json_of_str(s));
    encode_utf8_decode_utf8(s);
}

/// Reads the items of a JSON array of string literals, after its `[`: each
/// literal, followed by `,` and more items or by the closing `]`, which ends
/// the input.
pub open spec fn read_str_items(b: Seq<u8>) -> Option<Seq<Seq<u8>>>
    decreases b.len(),
{
    match read_str(b) {
        Some((v, n)) => if 0 < n < b.len() && b[n] == RBRACKET && n + 1 == b.len() {
            Some(seq![v])
        } else if 0 < n < b.len() && b[n] == COMMA {
            match read_str_items(b.skip(n + 1)) {
                Some(vs) => Some(seq![v] + vs),
                None => None,
            }
        } else {
            None
        },
        None => None,
    }
}

/// Reads a whole JSON array of strings: the strings it holds, in order.
pub open spec fn read_strings(b: Seq<u8>) -> Option<Seq<Seq<char>>> {
    if b.len() >= 2 && b[0] == LBRACKET {
        if b.skip(1) == seq![RBRACKET] {
            Some(seq![])
        } else {
            match read_str_items(b.skip(1)) {
                Some(items) => Some(items.map_values(|v: Seq<u8>| decode_utf8(v))),
                None => None,
            }
        }
    } else {
        None
    }
}

/// Joining two parts or more: the first, the separator, then the rest joined.
pub proof fn lemma_join_front(parts: Seq<Seq<u8>>, sep: u8)
    requires
        parts.len() >= 2,
    ensures
        join(parts, sep) == parts[0] + seq![sep] + join(parts.drop_first(), sep),
    decreases parts.len(),
{
    let init = parts.drop_last();
    let tail = parts.drop_first();
    if parts.len() == 2 {
        assert(init =~= seq![parts[0]]);
        assert(tail =~= seq![parts[1]]);
        assert(join(parts, sep) =~= parts[0] + seq![sep] + join(tail, sep));
    } else {
        lemma_join_front(init, sep);
        assert(tail.drop_last() =~= init.drop_first());
        assert(init[0] == parts[0]);
        assert(tail.last() == parts.last());
        assert(join(parts, sep) == join(init, sep).push(sep) + parts.last());
        assert(join(tail, sep) == join(tail.drop_last(), sep).push(sep) + tail.last());
        assert(join(parts, sep) =~= parts[0] + seq![sep] + join(tail, sep));
    }
}

proof fn lemma_json_of_str_len(s: Seq<char>)
    ensures
        json_of_str(s).len() >= 2,
{
}

/// The items of a non-empty array of string literals read back as the
/// strings' UTF-8 bytes.
proof fn lemma_read_str_items(ts: Seq<Seq<char>>)
    requires
        ts.len() >= 1,
    ensures
        read_str_items(join(ts.map_values(|t: Seq<char>| json_of_str(t)), COMMA) + seq![RBRACKET])
            == Some(ts.map_values(|t: Seq<char>| encode_utf8(t))),
    decreases ts.len(),
{
    let elems = ts.map_values(|t: Seq<char>| json_of_str(t));
    let b = join(elems, COMMA) + seq![RBRACKET];
    let first = json_of_str(ts[0]);
    lemma_json_of_str_len(ts[0]);
    if ts.len() == 1 {
        assert(b =~= first + seq![RBRACKET]);
        lemma_read_json_of_str(ts[0], seq![RBRACKET]);
        assert(b[first.len() as int] == RBRACKET);
        assert(ts.map_values(|t: Seq<char>| encode_utf8(t)) =~= seq![encode_utf8(ts[0])]);
    } else {
        let rest = ts.drop_first();
        lemma_join_front(elems, COMMA);
        assert(elems.drop_first() =~= rest.map_values(|t: Seq<char>| json_of_str(t)));
        let tail = join(rest.map_values(|t: Seq<char>| json_of_str(t)), COMMA) + seq![RBRACKET];
        assert(b =~= first + (seq![COMMA] + tail));
        lemma_read_json_of_str(ts[0], seq![COMMA] + tail);
        assert(b[first.len() as int] == COMMA);
        assert(b.skip(first.len() + 1int) =~= tail);
        lemma_read_str_items(rest);
        assert(seq![encode_utf8(ts[0])] + rest.map_values(|t: Seq<char>| encode_utf8(t))
            =~= ts.map_values(|t: Seq<char>| encode_utf8(t)));
    }
}

/// Law: the JSON array that the library writes for a list of strings reads
/// back as that very list, every string in order.
pub proof fn law_strings_read_back(ts: Seq<Seq<char>>)
    ensures
        read_strings(json_of_strs(ts)) == Some(ts),
{
    let elems = ts.map_values(|t: Seq<char>| json_of_str(t));
    let b = json_of_strs(ts);
    assert(b.skip(1) =~= join(elems, COMMA) + seq![RBRACKET]);
    if ts.len() == 0 {
        assert(join(elems, COMMA) =~= Seq::<u8>::empty());
        assert(b.skip(1) =~= seq![RBRACKET]);
    } else {
        lemma_read_str_items(ts);
        lemma_json_of_str_len(ts[0]);
        if ts.len() >= 2 {
            lemma_join_front(elems, COMMA);
        }
        assert(join(elems, COMMA).len() >= 2);
        assert(b.skip(1) != seq![RBRACKET]);
        let items = ts.map_values(|t: Seq<char>| encode_utf8(t));
        assert forall|i: int| 0 <= i < ts.len() implies items.map_values(
            |v: Seq<u8>| decode_utf8(v),
        )[i] == ts[i] by {
            encode_utf8_decode_utf8(ts[i]);
        }
        assert(items.map_values(|v: Seq<u8>| decode_utf8(v)) =~= ts);
    }
}

/// An ASCII decimal digit.
pub open spec fn is_digit(b: u8) -> bool {
    48 <= b <= 57
}

/// How many decimal digits `b` starts with.
pub open spec fn count_digits(b: Seq<u8>) -> int
    decreases b.len(),
{
    if b.len() > 0 && is_digit(b[0]) {
        1 + count_digits(b.drop_first())
    } else {
        0
    }
}

/// The number that a run of decimal digits writes.
pub open spec fn digits_value(d: Seq<u8>) -> int
    decreases d.len(),
{
    if d.len() == 0 {
        0
    } else {
        10 * digits_value(d.drop_last()) + (d.last() - 48)
    }
}

/// Reads the items of a JSON array of byte values, after its `[`: each
/// number, followed by `,` and more items or by the closing `]`, which ends
/// the input.
pub open spec fn read_byte_items(b: Seq<u8>) -> Option<Seq<u8>>
    decreases b.len(),
{
    let k = count_digits(b);
    if 0 < k < b.len() && digits_value(b.take(k)) < 256 {
        let v = digits_value(b.take(k)) as u8;
        if b[k] == RBRACKET && k + 1 == b.len() {
            Some(seq![v])
        } else if b[k] == COMMA {
            match read_byte_items(b.skip(k + 1)) {
                Some(vs) => Some(seq![v] + vs),
                None => None,
            }
        } else {
            None
        }
    } else {
        None
    }
}

/// Reads a whole JSON array of byte values: the bytes it holds, in order.
pub open spec fn read_bytes(b: Seq<u8>) -> Option<Seq<u8>> {
    if b.len() >= 2 && b[0] == LBRACKET {
        if b.skip(1) == seq![RBRACKET] {
            Some(seq![])
        } else {
            read_byte_items(b.skip(1))
        }
    } else {
        None
    }
}

proof fn lemma_count_digits(d: Seq<u8>, y: Seq<u8>)
    requires
        forall|i: int| 0 <= i < d.len() ==> is_digit(#[trigger] d[i]),
        y.len() > 0 && !is_digit(y[0]),
    ensures
        count_digits(d + y) == d.len(),
    decreases d.len(),
{
    if d.len() > 0 {
        lemma_count_digits(d.drop_first(), y);
        assert((d + y).drop_first() =~= d.drop_first() + y);
        assert((d + y)[0] == d[0]);
    } else {
        assert(d + y =~= y);
    }
}

/// The decimal notation of a byte is one to three digits that read back as
/// the byte.
proof fn lemma_decimal_reads_back(x: u8)
    ensures
        1 <= decimal(x).len() <= 3,
        forall|i: int| 0 <= i < decimal(x).len() ==> is_digit(#[trigger] decimal(x)[i]),
        digits_value(decimal(x)) == x,
{
    let d = decimal(x);
    let a = x / 100;
    let b = (x / 10) % 10;
    let c = x % 10;
    assert(x == 100 * a + 10 * b + c) by (nonlinear_arith)
        requires
            a == x / 100,
            b == (x / 10) % 10,
            c == x % 10,
            x < 256,
    ;
    assert(x < 100 ==> x == 10 * (x / 10) + x % 10);
    assert(0 <= a <= 2 && 0 <= b < 10 && 0 <= c < 10);
    assert(d.drop_last().len() < 3);
    let e = Seq::<u8>::empty();
    assert(digits_value(e) == 0);
    if x < 10 {
        assert(d.drop_last() =~= e);
        assert(d.last() == ascii_digit(x));
        assert(digits_value(d) == 10 * digits_value(e) + (d.last() - 48));
    } else if x < 100 {
        let d1 = seq![ascii_digit(x / 10)];
        assert(d1.drop_last() =~= e);
        assert(digits_value(d1) == 10 * digits_value(e) + (d1.last() - 48));
        assert(digits_value(d1) == x / 10);
        assert(d.drop_last() =~= d1);
        assert(digits_value(d) == 10 * digits_value(d1) + (d.last() - 48));
    } else {
        let d1 = seq![ascii_digit(a)];
        let d2 = seq![ascii_digit(a), ascii_digit(b)];
        assert(d1.drop_last() =~= e);
        assert(digits_value(d1) == 10 * digits_value(e) + (d1.last() - 48));
        assert(digits_value(d1) == a);
        assert(d2.drop_last() =~= d1);
        assert(digits_value(d2) == 10 * digits_value(d1) + (d2.last() - 48));
        assert(digits_value(d2) == 10 * a + b);
        assert(d.drop_last() =~= d2);
        assert(digits_value(d) == 10 * digits_value(d2) + (d.last() - 48));
    }
}

/// The items of a non-empty byte array read back as the bytes.
proof fn lemma_read_byte_items(data: Seq<u8>)
    requires
        data.len() >= 1,
    ensures
        read_byte_items(join(data.map_values(|x: u8| decimal(x)), COMMA) + seq![RBRACKET]) == Some(
            data,
        ),
    decreases data.len(),
{
    let elems = data.map_values(|x: u8| decimal(x));
    let b = join(elems, COMMA) + seq![RBRACKET];
    let first = decimal(data[0]);
    lemma_decimal_reads_back(data[0]);
    if data.len() == 1 {
        assert(b =~= first + seq![RBRACKET]);
        lemma_count_digits(first, seq![RBRACKET]);
        assert(b.take(first.len() as int) =~= first);
        assert(b[first.len() as int] == RBRACKET);
        assert(data =~= seq![data[0]]);
    } else {
        let rest = data.drop_first();
        lemma_join_front(elems, COMMA);
        assert(elems.drop_first() =~= rest.map_values(|x: u8| decimal(x)));
        let tail = join(rest.map_values(|x: u8| decimal(x)), COMMA) + seq![RBRACKET];
        assert(b =~= first + (seq![COMMA] + tail));
        lemma_count_digits(first, seq![COMMA] + tail);
        assert(b.take(first.len() as int) =~= first);
        assert(b[first.len() as int] == COMMA);
        assert(b.skip(first.len() + 1int) =~= tail);
        lemma_read_byte_items(rest);
        assert(seq![data[0]] + rest =~= data);
    }
}

/// Law: the JSON array that the library writes for a byte vector reads back
/// as that very vector, every byte in order.
pub proof fn law_bytes_read_back(data: Seq<u8>)
    ensures
        read_bytes(json_of_bytes(data)) == Some(data),
{
    let elems = data.map_values(|x: u8| decimal(x));
    let b = json_of_bytes(data);
    assert(b.skip(1) =~= join(elems, COMMA) + seq![RBRACKET]);
    if data.len() == 0 {
        assert(join(elems, COMMA) =~= Seq::<u8>::empty());
        assert(b.skip(1) =~= seq![RBRACKET]);
        assert(data =~= Seq::<u8>::empty());
    } else {
        lemma_read_byte_items(data);
        lemma_decimal_reads_back(data[0]);
        if data.len() >= 2 {
            lemma_join_front(elems, COMMA);
            assert(join(elems, COMMA).len() >= 2);
            assert(b.skip(1) != seq![RBRACKET]);
        } else {
            assert(join(elems, COMMA) == elems[0]);
            assert(b.skip(1).len() >= 2);
            assert(b.skip(1) != seq![RBRACKET]);
        }
    }
}

} // verus!
