//! Records of the log: one JSON object `{"key":..,"value":..}` per line.
use vstd::prelude::*;
use vstd::utf8::{decode_utf8, encode_utf8, valid_utf8};
use crate::json::{entry, entries_view, json_object_of, json_object_text, parse_json_object, write_json_object};

verus! {

/// The byte that ends each line of the log.
pub const NEWLINE: u8 = 0x0a;

/// One key-value pair as a record holds it.
pub struct KVPair {
    pub key: String,
    pub value: String,
}

impl View for KVPair {
    type V = (Seq<char>, Seq<char>);

    open spec fn view(&self) -> (Seq<char>, Seq<char>) {
        (self.key@, self.value@)
    }
}

/// A character with Unicode's White_Space property, which `char::is_whitespace`
/// tests and `str::trim_end` strips.
pub open spec fn is_white_space(c: char) -> bool {
    let u = c as u32;
    (0x09 <= u <= 0x0d) || u == 0x20 || u == 0x85 || u == 0xa0 || u == 0x1680 || (0x2000 <= u
        <= 0x200a) || u == 0x2028 || u == 0x2029 || u == 0x202f || u == 0x205f || u == 0x3000
}

/// `s` without its trailing white space.
pub open spec fn trim_end_spec(s: Seq<char>) -> Seq<char>
    decreases s.len(),
{
    if s.len() > 0 && is_white_space(s.last()) {
        trim_end_spec(s.drop_last())
    } else {
        s
    }
}

/// The text of a line, without trailing white space; nothing where the
/// line is not UTF-8.
pub open spec fn line_text(line: Seq<u8>) -> Option<Seq<char>> {
    if valid_utf8(line) {
        Some(trim_end_spec(decode_utf8(line)))
    } else {
        None
    }
}

/// A line that holds no record, only white space (or nothing).
pub open spec fn is_blank(line: Seq<u8>) -> bool {
    line_text(line) matches Some(t) && t.len() == 0
}

/// The key and value of the record written as `text`, if it is one: a JSON
/// object whose entries `key` and `value` are strings.
pub open spec fn decode_spec(text: Seq<char>) -> Option<(Seq<char>, Seq<char>)> {
    match json_object_of(text) {
        Some(es) => match (entry(es, "key"@), entry(es, "value"@)) {
            (Some(Some(k)), Some(Some(v))) => Some((k, v)),
            _ => None,
        },
        None => None,
    }
}

/// The key and value of the record that the bytes of `line` hold, if any;
/// a blank line holds none.
pub open spec fn decode_line(line: Seq<u8>) -> Option<(Seq<char>, Seq<char>)> {
    match line_text(line) {
        Some(t) => if t.len() == 0 {
            None
        } else {
            decode_spec(t)
        },
        None => None,
    }
}

/// The text of the record for `key` and `value`, without its newline.
pub open spec fn record_text(key: Seq<char>, value: Seq<char>) -> Seq<char> {
    json_object_text("key"@, key, "value"@, value)
}

/// The bytes of the record for `key` and `value`, without its newline.
pub open spec fn record_bytes(key: Seq<char>, value: Seq<char>) -> Seq<u8> {
    encode_utf8(record_text(key, value))
}

/// The position of the newline that ends the line through `pos`, or the
/// length of the log where the last line has none.
pub open spec fn line_end(log: Seq<u8>, pos: int) -> int
    decreases log.len() - pos,
{
    if pos < 0 || pos >= log.len() {
        log.len() as int
    } else if log[pos] == NEWLINE {
        pos
    } else {
        line_end(log, pos + 1)
    }
}

/// The bytes of the line that starts at `pos`, without its newline.
pub open spec fn line_at(log: Seq<u8>, pos: int) -> Seq<u8> {
    log.subrange(pos, line_end(log, pos))
}

/// The record that the line starting at `pos` holds, if any.
pub open spec fn record_at(log: Seq<u8>, pos: int) -> Option<(Seq<char>, Seq<char>)> {
    decode_line(line_at(log, pos))
}

/// The line through `pos` ends at the first newline at or after `pos`, or
/// at the end of the log.
pub proof fn lemma_line_end_bounds(log: Seq<u8>, pos: int)
    requires
        0 <= pos <= log.len(),
    ensures
        pos <= line_end(log, pos) <= log.len(),
        line_end(log, pos) < log.len() ==> log[line_end(log, pos)] == NEWLINE,
        forall|i: int| pos <= i < line_end(log, pos) ==> log[i] != NEWLINE,
    decreases log.len() - pos,
{
    if pos < log.len() && log[pos] != NEWLINE {
        lemma_line_end_bounds(log, pos + 1);
    }
}

/// Finds the end of the line that starts at `pos`.
pub fn find_line_end(log: &[u8], pos: usize) -> (e: usize)
    requires
        pos <= log@.len(),
    ensures
        e == line_end(log@, pos as int),
{
    let mut i: usize = pos;
    while i < log.len() && log[i] != NEWLINE
        invariant
            pos <= i <= log@.len(),
            line_end(log@, pos as int) == line_end(log@, i as int),
        decreases log@.len() - i,
    {
        i = i + 1;
    }
    i
}

/// Relies on `std::str::from_utf8`: the bytes as text where they are UTF-8.
#[verifier::external_body]
fn text_of_utf8(line: &[u8]) -> (r: Option<&str>)
    ensures
        r is Some <==> valid_utf8(line@),
        r matches Some(t) ==> t@ == decode_utf8(line@),
{
    std::str::from_utf8(line).ok()
}

/// Relies on `str::trim_end`: `s` without trailing White_Space characters.
#[verifier::external_body]
fn trim_end(s: &str) -> (r: &str)
    ensures
        r@ == trim_end_spec(s@),
{
    s.trim_end()
}

/// What one line of the log holds.
pub enum Line {
    /// Nothing but white space.
    Blank,
    /// A record.
    Record(KVPair),
    /// Bytes that are neither.
    Malformed,
}

/// Reads one line of the log, without its newline: not UTF-8, or a text
/// that is neither blank nor a record once trailing white space is trimmed,
/// is malformed.
pub fn read_line(line: &[u8]) -> (r: Line)
    ensures
        is_blank(line@) ==> r is Blank,
        !is_blank(line@) ==> match decode_line(line@) {
            Some(kv) => r matches Line::Record(p) && p@ == kv,
            None => r is Malformed,
        },
{
    match text_of_utf8(line) {
        None => Line::Malformed,
        Some(text) => {
            let t = trim_end(text);
            if t.is_empty() {
                Line::Blank
            } else {
                match decode_record(t) {
                    Some(p) => Line::Record(p),
                    None => Line::Malformed,
                }
            }
        },
    }
}

/// The string value of the first entry named `name`; `None` where there is
/// no such entry or its value is not a string.
fn find_entry(es: &Vec<(String, Option<String>)>, name: &String) -> (r: Option<String>)
    ensures
        match entry(entries_view(es@), name@) {
            Some(Some(v)) => r matches Some(s) && s@ == v,
            _ => r is None,
        },
{
    let ghost ev = entries_view(es@);
    let mut i: usize = 0;
    assert(ev.subrange(0, ev.len() as int) =~= ev);
    while i < es.len()
        invariant
            0 <= i <= es@.len(),
            ev == entries_view(es@),
            entry(ev, name@) == entry(ev.subrange(i as int, ev.len() as int), name@),
        decreases es@.len() - i,
    {
        let ghost rest = ev.subrange(i as int, ev.len() as int);
        assert(rest.drop_first() =~= ev.subrange(i + 1, ev.len() as int));
        if es[i].0 == *name {
            return match &es[i].1 {
                Some(s) => Some(s.clone()),
                None => None,
            };
        }
        i = i + 1;
    }
    None
}

/// Reads the record written as `text`.
pub fn decode_record(text: &str) -> (r: Option<KVPair>)
    ensures
        match decode_spec(text@) {
            Some(kv) => r matches Some(p) && p@ == kv,
            None => r is None,
        },
{
    match parse_json_object(text) {
        None => None,
        Some(es) => {
            let k = find_entry(&es, &"key".to_string());
            let v = find_entry(&es, &"value".to_string());
            match (k, v) {
                (Some(key), Some(value)) => Some(KVPair { key, value }),
                _ => None,
            }
        },
    }
}

/// The bytes of the record for `key` and `value`, without its newline: one
/// line that reads back as that record.
pub fn encode_record(key: &str, value: &str) -> (r: Option<Vec<u8>>)
    ensures
        r is Some,
        r matches Some(t) ==> {
            &&& t@ == record_bytes(key@, value@)
            &&& decode_line(t@) == Some((key@, value@))
            &&& !is_blank(t@)
            &&& forall|i: int| 0 <= i < t@.len() ==> t@[i] != NEWLINE
        },
{
    proof {
        reveal_strlit("key");
        reveal_strlit("value");
        assert("key"@.len() != "value"@.len());
    }
    match write_json_object("key", key, "value", value) {
        None => None,
        Some(text) => {
            let bytes = text.as_str().as_bytes();
            let mut out: Vec<u8> = Vec::new();
            let mut i: usize = 0;
            while i < bytes.len()
                invariant
                    0 <= i <= bytes@.len(),
                    out@ == bytes@.subrange(0, i as int),
                decreases bytes@.len() - i,
            {
                out.push(bytes[i]);
                i = i + 1;
            }
            proof {
                assert(out@ =~= bytes@);
                broadcast use vstd::utf8::encode_utf8_valid_utf8, vstd::utf8::encode_utf8_decode_utf8;
                let c = text@.last();
                assert(c == '}');
                assert(!is_white_space(c));
                assert(trim_end_spec(text@) == text@);
            }
            Some(out)
        },
    }
}

} // verus!
