//! The `key=value` line format of the tool protocol, with percent escaping
//! of values.

use vstd::prelude::*;
use vstd::utf8::{decode_utf8, encode_utf8, valid_utf8};
use crate::text::{chars_of, dec, join2, parse_bounded, parse_i64, parse_i64_spec, parse_unsigned_in, push_char, push_str, same_text, string_of};
use crate::tool_protocol::ToolProtocolError;

verus! {

pub const MAX_PROTOCOL_TEXT_BYTES: usize = 2097152;

/// One `key=value` line.
pub open spec fn field(key: Seq<char>, value: Seq<char>) -> Seq<char> {
    key + seq!['='] + value + seq!['\n']
}

/// Appends one `key=value` line.
pub fn push_field(out: &mut String, key: &str, value: &str)
    ensures
        final(out)@ == old(out)@ + field(key@, value@),
{
    push_str(out, key);
    push_char(out, '=');
    push_str(out, value);
    push_char(out, '\n');
    assert(final(out)@ =~= old(out)@ + field(key@, value@));
}

pub open spec fn bool_word(v: bool) -> Seq<char> {
    if v { "true"@ } else { "false"@ }
}

pub fn bool_text(v: bool) -> (r: &'static str)
    ensures
        r@ == bool_word(v),
{
    if v { "true" } else { "false" }
}

/// Reads `true` or `false`.
pub fn parse_bool(v: &str) -> (r: Result<bool, ToolProtocolError>)
    ensures
        r matches Ok(b) ==> bool_word(b) == v@,
        r is Err ==> v@ != "true"@ && v@ != "false"@ && r->Err_0 is Decode,
{
    if same_text(v, "true") {
        Ok(true)
    } else if same_text(v, "false") {
        Ok(false)
    } else {
        Err(ToolProtocolError::Decode(crate::text::string_from("invalid boolean")))
    }
}

/// Bytes written as themselves by the escaping.
pub open spec fn plain_byte(b: u8) -> bool {
    (0x30 <= b && b <= 0x39) || (0x41 <= b && b <= 0x5a) || (0x61 <= b && b <= 0x7a) || b == 0x5f
        || b == 0x2d || b == 0x2e || b == 0x20 || b == 0x3a || b == 0x2f
}

/// Upper-case hexadecimal digit.
pub open spec fn hex_digit(v: nat) -> char {
    if v < 10 { ((v + 0x30) as u8) as char } else { ((v - 10 + 0x41) as u8) as char }
}

/// Percent escaping of UTF-8 bytes: plain bytes stay, others become `%HH`.
pub open spec fn escape_bytes(bs: Seq<u8>) -> Seq<char>
    decreases bs.len(),
{
    if bs.len() == 0 {
        Seq::empty()
    } else {
        let b = bs.last();
        escape_bytes(bs.drop_last()) + if plain_byte(b) {
            seq![b as char]
        } else {
            seq!['%', hex_digit((b / 16) as nat), hex_digit((b % 16) as nat)]
        }
    }
}

/// The escaped form of a text.
pub open spec fn esc(s: Seq<char>) -> Seq<char> {
    escape_bytes(encode_utf8(s))
}

fn hex(v: u8) -> (c: char)
    requires
        v < 16,
    ensures
        c == hex_digit(v as nat),
{
    if v < 10 { ((v + 0x30) as u8) as char } else { ((v - 10 + 0x41) as u8) as char }
}

/// Percent-escapes a text.
pub fn escape(text: &str) -> (r: String)
    ensures
        r@ == esc(text@),
{
    let bytes = text.as_bytes();
    let mut out = String::new();
    let mut i: usize = 0;
    while i < bytes.len()
        invariant
            bytes@ == encode_utf8(text@),
            i <= bytes.len(),
            out@ == escape_bytes(bytes@.subrange(0, i as int)),
        decreases bytes.len() - i,
    {
        let b = bytes[i];
        assert(bytes@.subrange(0, i + 1).drop_last() =~= bytes@.subrange(0, i as int));
        if (0x30 <= b && b <= 0x39) || (0x41 <= b && b <= 0x5a) || (0x61 <= b && b <= 0x7a) || b == 0x5f
            || b == 0x2d || b == 0x2e || b == 0x20 || b == 0x3a || b == 0x2f {
            push_char(&mut out, b as char);
        } else {
            push_char(&mut out, '%');
            push_char(&mut out, hex(b / 16));
            push_char(&mut out, hex(b % 16));
        }
        i = i + 1;
        assert(out@ =~= escape_bytes(bytes@.subrange(0, i as int)));
    }
    assert(bytes@.subrange(0, bytes.len() as int) =~= bytes@);
    out
}

/// Value of a hexadecimal digit byte, either case.
pub open spec fn hex_value(b: u8) -> Option<u8> {
    if 0x30 <= b && b <= 0x39 {
        Some((b - 0x30) as u8)
    } else if 0x61 <= b && b <= 0x66 {
        Some((b - 0x61 + 10) as u8)
    } else if 0x41 <= b && b <= 0x46 {
        Some((b - 0x41 + 10) as u8)
    } else {
        None
    }
}

fn from_hex(b: u8) -> (r: Option<u8>)
    ensures
        r == hex_value(b),
{
    if 0x30 <= b && b <= 0x39 {
        Some(b - 0x30)
    } else if 0x61 <= b && b <= 0x66 {
        Some(b - 0x61 + 10)
    } else if 0x41 <= b && b <= 0x46 {
        Some(b - 0x41 + 10)
    } else {
        None
    }
}

/// Undoing percent escapes: `%HH` becomes one byte; a `%` needs two more
/// bytes after it and both must be hex digits.
pub open spec fn unescape_bytes(bs: Seq<u8>) -> Option<Seq<u8>>
    decreases bs.len(),
{
    if bs.len() == 0 {
        Some(Seq::empty())
    } else if bs[0] == 0x25 {
        if bs.len() < 3 {
            None
        } else {
            match (hex_value(bs[1]), hex_value(bs[2])) {
                (Some(h), Some(l)) => match unescape_bytes(bs.subrange(3, bs.len() as int)) {
                    Some(rest) => Some(seq![(h * 16 + l) as u8] + rest),
                    None => None,
                },
                _ => None,
            }
        }
    } else {
        match unescape_bytes(bs.drop_first()) {
            Some(rest) => Some(seq![bs[0]] + rest),
            None => None,
        }
    }
}

/// What `unescape` gives for a text.
pub open spec fn unesc(s: Seq<char>) -> Option<Seq<char>> {
    match unescape_bytes(encode_utf8(s)) {
        Some(bs) => if valid_utf8(bs) { Some(decode_utf8(bs)) } else { None },
        None => None,
    }
}

/// `String::from_utf8`: the text whose UTF-8 encoding is `bytes`, if any.
#[verifier::external_body]
fn utf8_string(bytes: Vec<u8>) -> (r: Option<String>)
    ensures
        r is Some <==> valid_utf8(bytes@),
        r matches Some(s) ==> s@ == decode_utf8(bytes@),
{
    String::from_utf8(bytes).ok()
}

/// Undoes percent escaping.
pub fn unescape(text: &str) -> (r: Result<String, ToolProtocolError>)
    ensures
        r matches Ok(s) ==> unesc(text@) == Some(s@),
        r is Err ==> unesc(text@) is None && r->Err_0 is Decode,
{
    let bytes = text.as_bytes();
    let mut out: Vec<u8> = Vec::new();
    let mut i: usize = 0;
    assert(bytes@.subrange(0, bytes.len() as int) =~= bytes@);
    while i < bytes.len()
        invariant
            bytes@ == encode_utf8(text@),
            i <= bytes.len(),
            unescape_bytes(bytes@) == match unescape_bytes(bytes@.subrange(i as int, bytes.len() as int)) {
                Some(rest) => Some(out@ + rest),
                None => None::<Seq<u8>>,
            },
        decreases bytes.len() - i,
    {
        let ghost rest = bytes@.subrange(i as int, bytes.len() as int);
        if bytes[i] == 0x25 {
            if bytes.len() - i <= 2 {
                return Err(ToolProtocolError::Decode(crate::text::string_from("truncated percent escape")));
            }
            let h = from_hex(bytes[i + 1]);
            let l = from_hex(bytes[i + 2]);
            match (h, l) {
                (Some(h), Some(l)) => {
                    assert(rest.subrange(3, rest.len() as int) =~= bytes@.subrange(i + 3, bytes.len() as int));
                    out.push(h * 16 + l);
                    i = i + 3;
                    proof {
                        let ghost o = out@;
                        assert(o.drop_last() + seq![o.last()] =~= o);
                        match unescape_bytes(bytes@.subrange(i as int, bytes.len() as int)) {
                            Some(r2) => { assert(o.drop_last() + (seq![o.last()] + r2) =~= o + r2); },
                            None => {},
                        }
                    }
                },
                _ => {
                    return Err(ToolProtocolError::Decode(crate::text::string_from("invalid percent escape")));
                },
            }
        } else {
            assert(rest.drop_first() =~= bytes@.subrange(i + 1, bytes.len() as int));
            out.push(bytes[i]);
            i = i + 1;
            proof {
                let ghost o = out@;
                match unescape_bytes(bytes@.subrange(i as int, bytes.len() as int)) {
                    Some(r2) => { assert(o.drop_last() + (seq![o.last()] + r2) =~= o + r2); },
                    None => {},
                }
            }
        }
    }
    assert(bytes@.subrange(i as int, bytes.len() as int) =~= Seq::<u8>::empty());
    assert(out@ + Seq::<u8>::empty() =~= out@);
    match utf8_string(out) {
        Some(s) => Ok(s),
        None => Err(ToolProtocolError::Decode(crate::text::string_from("escaped value is not UTF-8"))),
    }
}


// ---------------------------------------------------------------------------
// Field lists
// ---------------------------------------------------------------------------

/// The pieces of a text between newline characters (always at least one).
pub open spec fn pieces(s: Seq<char>) -> Seq<Seq<char>>
    decreases s.len(),
{
    if s.len() == 0 {
        seq![Seq::<char>::empty()]
    } else {
        let p = pieces(s.drop_last());
        if s.last() == '\n' {
            p.push(Seq::<char>::empty())
        } else {
            p.update(p.len() - 1, p.last().push(s.last()))
        }
    }
}

pub proof fn lemma_pieces_nonempty(s: Seq<char>)
    ensures
        pieces(s).len() >= 1,
    decreases s.len(),
{
    if s.len() > 0 {
        lemma_pieces_nonempty(s.drop_last());
    }
}

/// A line that ended in `\r\n` loses its `\r`.
pub open spec fn strip_cr(l: Seq<char>) -> Seq<char> {
    if l.len() > 0 && l.last() == '\r' { l.drop_last() } else { l }
}

/// The lines of a text as `str::lines` yields them (a trailing empty piece is
/// an empty line, which the field parser skips anyway).
pub open spec fn lines_of(s: Seq<char>) -> Seq<Seq<char>> {
    let p = pieces(s);
    p.drop_last().map_values(|l: Seq<char>| strip_cr(l)).push(p.last())
}

/// A parsed field: name and raw value.
pub type FieldView = (Seq<char>, Seq<char>);

pub open spec fn fields_view(v: Seq<(String, String)>) -> Seq<FieldView> {
    v.map_values(|p: (String, String)| (p.0@, p.1@))
}

pub open spec fn has_key(fs: Seq<FieldView>, k: Seq<char>) -> bool {
    exists|i: int| 0 <= i < fs.len() && (#[trigger] fs[i]).0 == k
}

pub open spec fn distinct_keys(fs: Seq<FieldView>) -> bool {
    forall|i: int, j: int| 0 <= i < j < fs.len() ==> (#[trigger] fs[i]).0 != (#[trigger] fs[j]).0
}

/// Position of the first `=` of a line.
pub open spec fn first_eq(l: Seq<char>, i: int) -> bool {
    0 <= i < l.len() && l[i] == '=' && forall|j: int| 0 <= j < i ==> l[j] != '='
}

/// One more line read into the field list.
pub open spec fn step_line(acc: Option<Seq<FieldView>>, l: Seq<char>) -> Option<Seq<FieldView>> {
    match acc {
        None => None,
        Some(fs) => if l.len() == 0 {
            Some(fs)
        } else if !(exists|i: int| first_eq(l, i)) {
            None
        } else {
            let i = choose|i: int| first_eq(l, i);
            if i == 0 || has_key(fs, l.subrange(0, i)) {
                None
            } else {
                Some(fs.push((l.subrange(0, i), l.subrange(i + 1, l.len() as int))))
            }
        },
    }
}

pub open spec fn parse_lines(ls: Seq<Seq<char>>) -> Option<Seq<FieldView>>
    decreases ls.len(),
{
    if ls.len() == 0 {
        Some(Seq::empty())
    } else {
        step_line(parse_lines(ls.drop_last()), ls.last())
    }
}

/// The fields of a protocol text, or `None` where the text is refused: over
/// the size limit, a non-empty line without `=`, an empty name, or a name
/// given twice.
pub open spec fn fields_of(text: Seq<char>) -> Option<Seq<FieldView>> {
    if encode_utf8(text).len() > MAX_PROTOCOL_TEXT_BYTES {
        None
    } else {
        parse_lines(lines_of(text))
    }
}

proof fn lemma_parse_lines_distinct(ls: Seq<Seq<char>>)
    ensures
        parse_lines(ls) matches Some(fs) ==> distinct_keys(fs),
    decreases ls.len(),
{
    if ls.len() > 0 {
        lemma_parse_lines_distinct(ls.drop_last());
        let l = ls.last();
        match parse_lines(ls.drop_last()) {
            Some(fs) => {
                if l.len() > 0 && exists|i: int| first_eq(l, i) {
                    let i = choose|i: int| first_eq(l, i);
                    if i != 0 && !has_key(fs, l.subrange(0, i)) {
                        let g = fs.push((l.subrange(0, i), l.subrange(i + 1, l.len() as int)));
                        assert forall|a: int, b: int| 0 <= a < b < g.len() implies (#[trigger] g[a]).0 != (#[trigger] g[b]).0 by {
                            if b == fs.len() {
                                assert(fs[a] == g[a]);
                            } else {
                                assert(fs[a] == g[a] && fs[b] == g[b]);
                            }
                        }
                    }
                }
            },
            None => {},
        }
    }
}

pub proof fn lemma_fields_distinct(text: Seq<char>)
    ensures
        fields_of(text) matches Some(fs) ==> distinct_keys(fs),
{
    lemma_parse_lines_distinct(lines_of(text));
}

/// Whether `fs` holds a field named `key`.
pub fn find_key(fs: &Vec<(String, String)>, key: &str) -> (r: Option<usize>)
    ensures
        r is None <==> !has_key(fields_view(fs@), key@),
        r matches Some(j) ==> j < fs.len() && fs@[j as int].0@ == key@,
{
    let mut j: usize = 0;
    while j < fs.len()
        invariant
            j <= fs.len(),
            forall|k: int| 0 <= k < j ==> fs@[k].0@ != key@,
        decreases fs.len() - j,
    {
        if same_text(fs[j].0.as_str(), key) {
            assert(fields_view(fs@)[j as int].0 == key@);
            return Some(j);
        }
        j = j + 1;
    }
    proof {
        let v = fields_view(fs@);
        if has_key(v, key@) {
            let k = choose|k: int| 0 <= k < v.len() && (#[trigger] v[k]).0 == key@;
            assert(v[k].0 == fs@[k].0@);
        }
    }
    None
}

/// Reads the line `cs[from..to]` into `fs`; `false` where it is refused.
fn read_line(fs: &mut Vec<(String, String)>, cs: &Vec<char>, from: usize, to: usize) -> (ok: bool)
    requires
        from <= to <= cs.len(),
    ensures
        ok ==> step_line(Some(fields_view(old(fs)@)), cs@.subrange(from as int, to as int)) == Some(fields_view(final(fs)@)),
        !ok ==> step_line(Some(fields_view(old(fs)@)), cs@.subrange(from as int, to as int)) is None,
{
    let ghost l = cs@.subrange(from as int, to as int);
    if from == to {
        return true;
    }
    let mut i = from;
    while i < to
        invariant
            from <= i <= to <= cs.len(),
            l == cs@.subrange(from as int, to as int),
            forall|j: int| from <= j < i ==> cs@[j] != '=',
        ensures
            from <= i <= to,
            forall|j: int| from <= j < i ==> cs@[j] != '=',
            i < to ==> cs@[i as int] == '=',
        decreases to - i,
    {
        if cs[i] == '=' {
            break;
        }
        i = i + 1;
    }
    if i == to {
        assert(!(exists|k: int| first_eq(l, k))) by {
            if exists|k: int| first_eq(l, k) {
                let k = choose|k: int| first_eq(l, k);
                assert(l[k] == cs@[from + k]);
            }
        }
        return false;
    }
    let ghost at = (i - from) as int;
    assert(first_eq(l, at)) by {
        assert(l[at] == cs@[i as int]);
        assert forall|j: int| 0 <= j < at implies l[j] != '=' by {
            assert(l[j] == cs@[from + j]);
        }
    }
    assert(forall|k: int| first_eq(l, k) ==> k == at) by {
        assert forall|k: int| first_eq(l, k) implies k == at by {
            if k < at {
                assert(l[k] == '=');
            } else if k > at {
                assert(l[at] == '=');
            }
        }
    }
    if i == from {
        return false;
    }
    let key = string_of(cs, from, i);
    assert(key@ == l.subrange(0, at));
    match find_key(fs, key.as_str()) {
        Some(_) => {
            return false;
        },
        None => {},
    }
    let value = string_of(cs, i + 1, to);
    assert(value@ == l.subrange(at + 1, l.len() as int));
    fs.push((key, value));
    assert(fields_view(final(fs)@) =~= fields_view(old(fs)@).push((l.subrange(0, at), l.subrange(at + 1, l.len() as int))));
    true
}

/// Splits a protocol text into its fields, refusing what `fields_of`
/// refuses.
pub fn parse_fields(text: &str) -> (r: Result<Vec<(String, String)>, ToolProtocolError>)
    ensures
        r matches Ok(v) ==> fields_of(text@) == Some(fields_view(v@)),
        r is Err ==> fields_of(text@) is None && r->Err_0 is Decode,
{
    if text.as_bytes().len() > MAX_PROTOCOL_TEXT_BYTES {
        return Err(ToolProtocolError::Decode(crate::text::string_from("protocol text exceeds size limit")));
    }
    let cs = chars_of(text);
    let mut fs: Vec<(String, String)> = Vec::new();
    let mut failed = false;
    let mut start: usize = 0;
    let mut i: usize = 0;
    let ghost mut done: Seq<Seq<char>> = Seq::empty();
    assert(cs@.subrange(0, 0) =~= Seq::<char>::empty());
    while i < cs.len()
        invariant
            cs@ == text@,
            start <= i <= cs.len(),
            pieces(cs@.subrange(0, i as int)) == done.push(cs@.subrange(start as int, i as int)),
            !failed ==> parse_lines(done.map_values(|l: Seq<char>| strip_cr(l))) == Some(fields_view(fs@)),
            failed ==> parse_lines(done.map_values(|l: Seq<char>| strip_cr(l))) is None,
        decreases cs.len() - i,
    {
        let ghost pre = cs@.subrange(0, i as int);
        assert(cs@.subrange(0, i + 1).drop_last() =~= pre);
        if cs[i] == '\n' {
            let ghost cur = cs@.subrange(start as int, i as int);
            let ghost nd = done.push(cur);
            assert(nd.map_values(|l: Seq<char>| strip_cr(l)).drop_last() =~= done.map_values(|l: Seq<char>| strip_cr(l)));
            if !failed {
                let mut end = i;
                if end > start && cs[end - 1] == '\r' {
                    end = end - 1;
                }
                assert(cs@.subrange(start as int, end as int) == strip_cr(cur)) by {
                    if i > start && cs@[i - 1] == '\r' {
                        assert(cs@.subrange(start as int, end as int) =~= cur.drop_last());
                    }
                }
                let ok = read_line(&mut fs, &cs, start, end);
                if !ok {
                    failed = true;
                }
            }
            proof {
                done = nd;
            }
            i = i + 1;
            start = i;
            assert(cs@.subrange(start as int, i as int) =~= Seq::<char>::empty());
        } else {
            i = i + 1;
            assert(cs@.subrange(start as int, i as int) =~= cs@.subrange(start as int, i - 1).push(cs@[i - 1]));
        }
    }
    assert(cs@.subrange(0, cs.len() as int) =~= text@);
    let ghost last = cs@.subrange(start as int, cs.len() as int);
    assert(lines_of(text@) =~= done.map_values(|l: Seq<char>| strip_cr(l)).push(last));
    assert(lines_of(text@).drop_last() =~= done.map_values(|l: Seq<char>| strip_cr(l)));
    if !failed {
        let ok = read_line(&mut fs, &cs, start, cs.len());
        if ok {
            return Ok(fs);
        }
    }
    Err(ToolProtocolError::Decode(crate::text::string_from("malformed protocol fields")))
}

/// The value of the field named `key`, where there is one.
pub open spec fn lookup(fs: Seq<FieldView>, key: Seq<char>) -> Option<Seq<char>> {
    if has_key(fs, key) {
        Some(fs[choose|j: int| 0 <= j < fs.len() && (#[trigger] fs[j]).0 == key].1)
    } else {
        None
    }
}

/// `after` is `before` less its one field named `key`, names still distinct.
pub open spec fn took(before: Seq<FieldView>, after: Seq<FieldView>, key: Seq<char>) -> bool {
    &&& after.len() + 1 == before.len()
    &&& distinct_keys(after)
    &&& !has_key(after, key)
    &&& forall|k: Seq<char>|
        #![trigger has_key(after, k)]
        #![trigger lookup(after, k)]
        k != key ==> has_key(after, k) == has_key(before, k) && lookup(after, k) == lookup(before, k)
}

/// In a list with distinct names, the field at `j` is the one `lookup`
/// finds, and removing it leaves the other fields as they were.
pub proof fn lemma_take_field(fs: Seq<FieldView>, j: int)
    requires
        distinct_keys(fs),
        0 <= j < fs.len(),
    ensures
        lookup(fs, fs[j].0) == Some(fs[j].1),
        took(fs, fs.remove(j), fs[j].0),
{
    let key = fs[j].0;
    let g = fs.remove(j);
    assert(has_key(fs, key));
    let c = choose|i: int| 0 <= i < fs.len() && (#[trigger] fs[i]).0 == key;
    assert(c == j);
    assert forall|a: int, b: int| 0 <= a < b < g.len() implies (#[trigger] g[a]).0 != (#[trigger] g[b]).0 by {
        let a2 = if a < j { a } else { a + 1 };
        let b2 = if b < j { b } else { b + 1 };
        assert(g[a] == fs[a2] && g[b] == fs[b2]);
    }
    assert(!has_key(g, key)) by {
        if has_key(g, key) {
            let i = choose|i: int| 0 <= i < g.len() && (#[trigger] g[i]).0 == key;
            let i2 = if i < j { i } else { i + 1 };
            assert(g[i] == fs[i2]);
        }
    }
    assert forall|k: Seq<char>| k != key implies has_key(g, k) == has_key(fs, k) && lookup(g, k) == lookup(fs, k) by {
        if has_key(fs, k) {
            let i = choose|i: int| 0 <= i < fs.len() && (#[trigger] fs[i]).0 == k;
            assert(i != j);
            let i1 = if i < j { i } else { i - 1 };
            assert(g[i1] == fs[i]);
            assert(has_key(g, k));
            let h = choose|h: int| 0 <= h < g.len() && (#[trigger] g[h]).0 == k;
            let h2 = if h < j { h } else { h + 1 };
            assert(g[h] == fs[h2]);
            assert(h2 == i);
        }
        if has_key(g, k) {
            let h = choose|h: int| 0 <= h < g.len() && (#[trigger] g[h]).0 == k;
            let h2 = if h < j { h } else { h + 1 };
            assert(g[h] == fs[h2]);
            assert(has_key(fs, k));
        }
    }
}

/// Removes the field named `key` and gives its raw value.
pub fn take(fields: &mut Vec<(String, String)>, key: &str) -> (r: Result<String, ToolProtocolError>)
    ensures
        r is Ok <==> has_key(fields_view(old(fields)@), key@),
        r matches Ok(v) ==> exists|j: int| 0 <= j < old(fields)@.len()
            && old(fields)@[j].0@ == key@
            && v@ == old(fields)@[j].1@
            && final(fields)@ == old(fields)@.remove(j),
        distinct_keys(fields_view(old(fields)@)) ==> (r matches Ok(v) ==>
            lookup(fields_view(old(fields)@), key@) == Some(v@)
            && took(fields_view(old(fields)@), fields_view(final(fields)@), key@)),
        r is Err ==> r->Err_0 is Decode && final(fields)@ == old(fields)@,
{
    match find_key(fields, key) {
        Some(j) => {
            let ghost before = fields@;
            let (_, v) = fields.remove(j);
            proof {
                assert(fields_view(fields@) =~= fields_view(before).remove(j as int));
                if distinct_keys(fields_view(before)) {
                    lemma_take_field(fields_view(before), j as int);
                }
            }
            Ok(v)
        },
        None => Err(ToolProtocolError::Decode(join2("missing field ", key))),
    }
}

/// Refuses a field list that still holds a field.
pub fn reject_leftovers(fields: &Vec<(String, String)>) -> (r: Result<(), ToolProtocolError>)
    ensures
        r is Ok <==> fields.len() == 0,
        r is Err ==> r->Err_0 is Decode,
{
    if fields.len() > 0 {
        Err(ToolProtocolError::Decode(join2("unknown field ", fields[0].0.as_str())))
    } else {
        Ok(())
    }
}


pub open spec fn strings_view(v: Seq<String>) -> Seq<Seq<char>> {
    v.map_values(|s: String| s@)
}

/// The lines of a text, as `lines_of` describes them.
pub fn split_lines(text: &str) -> (r: Vec<String>)
    ensures
        strings_view(r@) == lines_of(text@),
        r@.len() == lines_of(text@).len(),
        r@.len() >= 1,
{
    let cs = chars_of(text);
    let mut out: Vec<String> = Vec::new();
    let mut start: usize = 0;
    let mut i: usize = 0;
    let ghost mut done: Seq<Seq<char>> = Seq::empty();
    assert(cs@.subrange(0, 0) =~= Seq::<char>::empty());
    while i < cs.len()
        invariant
            cs@ == text@,
            start <= i <= cs.len(),
            pieces(cs@.subrange(0, i as int)) == done.push(cs@.subrange(start as int, i as int)),
            strings_view(out@) == done.map_values(|l: Seq<char>| strip_cr(l)),
            out@.len() == done.len(),
        decreases cs.len() - i,
    {
        assert(cs@.subrange(0, i + 1).drop_last() =~= cs@.subrange(0, i as int));
        if cs[i] == '\n' {
            let ghost cur = cs@.subrange(start as int, i as int);
            let mut end = i;
            if end > start && cs[end - 1] == '\r' {
                end = end - 1;
            }
            assert(cs@.subrange(start as int, end as int) == strip_cr(cur)) by {
                if i > start && cs@[i - 1] == '\r' {
                    assert(cs@.subrange(start as int, end as int) =~= cur.drop_last());
                }
            }
            let ghost ov = out@;
            let piece = string_of(&cs, start, end);
            out.push(piece);
            proof {
                let nd = done.push(cur);
                assert(out@ == ov.push(piece));
                assert forall|k: int| 0 <= k < out@.len() implies #[trigger] strings_view(out@)[k] == nd.map_values(|l: Seq<char>| strip_cr(l))[k] by {
                    if k < ov.len() {
                        assert(strings_view(ov)[k] == done.map_values(|l: Seq<char>| strip_cr(l))[k]);
                        assert(out@[k] == ov[k]);
                    } else {
                        assert(out@[k] == piece);
                        assert(nd[k] == cur);
                    }
                }
                assert(strings_view(out@) =~= nd.map_values(|l: Seq<char>| strip_cr(l)));
                done = nd;
            }
            i = i + 1;
            start = i;
            assert(cs@.subrange(start as int, i as int) =~= Seq::<char>::empty());
        } else {
            i = i + 1;
            assert(cs@.subrange(start as int, i as int) =~= cs@.subrange(start as int, i - 1).push(cs@[i - 1]));
        }
    }
    assert(cs@.subrange(0, cs.len() as int) =~= text@);
    let ghost last = cs@.subrange(start as int, cs.len() as int);
    let ghost ov = out@;
    let piece = string_of(&cs, start, cs.len());
    out.push(piece);
    proof {
        let want = done.map_values(|l: Seq<char>| strip_cr(l)).push(last);
        assert forall|k: int| 0 <= k < out@.len() implies #[trigger] strings_view(out@)[k] == want[k] by {
            if k < ov.len() {
                assert(strings_view(ov)[k] == done.map_values(|l: Seq<char>| strip_cr(l))[k]);
                assert(out@[k] == ov[k]);
            } else {
                assert(out@[k] == piece);
            }
        }
    }
    assert(strings_view(out@) =~= done.map_values(|l: Seq<char>| strip_cr(l)).push(last));
    assert(lines_of(text@) =~= done.map_values(|l: Seq<char>| strip_cr(l)).push(last));
    out
}

} // verus!

verus! {

// ---------------------------------------------------------------------------
// Escaping is undone by unescaping
// ---------------------------------------------------------------------------

/// The characters that one byte escapes to.
pub open spec fn escape_one(b: u8) -> Seq<char> {
    if plain_byte(b) { seq![b as char] } else { seq!['%', hex_digit((b / 16) as nat), hex_digit((b % 16) as nat)] }
}

/// The bytes that one byte escapes to.
pub open spec fn escape_one_bytes(b: u8) -> Seq<u8> {
    if plain_byte(b) {
        seq![b]
    } else {
        seq![0x25u8, hex_digit((b / 16) as nat) as u8, hex_digit((b % 16) as nat) as u8]
    }
}

pub open spec fn escaped_bytes(bs: Seq<u8>) -> Seq<u8>
    decreases bs.len(),
{
    if bs.len() == 0 { Seq::empty() } else { escaped_bytes(bs.drop_last()) + escape_one_bytes(bs.last()) }
}

proof fn lemma_escape_front(b: u8, rest: Seq<u8>)
    ensures
        escape_bytes(seq![b] + rest) == escape_one(b) + escape_bytes(rest),
        escaped_bytes(seq![b] + rest) == escape_one_bytes(b) + escaped_bytes(rest),
    decreases rest.len(),
{
    let s = seq![b] + rest;
    assert(escape_bytes(s) == escape_bytes(s.drop_last()) + escape_one(s.last()));
    assert(escaped_bytes(s) == escaped_bytes(s.drop_last()) + escape_one_bytes(s.last()));
    if rest.len() == 0 {
        assert(s =~= seq![b]);
        assert(s.drop_last() =~= Seq::<u8>::empty());
        assert(escape_bytes(s.drop_last()) =~= Seq::<char>::empty());
        assert(escaped_bytes(s.drop_last()) =~= Seq::<u8>::empty());
        assert(escape_one(b) + escape_bytes(rest) =~= escape_one(b));
        assert(escape_one_bytes(b) + escaped_bytes(rest) =~= escape_one_bytes(b));
        assert(escape_bytes(s) =~= escape_one(b));
        assert(escaped_bytes(s) =~= escape_one_bytes(b));
    } else {
        lemma_escape_front(b, rest.drop_last());
        assert(s.drop_last() =~= seq![b] + rest.drop_last());
        assert(s.last() == rest.last());
        assert(escape_bytes(rest) == escape_bytes(rest.drop_last()) + escape_one(rest.last()));
        assert(escaped_bytes(rest) == escaped_bytes(rest.drop_last()) + escape_one_bytes(rest.last()));
        assert(escape_bytes(s) =~= escape_one(b) + escape_bytes(rest));
        assert(escaped_bytes(s) =~= escape_one_bytes(b) + escaped_bytes(rest));
    }
}

proof fn lemma_escape_one_ascii(b: u8)
    ensures
        forall|i: int| 0 <= i < escape_one(b).len() ==> (#[trigger] escape_one(b)[i] as nat) < 128,
        escape_one(b).len() == escape_one_bytes(b).len(),
        forall|i: int| 0 <= i < escape_one(b).len() ==> (#[trigger] escape_one(b)[i]) as u8 == escape_one_bytes(b)[i],
{
}

proof fn lemma_escape_ascii(bs: Seq<u8>)
    ensures
        vstd::utf8::is_ascii_chars(escape_bytes(bs)),
        escape_bytes(bs).len() == escaped_bytes(bs).len(),
        forall|i: int| 0 <= i < escape_bytes(bs).len() ==> (#[trigger] escape_bytes(bs)[i]) as u8 == escaped_bytes(bs)[i],
    decreases bs.len(),
{
    if bs.len() > 0 {
        lemma_escape_ascii(bs.drop_last());
        lemma_escape_one_ascii(bs.last());
        let a = escape_bytes(bs.drop_last());
        let e = escape_one(bs.last());
        let ab = escaped_bytes(bs.drop_last());
        let eb = escape_one_bytes(bs.last());
        assert forall|i: int| 0 <= i < (a + e).len() implies '\0' <= #[trigger] (a + e)[i] <= '\u{7f}' by {
            if i < a.len() {
                assert((a + e)[i] == a[i]);
            } else {
                assert((a + e)[i] == e[i - a.len()]);
                assert((e[i - a.len()] as nat) < 128);
            }
        }
        assert forall|i: int| 0 <= i < (a + e).len() implies (#[trigger] (a + e)[i]) as u8 == (ab + eb)[i] by {
            if i < a.len() {
                assert((a + e)[i] == a[i]);
            } else {
                assert((a + e)[i] == e[i - a.len()]);
            }
        }
    }
}

/// The UTF-8 bytes of an escaped text are the escaped bytes.
proof fn lemma_escape_encoding(bs: Seq<u8>)
    ensures
        encode_utf8(escape_bytes(bs)) == escaped_bytes(bs),
{
    lemma_escape_ascii(bs);
    vstd::utf8::is_ascii_chars_encode_utf8(escape_bytes(bs));
    assert(encode_utf8(escape_bytes(bs)) =~= escaped_bytes(bs));
}

proof fn lemma_hex_digit_value(v: nat)
    requires
        v < 16,
    ensures
        hex_value(hex_digit(v) as u8) == Some(v as u8),
        (hex_digit(v) as u8) != 0x25,
{
}

proof fn lemma_unescape_escaped(bs: Seq<u8>)
    ensures
        unescape_bytes(escaped_bytes(bs)) == Some(bs),
    decreases bs.len(),
{
    if bs.len() == 0 {
        assert(escaped_bytes(bs) =~= Seq::<u8>::empty());
    } else {
        let b = bs[0];
        let rest = bs.drop_first();
        assert(bs =~= seq![b] + rest);
        lemma_escape_front(b, rest);
        lemma_unescape_escaped(rest);
        let all = escaped_bytes(bs);
        let head = escape_one_bytes(b);
        if plain_byte(b) {
            assert(all[0] == b);
            assert(all.drop_first() =~= escaped_bytes(rest));
        } else {
            lemma_hex_digit_value((b / 16) as nat);
            lemma_hex_digit_value((b % 16) as nat);
            assert(all[0] == 0x25u8);
            assert(all[1] == hex_digit((b / 16) as nat) as u8);
            assert(all[2] == hex_digit((b % 16) as nat) as u8);
            assert(all.subrange(3, all.len() as int) =~= escaped_bytes(rest));
            assert(((b / 16) as u8) * 16 + ((b % 16) as u8) == b);
        }
    }
}

/// Unescaping an escaped text gives the text back.
pub proof fn lemma_unesc_esc(s: Seq<char>)
    ensures
        unesc(esc(s)) == Some(s),
{
    let bs = encode_utf8(s);
    lemma_escape_encoding(bs);
    lemma_unescape_escaped(bs);
    vstd::utf8::encode_utf8_valid_utf8(s);
    vstd::utf8::encode_utf8_decode_utf8(s);
}

/// An escaped text holds no line break, carriage return, `=` or `%`
/// other than the escape marks, and no white space but the space.
pub proof fn lemma_esc_chars(s: Seq<char>)
    ensures
        forall|i: int| 0 <= i < esc(s).len() ==> {
            let c = #[trigger] esc(s)[i];
            c != '\n' && c != '\r' && c != '='
        },
{
    lemma_esc_chars_bytes(encode_utf8(s));
}

proof fn lemma_esc_chars_bytes(bs: Seq<u8>)
    ensures
        forall|i: int| 0 <= i < escape_bytes(bs).len() ==> {
            let c = #[trigger] escape_bytes(bs)[i];
            c != '\n' && c != '\r' && c != '='
        },
    decreases bs.len(),
{
    if bs.len() > 0 {
        lemma_esc_chars_bytes(bs.drop_last());
        let a = escape_bytes(bs.drop_last());
        let e = escape_one(bs.last());
        assert forall|i: int| 0 <= i < (a + e).len() implies {
            let c = #[trigger] (a + e)[i];
            c != '\n' && c != '\r' && c != '='
        } by {
            if i < a.len() {
                assert((a + e)[i] == a[i]);
            } else {
                assert((a + e)[i] == e[i - a.len()]);
            }
        }
    }
}

// ---------------------------------------------------------------------------
// Texts made of whole lines
// ---------------------------------------------------------------------------

proof fn lemma_pieces_are_parts(s: Seq<char>)
    ensures
        pieces(s) == crate::reasoning_suite::parts(s, '\n'),
    decreases s.len(),
{
    if s.len() > 0 {
        lemma_pieces_are_parts(s.drop_last());
    }
}

/// Appending text without a separator extends the last piece.
proof fn lemma_parts_extend(a: Seq<char>, b: Seq<char>, sep: char)
    requires
        crate::reasoning_suite::free_of(b, sep),
    ensures
        crate::reasoning_suite::parts(a + b, sep) == ({
            let p = crate::reasoning_suite::parts(a, sep);
            p.update(p.len() - 1, p.last() + b)
        }),
    decreases b.len(),
{
    lemma_parts_len(a, sep);
    if b.len() == 0 {
        assert(a + b =~= a);
        let p = crate::reasoning_suite::parts(a, sep);
        assert(p.update(p.len() - 1, p.last() + b) =~= p);
    } else {
        let b1 = b.drop_last();
        lemma_parts_extend(a, b1, sep);
        assert((a + b).drop_last() =~= a + b1);
        assert((a + b).last() == b.last());
        let p = crate::reasoning_suite::parts(a, sep);
        assert((p.last() + b1).push(b.last()) =~= p.last() + b);
        assert(p.update(p.len() - 1, p.last() + b1).update(p.len() - 1, (p.last() + b1).push(b.last()))
            =~= p.update(p.len() - 1, p.last() + b));
    }
}

proof fn lemma_parts_len(a: Seq<char>, sep: char)
    ensures
        crate::reasoning_suite::parts(a, sep).len() >= 1,
    decreases a.len(),
{
    if a.len() > 0 {
        lemma_parts_len(a.drop_last(), sep);
    }
}

/// Lines, each followed by a newline.
pub open spec fn joined_lines(ls: Seq<Seq<char>>) -> Seq<char>
    decreases ls.len(),
{
    if ls.len() == 0 { Seq::empty() } else { joined_lines(ls.drop_last()) + ls.last() + seq!['\n'] }
}

/// A line that reads back as itself: no newline, and no carriage return
/// at its end.
pub open spec fn clean_line(l: Seq<char>) -> bool {
    crate::reasoning_suite::free_of(l, '\n') && (l.len() == 0 || l.last() != '\r')
}

pub proof fn lemma_lines_of_joined(ls: Seq<Seq<char>>)
    requires
        forall|i: int| 0 <= i < ls.len() ==> clean_line(#[trigger] ls[i]),
    ensures
        lines_of(joined_lines(ls)) == ls.push(Seq::<char>::empty()),
{
    lemma_parts_of_joined(ls);
    lemma_pieces_are_parts(joined_lines(ls));
    let p = ls.push(Seq::<char>::empty());
    assert(p.drop_last() =~= ls);
    assert(ls.map_values(|l: Seq<char>| strip_cr(l)) =~= ls) by {
        assert forall|i: int| 0 <= i < ls.len() implies strip_cr(ls[i]) == ls[i] by {
            assert(clean_line(ls[i]));
        }
    }
}

proof fn lemma_parts_of_joined(ls: Seq<Seq<char>>)
    requires
        forall|i: int| 0 <= i < ls.len() ==> clean_line(#[trigger] ls[i]),
    ensures
        crate::reasoning_suite::parts(joined_lines(ls), '\n') == ls.push(Seq::<char>::empty()),
    decreases ls.len(),
{
    if ls.len() == 0 {
        assert(joined_lines(ls) =~= Seq::<char>::empty());
        assert(ls.push(Seq::<char>::empty()) =~= seq![Seq::<char>::empty()]);
    } else {
        let front = ls.drop_last();
        assert forall|i: int| 0 <= i < front.len() implies clean_line(#[trigger] front[i]) by {
            assert(front[i] == ls[i]);
        }
        lemma_parts_of_joined(front);
        let l = ls.last();
        assert(clean_line(ls[ls.len() - 1]));
        let a = joined_lines(front);
        lemma_parts_extend(a, l, '\n');
        let p = front.push(Seq::<char>::empty());
        assert(p.update(p.len() - 1, p.last() + l) =~= ls) by {
            assert(Seq::<char>::empty() + l =~= l);
        }
        crate::reasoning_suite::lemma_parts_append(a + l, Seq::<char>::empty(), '\n');
        assert(a + l + seq!['\n'] + Seq::<char>::empty() =~= joined_lines(ls));
    }
}

pub proof fn lemma_joined_append(s: Seq<Seq<char>>, t: Seq<Seq<char>>)
    ensures
        joined_lines(s + t) == joined_lines(s) + joined_lines(t),
    decreases t.len(),
{
    if t.len() == 0 {
        assert(s + t =~= s);
        assert(joined_lines(s) + joined_lines(t) =~= joined_lines(s));
    } else {
        lemma_joined_append(s, t.drop_last());
        assert((s + t).drop_last() =~= s + t.drop_last());
        assert((s + t).last() == t.last());
    }
}


/// The line `key=value` of a field.
pub open spec fn kv_line(f: FieldView) -> Seq<char> {
    f.0 + seq!['='] + f.1
}

/// The lines of a field list.
pub open spec fn kv_lines(fs: Seq<FieldView>) -> Seq<Seq<char>> {
    fs.map_values(|f: FieldView| kv_line(f))
}

/// A field that reads back from its line: a non-empty name without `=` or
/// line break, and a value without line break that does not end in `\r`.
pub open spec fn writable_field(f: FieldView) -> bool {
    &&& f.0.len() > 0
    &&& forall|j: int| 0 <= j < f.0.len() ==> #[trigger] f.0[j] != '=' && f.0[j] != '\n'
    &&& forall|j: int| 0 <= j < f.1.len() ==> #[trigger] f.1[j] != '\n'
    &&& (f.1.len() == 0 || f.1.last() != '\r')
}

pub open spec fn writable_fields(fs: Seq<FieldView>) -> bool {
    &&& distinct_keys(fs)
    &&& forall|i: int| 0 <= i < fs.len() ==> writable_field(#[trigger] fs[i])
}

proof fn lemma_kv_line_clean(f: FieldView)
    requires
        writable_field(f),
    ensures
        clean_line(kv_line(f)),
{
    let l = kv_line(f);
    assert forall|i: int| 0 <= i < l.len() implies #[trigger] l[i] != '\n' by {
        if i < f.0.len() {
            assert(l[i] == f.0[i]);
        } else if i > f.0.len() {
            assert(l[i] == f.1[i - f.0.len() - 1]);
        }
    }
    if f.1.len() > 0 {
        assert(l.last() == f.1.last());
    }
}

proof fn lemma_parse_kv_lines(fs: Seq<FieldView>)
    requires
        writable_fields(fs),
    ensures
        parse_lines(kv_lines(fs)) == Some(fs),
    decreases fs.len(),
{
    let ls = kv_lines(fs);
    if fs.len() == 0 {
        assert(ls.len() == 0);
        assert(Seq::<FieldView>::empty() =~= fs);
    } else {
        let front = fs.drop_last();
        assert forall|a: int, b: int| 0 <= a < b < front.len() implies (#[trigger] front[a]).0 != (#[trigger] front[b]).0 by {
            assert(front[a] == fs[a] && front[b] == fs[b]);
        }
        assert forall|i: int| 0 <= i < front.len() implies writable_field(#[trigger] front[i]) by {
            assert(front[i] == fs[i]);
        }
        lemma_parse_kv_lines(front);
        assert(ls.drop_last() =~= kv_lines(front));
        let f = fs.last();
        assert(writable_field(fs[fs.len() - 1]));
        let l = ls.last();
        assert(l == kv_line(f));
        let n = f.0.len() as int;
        assert(l[n] == '=');
        assert forall|j: int| 0 <= j < n implies l[j] != '=' by {
            assert(l[j] == f.0[j]);
        }
        assert(first_eq(l, n));
        let c = choose|i: int| first_eq(l, i);
        assert(c == n) by {
            if c < n {
                assert(l[c] == f.0[c]);
            }
        }
        assert(!has_key(front, l.subrange(0, n))) by {
            assert(l.subrange(0, n) =~= f.0);
            if has_key(front, f.0) {
                let k = choose|k: int| 0 <= k < front.len() && (#[trigger] front[k]).0 == f.0;
                assert(front[k] == fs[k]);
                assert(fs[k].0 != fs[fs.len() - 1].0);
            }
        }
        assert(l.subrange(0, n) =~= f.0);
        assert(l.subrange(n + 1, l.len() as int) =~= f.1);
        assert(front.push((f.0, f.1)) =~= fs);
    }
}

/// The text of a field list, one `key=value` line each, reads back as
/// that list.
pub proof fn lemma_fields_of_written(fs: Seq<FieldView>)
    requires
        writable_fields(fs),
        encode_utf8(joined_lines(kv_lines(fs))).len() <= MAX_PROTOCOL_TEXT_BYTES,
    ensures
        fields_of(joined_lines(kv_lines(fs))) == Some(fs),
{
    let ls = kv_lines(fs);
    assert forall|i: int| 0 <= i < ls.len() implies clean_line(#[trigger] ls[i]) by {
        lemma_kv_line_clean(fs[i]);
    }
    lemma_lines_of_joined(ls);
    lemma_parse_kv_lines(fs);
    let lp = ls.push(Seq::<char>::empty());
    assert(lp.drop_last() =~= ls);
}

/// Writing a list of fields followed by one more field.
pub proof fn lemma_written_push(a: Seq<FieldView>, f: FieldView)
    ensures
        joined_lines(kv_lines(a.push(f))) == joined_lines(kv_lines(a)) + field(f.0, f.1),
{
    assert(kv_lines(a.push(f)) =~= kv_lines(a).push(kv_line(f)));
    assert(kv_lines(a.push(f)).drop_last() =~= kv_lines(a));
    assert(joined_lines(kv_lines(a)) + kv_line(f) + seq!['\n'] =~= joined_lines(kv_lines(a)) + field(f.0, f.1));
}

/// Writing two lists of fields one after the other.
pub proof fn lemma_written_append(a: Seq<FieldView>, b: Seq<FieldView>)
    ensures
        joined_lines(kv_lines(a + b)) == joined_lines(kv_lines(a)) + joined_lines(kv_lines(b)),
{
    assert(kv_lines(a + b) =~= kv_lines(a) + kv_lines(b));
    lemma_joined_append(kv_lines(a), kv_lines(b));
}

} // verus!
