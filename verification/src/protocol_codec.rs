//! Encoding and decoding of tool definitions, requests and responses in the
//! `key=value` line format.

use vstd::prelude::*;
use vstd::utf8::encode_utf8;
use crate::protocol_text::{
    lemma_joined_append, kv_line, lemma_written_append, lemma_written_push,
    bool_text, bool_word, esc, escape, field, fields_of, fields_view, has_key, parse_bool,
    distinct_keys, find_key, lemma_fields_distinct, lookup, parse_fields, push_field, reject_leftovers,
    take, took, unesc, unescape, FieldView, joined_lines, kv_lines, lemma_esc_chars,
    lemma_fields_of_written, lemma_take_field, lemma_unesc_esc, writable_field, writable_fields,
    MAX_PROTOCOL_TEXT_BYTES,
};
use crate::text::{dec, dec_signed, lemma_dec_digits, lemma_parse_dec, parse_bounded, parse_i64_spec, i64_text, join2, parse_i64, parse_unsigned, push_char, push_str, push_u64, same_text, string_from, u64_text};
use crate::tool_protocol::{
    definition_valid, kind_valid, arg_spec_valid, ToolArgKind, ToolArgSpec, ToolArgument, ToolDefinition, ToolError,
    ToolErrorSeverity, ToolProtocolError, ToolRequest, ToolResponse, ToolResult, ToolValue, MAX_ARGS,
};

verus! {

// ---------------------------------------------------------------------------
// Encoded forms
// ---------------------------------------------------------------------------

/// Name of a per-argument field: `arg.<i>.<rest>`.
pub open spec fn arg_key(i: nat, rest: Seq<char>) -> Seq<char> {
    "arg."@ + dec(i) + "."@ + rest
}

pub open spec fn variants_text(i: nat, vs: Seq<String>, n: nat) -> Seq<char>
    decreases n,
{
    if n == 0 || n > vs.len() {
        Seq::empty()
    } else {
        variants_text(i, vs, (n - 1) as nat) + field(arg_key(i, "variant."@ + dec((n - 1) as nat)), esc(vs[n - 1]@))
    }
}

pub open spec fn kind_text(i: nat, kind: ToolArgKind) -> Seq<char> {
    match kind {
        ToolArgKind::String { min_len, max_len } => field(arg_key(i, "kind"@), "string"@)
            + field(arg_key(i, "min_len"@), dec(min_len as nat))
            + field(arg_key(i, "max_len"@), dec(max_len as nat)),
        ToolArgKind::Integer { min, max } => field(arg_key(i, "kind"@), "integer"@)
            + field(arg_key(i, "min"@), dec_signed(min as int))
            + field(arg_key(i, "max"@), dec_signed(max as int)),
        ToolArgKind::Boolean => field(arg_key(i, "kind"@), "boolean"@),
        ToolArgKind::Enum { variants } => field(arg_key(i, "kind"@), "enum"@)
            + field(arg_key(i, "variant_count"@), dec(variants@.len()))
            + variants_text(i, variants@, variants@.len()),
    }
}

pub open spec fn arg_spec_text(i: nat, a: ToolArgSpec) -> Seq<char> {
    field(arg_key(i, "name"@), esc(a.name@)) + field(arg_key(i, "required"@), bool_word(a.required))
        + kind_text(i, a.kind)
}

pub open spec fn arg_specs_text(args: Seq<ToolArgSpec>, n: nat) -> Seq<char>
    decreases n,
{
    if n == 0 || n > args.len() {
        Seq::empty()
    } else {
        arg_specs_text(args, (n - 1) as nat) + arg_spec_text((n - 1) as nat, args[n - 1])
    }
}

/// The encoded text of a definition.
pub open spec fn definition_text(d: ToolDefinition) -> Seq<char> {
    field("auralis_tool_definition"@, dec(d.schema_version as nat))
        + field("name"@, esc(d.name@))
        + field("version"@, dec(d.version as nat))
        + field("capability"@, esc(d.capability@))
        + field("mutative"@, bool_word(d.mutative))
        + field("timeout_ms"@, dec(d.timeout_ms as nat))
        + field("max_result_bytes"@, dec(d.max_result_bytes as nat))
        + field("arg_count"@, dec(d.args@.len()))
        + arg_specs_text(d.args@, d.args@.len())
}

pub open spec fn value_fields(i: nat, v: ToolValue) -> Seq<char> {
    match v {
        ToolValue::String(s) => field(arg_key(i, "type"@), "string"@) + field(arg_key(i, "value"@), esc(s@)),
        ToolValue::Integer(n) => field(arg_key(i, "type"@), "integer"@) + field(arg_key(i, "value"@), dec_signed(n as int)),
        ToolValue::Boolean(b) => field(arg_key(i, "type"@), "boolean"@) + field(arg_key(i, "value"@), bool_word(b)),
    }
}

pub open spec fn arguments_text(args: Seq<ToolArgument>, n: nat) -> Seq<char>
    decreases n,
{
    if n == 0 || n > args.len() {
        Seq::empty()
    } else {
        arguments_text(args, (n - 1) as nat) + field(arg_key((n - 1) as nat, "name"@), esc(args[n - 1].name@))
            + value_fields((n - 1) as nat, args[n - 1].value)
    }
}

/// The encoded text of a request.
pub open spec fn request_text(r: ToolRequest) -> Seq<char> {
    field("auralis_tool_request"@, dec(r.schema_version as nat))
        + field("call_id"@, esc(r.call_id@))
        + field("tool_name"@, esc(r.tool_name@))
        + field("tool_version"@, dec(r.tool_version as nat))
        + field("arg_count"@, dec(r.arguments@.len()))
        + arguments_text(r.arguments@, r.arguments@.len())
}

/// The encoded text of a response.
pub open spec fn response_text(v: ToolResponse) -> Seq<char> {
    match v {
        ToolResponse::Result(r) => field("auralis_tool_result"@, dec(r.schema_version as nat))
            + field("call_id"@, esc(r.call_id@))
            + field("content"@, esc(r.content@)),
        ToolResponse::Error(e) => field("auralis_tool_error"@, dec(e.schema_version as nat))
            + field("call_id"@, esc(e.call_id@))
            + field("severity"@, e.severity.spec_name())
            + field("code"@, esc(e.code@))
            + field("message"@, esc(e.message@)),
    }
}

// ---------------------------------------------------------------------------
// Field helpers
// ---------------------------------------------------------------------------

fn arg_key_string(i: usize, rest: &str) -> (r: String)
    ensures
        r@ == arg_key(i as nat, rest@),
{
    let mut k = string_from("arg.");
    push_u64(&mut k, i as u64);
    push_str(&mut k, ".");
    push_str(&mut k, rest);
    assert(k@ =~= arg_key(i as nat, rest@));
    k
}

fn push_num_field(out: &mut String, key: &str, n: u64)
    ensures
        final(out)@ == old(out)@ + field(key@, dec(n as nat)),
{
    let v = u64_text(n);
    push_field(out, key, v.as_str());
}

fn push_escaped_field(out: &mut String, key: &str, value: &str)
    ensures
        final(out)@ == old(out)@ + field(key@, esc(value@)),
{
    let v = escape(value);
    push_field(out, key, v.as_str());
}


/// Takes a field and reads it as an unsigned number not above `max`.
fn take_unsigned(fields: &mut Vec<(String, String)>, key: &str, max: u64) -> (r: Result<u64, ToolProtocolError>)
    ensures
        r matches Ok(n) ==> n <= max,
        distinct_keys(fields_view(old(fields)@)) ==> {
            let fs = fields_view(old(fields)@);
            &&& r is Ok <==> (lookup(fs, key@) matches Some(raw) && parse_bounded(raw, max as nat) is Some)
            &&& r matches Ok(n) ==> parse_bounded(lookup(fs, key@)->0, max as nat) == Some(n as nat)
                && took(fs, fields_view(final(fields)@), key@)
        },
        r is Err ==> r->Err_0 is Decode,
{
    let raw = take(fields, key)?;
    match parse_unsigned(raw.as_str(), max) {
        Some(n) => Ok(n),
        None => Err(ToolProtocolError::Decode(join2("invalid field ", key))),
    }
}

/// Takes a field and undoes its escaping.
fn take_escaped(fields: &mut Vec<(String, String)>, key: &str) -> (r: Result<String, ToolProtocolError>)
    ensures
        distinct_keys(fields_view(old(fields)@)) ==> {
            let fs = fields_view(old(fields)@);
            &&& r is Ok <==> (lookup(fs, key@) matches Some(raw) && unesc(raw) is Some)
            &&& r matches Ok(v) ==> unesc(lookup(fs, key@)->0) == Some(v@)
                && took(fs, fields_view(final(fields)@), key@)
        },
        r is Err ==> r->Err_0 is Decode,
{
    let raw = take(fields, key)?;
    unescape(raw.as_str())
}

/// Takes a field and reads it as `true` or `false`.
fn take_bool(fields: &mut Vec<(String, String)>, key: &str) -> (r: Result<bool, ToolProtocolError>)
    ensures
        distinct_keys(fields_view(old(fields)@)) ==> {
            let fs = fields_view(old(fields)@);
            &&& r is Ok <==> (lookup(fs, key@) matches Some(raw) && (raw == "true"@ || raw == "false"@))
            &&& r matches Ok(b) ==> lookup(fs, key@) == Some(bool_word(b))
                && took(fs, fields_view(final(fields)@), key@)
        },
        r is Err ==> r->Err_0 is Decode,
{
    let raw = take(fields, key)?;
    parse_bool(raw.as_str())
}

fn push_kind(out: &mut String, i: usize, kind: &ToolArgKind)
    ensures
        final(out)@ == old(out)@ + kind_text(i as nat, *kind),
{
    let ghost before = out@;
    match kind {
        ToolArgKind::String { min_len, max_len } => {
            push_field(out, arg_key_string(i, "kind").as_str(), "string");
            push_num_field(out, arg_key_string(i, "min_len").as_str(), *min_len as u64);
            push_num_field(out, arg_key_string(i, "max_len").as_str(), *max_len as u64);
        },
        ToolArgKind::Integer { min, max } => {
            push_field(out, arg_key_string(i, "kind").as_str(), "integer");
            push_field(out, arg_key_string(i, "min").as_str(), i64_text(*min).as_str());
            push_field(out, arg_key_string(i, "max").as_str(), i64_text(*max).as_str());
        },
        ToolArgKind::Boolean => {
            push_field(out, arg_key_string(i, "kind").as_str(), "boolean");
        },
        ToolArgKind::Enum { variants } => {
            push_field(out, arg_key_string(i, "kind").as_str(), "enum");
            push_num_field(out, arg_key_string(i, "variant_count").as_str(), variants.len() as u64);
            let ghost vhead = out@;
            let mut j: usize = 0;
            while j < variants.len()
                invariant
                    j <= variants.len(),
                    out@ == vhead + variants_text(i as nat, variants@, j as nat),
                decreases variants.len() - j,
            {
                let mut rest = string_from("variant.");
                push_u64(&mut rest, j as u64);
                assert(rest@ =~= "variant."@ + dec(j as nat));
                push_escaped_field(out, arg_key_string(i, rest.as_str()).as_str(), variants[j].as_str());
                j = j + 1;
                assert(out@ =~= vhead + variants_text(i as nat, variants@, j as nat));
            }
        },
    }
    assert(out@ =~= before + kind_text(i as nat, *kind));
}

fn push_arg_spec(out: &mut String, i: usize, spec: &ToolArgSpec)
    ensures
        final(out)@ == old(out)@ + arg_spec_text(i as nat, *spec),
{
    let ghost before = out@;
    push_escaped_field(out, arg_key_string(i, "name").as_str(), spec.name.as_str());
    push_field(out, arg_key_string(i, "required").as_str(), bool_text(spec.required));
    push_kind(out, i, &spec.kind);
    assert(out@ =~= before + arg_spec_text(i as nat, *spec));
}

// ---------------------------------------------------------------------------
// Definitions read from fields
// ---------------------------------------------------------------------------

/// Name of field `j` among the variants of argument `i`.
pub open spec fn variant_key(i: nat, j: nat) -> Seq<char> {
    arg_key(i, "variant."@ + dec(j))
}

pub open spec fn u64_top() -> nat {
    18446744073709551615
}

/// The variant count of argument `i` as the fields give it.
pub open spec fn variant_count_of(fs: Seq<FieldView>, i: nat) -> nat {
    parse_bounded(lookup(fs, arg_key(i, "variant_count"@))->0, usize_top())->0
}

/// The fields of argument `i` that follow its kind are there and well
/// formed for that kind.
pub open spec fn kind_fields_ok(fs: Seq<FieldView>, i: nat, kw: Seq<char>) -> bool {
    if kw == "string"@ {
        &&& lookup(fs, arg_key(i, "min_len"@)) matches Some(v) && parse_bounded(v, usize_top()) is Some
        &&& lookup(fs, arg_key(i, "max_len"@)) matches Some(v) && parse_bounded(v, usize_top()) is Some
    } else if kw == "integer"@ {
        &&& lookup(fs, arg_key(i, "min"@)) matches Some(v) && parse_i64_spec(v) is Some
        &&& lookup(fs, arg_key(i, "max"@)) matches Some(v) && parse_i64_spec(v) is Some
    } else if kw == "boolean"@ {
        true
    } else if kw == "enum"@ {
        &&& lookup(fs, arg_key(i, "variant_count"@)) matches Some(v) && parse_bounded(v, usize_top()) is Some
        &&& variant_count_of(fs, i) <= MAX_ARGS
        &&& forall|j: nat| j < variant_count_of(fs, i) ==>
            ((#[trigger] lookup(fs, variant_key(i, j))) matches Some(v) && unesc(v) is Some)
    } else {
        false
    }
}

/// How many fields argument `i` takes after its name, required flag and kind.
pub open spec fn kind_extra(fs: Seq<FieldView>, i: nat) -> nat {
    let kw = lookup(fs, arg_key(i, "kind"@))->0;
    if kw == "string"@ || kw == "integer"@ {
        2
    } else if kw == "boolean"@ {
        0
    } else {
        1 + variant_count_of(fs, i)
    }
}

/// The fields of argument `i` are there and well formed.
pub open spec fn spec_fields_ok(fs: Seq<FieldView>, i: nat) -> bool {
    &&& lookup(fs, arg_key(i, "name"@)) matches Some(v) && unesc(v) is Some
    &&& lookup(fs, arg_key(i, "required"@)) matches Some(v) && (v == "true"@ || v == "false"@)
    &&& lookup(fs, arg_key(i, "kind"@)) matches Some(kw) && kind_fields_ok(fs, i, kw)
}

/// The number of fields the first `n` arguments take.
pub open spec fn spec_fields_total(fs: Seq<FieldView>, n: nat) -> nat
    decreases n,
{
    if n == 0 {
        0
    } else {
        spec_fields_total(fs, (n - 1) as nat) + 3 + kind_extra(fs, (n - 1) as nat)
    }
}

/// `k` is the kind of argument `i` as the fields give it.
pub open spec fn kind_read(fs: Seq<FieldView>, i: nat, k: ToolArgKind) -> bool {
    match k {
        ToolArgKind::String { min_len, max_len } => {
            &&& lookup(fs, arg_key(i, "kind"@)) == Some("string"@)
            &&& parse_bounded(lookup(fs, arg_key(i, "min_len"@))->0, usize_top()) == Some(min_len as nat)
            &&& parse_bounded(lookup(fs, arg_key(i, "max_len"@))->0, usize_top()) == Some(max_len as nat)
        },
        ToolArgKind::Integer { min, max } => {
            &&& lookup(fs, arg_key(i, "kind"@)) == Some("integer"@)
            &&& parse_i64_spec(lookup(fs, arg_key(i, "min"@))->0) == Some(min)
            &&& parse_i64_spec(lookup(fs, arg_key(i, "max"@))->0) == Some(max)
        },
        ToolArgKind::Boolean => lookup(fs, arg_key(i, "kind"@)) == Some("boolean"@),
        ToolArgKind::Enum { variants } => {
            &&& lookup(fs, arg_key(i, "kind"@)) == Some("enum"@)
            &&& variants@.len() == variant_count_of(fs, i)
            &&& forall|j: nat| j < variants@.len() ==>
                unesc(lookup(fs, #[trigger] variant_key(i, j))->0) == Some(variants@[j as int]@)
        },
    }
}

/// `a` is argument `i` as the fields give it.
pub open spec fn spec_read(fs: Seq<FieldView>, i: nat, a: ToolArgSpec) -> bool {
    &&& unesc(lookup(fs, arg_key(i, "name"@))->0) == Some(a.name@)
    &&& lookup(fs, arg_key(i, "required"@)) == Some(bool_word(a.required))
    &&& kind_read(fs, i, a.kind)
}

pub open spec fn spec_ok_read(fs: Seq<FieldView>, i: int, a: ToolArgSpec) -> bool {
    spec_fields_ok(fs, i as nat) && spec_read(fs, i as nat, a)
}

/// A field list that reads as a definition (before validation): the eight
/// header fields, an argument count within `MAX_ARGS`, the fields of each
/// argument for its kind, and no other field.
pub open spec fn definition_fields_ok(fs: Seq<FieldView>) -> bool {
    &&& lookup(fs, "auralis_tool_definition"@) matches Some(v) && parse_bounded(v, u32_top()) is Some
    &&& lookup(fs, "name"@) matches Some(v) && unesc(v) is Some
    &&& lookup(fs, "version"@) matches Some(v) && parse_bounded(v, u32_top()) is Some
    &&& lookup(fs, "capability"@) matches Some(v) && unesc(v) is Some
    &&& lookup(fs, "mutative"@) matches Some(v) && (v == "true"@ || v == "false"@)
    &&& lookup(fs, "timeout_ms"@) matches Some(v) && parse_bounded(v, u64_top()) is Some
    &&& lookup(fs, "max_result_bytes"@) matches Some(v) && parse_bounded(v, usize_top()) is Some
    &&& lookup(fs, "arg_count"@) matches Some(v) && parse_bounded(v, usize_top()) is Some
    &&& arg_count_of(fs) <= MAX_ARGS
    &&& forall|i: nat| i < arg_count_of(fs) ==> #[trigger] spec_fields_ok(fs, i)
    &&& fs.len() == 8 + spec_fields_total(fs, arg_count_of(fs))
}

/// `d` is what the field list says.
pub open spec fn definition_read(fs: Seq<FieldView>, d: ToolDefinition) -> bool {
    &&& parse_bounded(lookup(fs, "auralis_tool_definition"@)->0, u32_top()) == Some(d.schema_version as nat)
    &&& unesc(lookup(fs, "name"@)->0) == Some(d.name@)
    &&& parse_bounded(lookup(fs, "version"@)->0, u32_top()) == Some(d.version as nat)
    &&& unesc(lookup(fs, "capability"@)->0) == Some(d.capability@)
    &&& lookup(fs, "mutative"@) == Some(bool_word(d.mutative))
    &&& parse_bounded(lookup(fs, "timeout_ms"@)->0, u64_top()) == Some(d.timeout_ms as nat)
    &&& parse_bounded(lookup(fs, "max_result_bytes"@)->0, usize_top()) == Some(d.max_result_bytes as nat)
    &&& d.args@.len() == arg_count_of(fs)
    &&& forall|i: int| 0 <= i < d.args@.len() ==> #[trigger] spec_read(fs, i as nat, d.args@[i])
}

/// Every argument field from argument `i` on is where it was in `fs`.
pub open spec fn keeps_args_from(fm: Seq<FieldView>, fs: Seq<FieldView>, i: nat) -> bool {
    forall|j: nat, x: Seq<char>| i <= j ==> #[trigger] lookup(fm, arg_key(j, x)) == lookup(fs, arg_key(j, x))
}

proof fn lemma_took_keeps(a: Seq<FieldView>, b: Seq<FieldView>, fs: Seq<FieldView>, i: nat, y: Seq<char>)
    requires
        took(a, b, arg_key(i, y)),
        keeps_args_from(a, fs, i + 1),
    ensures
        keeps_args_from(b, fs, i + 1),
{
    assert forall|j: nat, x: Seq<char>| i + 1 <= j implies #[trigger] lookup(b, arg_key(j, x)) == lookup(fs, arg_key(j, x)) by {
        lemma_took_other_arg(a, b, i, y, j, x);
        assert(lookup(a, arg_key(j, x)) == lookup(fs, arg_key(j, x)));
    }
}

/// The suffixes of an argument specification's fields differ.
proof fn lemma_spec_suffixes_differ()
    ensures
        forall|j: nat| #[trigger] ("variant."@ + dec(j)) != "name"@ && "variant."@ + dec(j) != "required"@
            && "variant."@ + dec(j) != "kind"@ && "variant."@ + dec(j) != "variant_count"@,
        forall|j: nat, k: nat| j != k ==> #[trigger] ("variant."@ + dec(j)) != #[trigger] ("variant."@ + dec(k)),
        "name"@ != "required"@,
        "name"@ != "kind"@,
        "required"@ != "kind"@,
        "min_len"@ != "name"@ && "min_len"@ != "required"@ && "min_len"@ != "kind"@,
        "max_len"@ != "name"@ && "max_len"@ != "required"@ && "max_len"@ != "kind"@ && "max_len"@ != "min_len"@,
        "min"@ != "name"@ && "min"@ != "required"@ && "min"@ != "kind"@,
        "max"@ != "name"@ && "max"@ != "required"@ && "max"@ != "kind"@ && "max"@ != "min"@,
        "variant_count"@ != "name"@ && "variant_count"@ != "required"@ && "variant_count"@ != "kind"@,
{
    reveal_strlit("variant.");
    reveal_strlit("name");
    reveal_strlit("required");
    reveal_strlit("kind");
    reveal_strlit("variant_count");
    reveal_strlit("min_len");
    reveal_strlit("max_len");
    reveal_strlit("min");
    reveal_strlit("max");
    assert("name"@.len() == 4 && "required"@.len() == 8 && "kind"@.len() == 4 && "variant_count"@.len() == 13);
    assert("min_len"@.len() == 7 && "max_len"@.len() == 7 && "min"@.len() == 3 && "max"@.len() == 3);
    assert("name"@[0] != "kind"@[0]);
    assert("min_len"@[1] != "max_len"@[1]);
    assert("min"@[1] != "max"@[1]);
    assert forall|j: nat| #[trigger] ("variant."@ + dec(j)) != "name"@ && "variant."@ + dec(j) != "required"@
        && "variant."@ + dec(j) != "kind"@ && "variant."@ + dec(j) != "variant_count"@ by {
        lemma_dec_digits(j);
        let v = "variant."@ + dec(j);
        assert(v[0] == 'v' && v[7] == '.');
        assert(v.len() > 8);
    }
    assert forall|j: nat, k: nat| j != k implies #[trigger] ("variant."@ + dec(j)) != #[trigger] ("variant."@ + dec(k)) by {
        let vj = "variant."@ + dec(j);
        let vk = "variant."@ + dec(k);
        if vj == vk {
            assert(vj.subrange(8, vj.len() as int) =~= dec(j));
            assert(vk.subrange(8, vk.len() as int) =~= dec(k));
            lemma_parse_dec(j);
            lemma_parse_dec(k);
        }
    }
}

/// The header names of a definition differ from one another and from
/// every argument field name.
proof fn lemma_definition_keys()
    ensures
        forall|i: nat, x: Seq<char>| #[trigger] arg_key(i, x) != "auralis_tool_definition"@
            && arg_key(i, x) != "name"@ && arg_key(i, x) != "version"@
            && arg_key(i, x) != "capability"@ && arg_key(i, x) != "mutative"@
            && arg_key(i, x) != "timeout_ms"@ && arg_key(i, x) != "max_result_bytes"@
            && arg_key(i, x) != "arg_count"@,
        "name"@ != "auralis_tool_definition"@,
        "version"@ != "auralis_tool_definition"@ && "version"@ != "name"@,
        "capability"@ != "auralis_tool_definition"@ && "capability"@ != "name"@ && "capability"@ != "version"@,
        "mutative"@ != "auralis_tool_definition"@ && "mutative"@ != "name"@ && "mutative"@ != "version"@
            && "mutative"@ != "capability"@,
        "timeout_ms"@ != "auralis_tool_definition"@ && "timeout_ms"@ != "name"@ && "timeout_ms"@ != "version"@
            && "timeout_ms"@ != "capability"@ && "timeout_ms"@ != "mutative"@,
        "max_result_bytes"@ != "auralis_tool_definition"@ && "max_result_bytes"@ != "name"@
            && "max_result_bytes"@ != "version"@ && "max_result_bytes"@ != "capability"@
            && "max_result_bytes"@ != "mutative"@ && "max_result_bytes"@ != "timeout_ms"@,
        "arg_count"@ != "auralis_tool_definition"@ && "arg_count"@ != "name"@ && "arg_count"@ != "version"@
            && "arg_count"@ != "capability"@ && "arg_count"@ != "mutative"@ && "arg_count"@ != "timeout_ms"@
            && "arg_count"@ != "max_result_bytes"@,
{
    reveal_strlit("auralis_tool_definition");
    reveal_strlit("name");
    reveal_strlit("version");
    reveal_strlit("capability");
    reveal_strlit("mutative");
    reveal_strlit("timeout_ms");
    reveal_strlit("max_result_bytes");
    reveal_strlit("arg_count");
    assert("auralis_tool_definition"@.len() == 23 && "name"@.len() == 4 && "version"@.len() == 7);
    assert("capability"@.len() == 10 && "mutative"@.len() == 8 && "timeout_ms"@.len() == 10);
    assert("max_result_bytes"@.len() == 16 && "arg_count"@.len() == 9);
    assert("capability"@[0] != "timeout_ms"@[0]);
    assert forall|i: nat, x: Seq<char>| #[trigger] arg_key(i, x) != "auralis_tool_definition"@
        && arg_key(i, x) != "name"@ && arg_key(i, x) != "version"@
        && arg_key(i, x) != "capability"@ && arg_key(i, x) != "mutative"@
        && arg_key(i, x) != "timeout_ms"@ && arg_key(i, x) != "max_result_bytes"@
        && arg_key(i, x) != "arg_count"@ by {
        lemma_not_arg_key("auralis_tool_definition"@, i, x);
        lemma_not_arg_key("name"@, i, x);
        lemma_not_arg_key("version"@, i, x);
        lemma_not_arg_key("capability"@, i, x);
        lemma_not_arg_key("mutative"@, i, x);
        lemma_not_arg_key("timeout_ms"@, i, x);
        lemma_not_arg_key("max_result_bytes"@, i, x);
        lemma_not_arg_key("arg_count"@, i, x);
    }
}

/// Taking the eight header fields leaves every argument field where it was.
proof fn lemma_definition_head_keeps(
    fs: Seq<FieldView>, f1: Seq<FieldView>, f2: Seq<FieldView>, f3: Seq<FieldView>,
    f4: Seq<FieldView>, f5: Seq<FieldView>, f6: Seq<FieldView>, f7: Seq<FieldView>, f8: Seq<FieldView>,
)
    requires
        took(fs, f1, "auralis_tool_definition"@),
        took(f1, f2, "name"@),
        took(f2, f3, "version"@),
        took(f3, f4, "capability"@),
        took(f4, f5, "mutative"@),
        took(f5, f6, "timeout_ms"@),
        took(f6, f7, "max_result_bytes"@),
        took(f7, f8, "arg_count"@),
    ensures
        f8.len() + 8 == fs.len(),
        distinct_keys(f8),
        keeps_args_from(f8, fs, 0),
{
    lemma_definition_keys();
    assert forall|j: nat, y: Seq<char>| 0 <= j implies #[trigger] lookup(f8, arg_key(j, y)) == lookup(fs, arg_key(j, y)) by {
        let k = arg_key(j, y);
        assert(lookup(f8, k) == lookup(f7, k));
        assert(lookup(f7, k) == lookup(f6, k));
        assert(lookup(f6, k) == lookup(f5, k));
        assert(lookup(f5, k) == lookup(f4, k));
        assert(lookup(f4, k) == lookup(f3, k));
        assert(lookup(f3, k) == lookup(f2, k));
        assert(lookup(f2, k) == lookup(f1, k));
        assert(lookup(f1, k) == lookup(fs, k));
    }
}

/// After taking the name, required flag and kind of argument `i`, its other
/// fields and every later argument's fields are where they were.
proof fn lemma_took_spec_head(
    g0: Seq<FieldView>, g1: Seq<FieldView>, g2: Seq<FieldView>, g3: Seq<FieldView>, fs: Seq<FieldView>, i: nat,
)
    requires
        keeps_args_from(g0, fs, i),
        took(g0, g1, arg_key(i, "name"@)),
        took(g1, g2, arg_key(i, "required"@)),
        took(g2, g3, arg_key(i, "kind"@)),
    ensures
        keeps_args_from(g3, fs, i + 1),
        forall|z: Seq<char>| z != "name"@ && z != "required"@ && z != "kind"@
            ==> #[trigger] lookup(g3, arg_key(i, z)) == lookup(fs, arg_key(i, z)),
{
    assert(keeps_args_from(g0, fs, i + 1));
    lemma_took_keeps(g0, g1, fs, i, "name"@);
    lemma_took_keeps(g1, g2, fs, i, "required"@);
    lemma_took_keeps(g2, g3, fs, i, "kind"@);
    assert forall|z: Seq<char>| z != "name"@ && z != "required"@ && z != "kind"@
        implies #[trigger] lookup(g3, arg_key(i, z)) == lookup(fs, arg_key(i, z)) by {
        lemma_took_other_arg(g0, g1, i, "name"@, i, z);
        lemma_took_other_arg(g1, g2, i, "required"@, i, z);
        lemma_took_other_arg(g2, g3, i, "kind"@, i, z);
        assert(lookup(g0, arg_key(i, z)) == lookup(fs, arg_key(i, z)));
    }
}

/// Reads the fields of argument `i` of a definition.
fn read_arg_spec(m: &mut Vec<(String, String)>, i: usize, Ghost(fs): Ghost<Seq<FieldView>>) -> (r: Result<ToolArgSpec, ToolProtocolError>)
    requires
        distinct_keys(fields_view(old(m)@)),
        keeps_args_from(fields_view(old(m)@), fs, i as nat),
    ensures
        r matches Ok(a) ==> spec_ok_read(fs, i as int, a)
            && distinct_keys(fields_view(final(m)@))
            && keeps_args_from(fields_view(final(m)@), fs, i as nat + 1)
            && fields_view(final(m)@).len() + 3 + kind_extra(fs, i as nat) == fields_view(old(m)@).len(),
        r is Err ==> r->Err_0 is Decode && !spec_fields_ok(fs, i as nat),
{
    let ghost iv = i as nat;
    let ghost g0 = fields_view(m@);
    proof {
        lemma_spec_suffixes_differ();
        lemma_type_words_differ();
    }
    assert(lookup(g0, arg_key(iv, "name"@)) == lookup(fs, arg_key(iv, "name"@)));
    let name_key = arg_key_string(i, "name");
    let name = match take_escaped(m, name_key.as_str()) {
        Ok(v) => v,
        Err(e) => { return Err(e); },
    };
    let ghost g1 = fields_view(m@);
    proof {
        lemma_took_other_arg(g0, g1, iv, "name"@, iv, "required"@);
        lemma_took_other_arg(g0, g1, iv, "name"@, iv, "kind"@);
        assert(lookup(g0, arg_key(iv, "required"@)) == lookup(fs, arg_key(iv, "required"@)));
        assert(lookup(g0, arg_key(iv, "kind"@)) == lookup(fs, arg_key(iv, "kind"@)));
    }
    let required_key = arg_key_string(i, "required");
    let required = match take_bool(m, required_key.as_str()) {
        Ok(v) => v,
        Err(e) => { return Err(e); },
    };
    let ghost g2 = fields_view(m@);
    proof {
        lemma_took_other_arg(g1, g2, iv, "required"@, iv, "kind"@);
    }
    let kind_key = arg_key_string(i, "kind");
    let kind_text = match take(m, kind_key.as_str()) {
        Ok(v) => v,
        Err(e) => {
            assert(lookup(g2, arg_key(iv, "kind"@)) is None);
            return Err(e);
        },
    };
    let ghost g3 = fields_view(m@);
    proof {
        lemma_took_spec_head(g0, g1, g2, g3, fs, iv);
    }
    assert(kind_text@ == lookup(fs, arg_key(iv, "kind"@))->0);
    let kind = if same_text(kind_text.as_str(), "string") {
        assert(lookup(g3, arg_key(iv, "min_len"@)) == lookup(fs, arg_key(iv, "min_len"@)));
        let min_len = match take_unsigned(m, arg_key_string(i, "min_len").as_str(), usize::MAX as u64) {
            Ok(v) => v as usize,
            Err(e) => { return Err(e); },
        };
        let ghost g4 = fields_view(m@);
        proof {
            lemma_took_other_arg(g3, g4, iv, "min_len"@, iv, "max_len"@);
            assert(lookup(g3, arg_key(iv, "max_len"@)) == lookup(fs, arg_key(iv, "max_len"@)));
            lemma_took_keeps(g3, g4, fs, iv, "min_len"@);
        }
        let max_len = match take_unsigned(m, arg_key_string(i, "max_len").as_str(), usize::MAX as u64) {
            Ok(v) => v as usize,
            Err(e) => { return Err(e); },
        };
        proof {
            lemma_took_keeps(g4, fields_view(m@), fs, iv, "max_len"@);
        }
        ToolArgKind::String { min_len, max_len }
    } else if same_text(kind_text.as_str(), "integer") {
        assert(lookup(g3, arg_key(iv, "min"@)) == lookup(fs, arg_key(iv, "min"@)));
        let min_raw = match take(m, arg_key_string(i, "min").as_str()) {
            Ok(v) => v,
            Err(e) => {
                assert(lookup(g3, arg_key(iv, "min"@)) is None);
                return Err(e);
            },
        };
        let ghost g4 = fields_view(m@);
        proof {
            lemma_took_other_arg(g3, g4, iv, "min"@, iv, "max"@);
            assert(lookup(g3, arg_key(iv, "max"@)) == lookup(fs, arg_key(iv, "max"@)));
            lemma_took_keeps(g3, g4, fs, iv, "min"@);
        }
        let max_raw = match take(m, arg_key_string(i, "max").as_str()) {
            Ok(v) => v,
            Err(e) => {
                assert(lookup(g4, arg_key(iv, "max"@)) is None);
                return Err(e);
            },
        };
        proof {
            lemma_took_keeps(g4, fields_view(m@), fs, iv, "max"@);
        }
        match (parse_i64(min_raw.as_str()), parse_i64(max_raw.as_str())) {
            (Some(min), Some(max)) => ToolArgKind::Integer { min, max },
            _ => {
                return Err(ToolProtocolError::Decode(string_from("invalid integer bound")));
            },
        }
    } else if same_text(kind_text.as_str(), "boolean") {
        ToolArgKind::Boolean
    } else if same_text(kind_text.as_str(), "enum") {
        assert(lookup(g3, arg_key(iv, "variant_count"@)) == lookup(fs, arg_key(iv, "variant_count"@)));
        let n = match take_unsigned(m, arg_key_string(i, "variant_count").as_str(), usize::MAX as u64) {
            Ok(v) => v as usize,
            Err(e) => { return Err(e); },
        };
        if n > MAX_ARGS {
            return Err(ToolProtocolError::Decode(string_from("enum variant count exceeds limit")));
        }
        let ghost h = fields_view(m@);
        proof {
            lemma_took_keeps(g3, h, fs, iv, "variant_count"@);
            assert forall|jj: nat| 0 <= jj implies #[trigger] lookup(h, variant_key(iv, jj)) == lookup(fs, variant_key(iv, jj)) by {
                lemma_took_other_arg(g3, h, iv, "variant_count"@, iv, "variant."@ + dec(jj));
                assert(lookup(g3, arg_key(iv, "variant."@ + dec(jj))) == lookup(fs, arg_key(iv, "variant."@ + dec(jj))));
            }
        }
        let mut variants: Vec<String> = Vec::new();
        let mut j: usize = 0;
        while j < n
            invariant
                iv == i as nat,
                n as nat == variant_count_of(fs, iv),
                n <= MAX_ARGS,
                lookup(fs, arg_key(iv, "kind"@)) == Some("enum"@),
                j <= n,
                variants@.len() == j,
                distinct_keys(fields_view(m@)),
                keeps_args_from(fields_view(m@), fs, iv + 1),
                fields_view(m@).len() + j == h.len(),
                forall|jj: nat| j <= jj ==> #[trigger] lookup(fields_view(m@), variant_key(iv, jj)) == lookup(fs, variant_key(iv, jj)),
                forall|t: nat| t < j ==> lookup(fs, #[trigger] variant_key(iv, t)) is Some
                    && unesc(lookup(fs, variant_key(iv, t))->0) == Some(variants@[t as int]@),
            decreases n - j,
        {
            let ghost v0 = fields_view(m@);
            proof {
                lemma_spec_suffixes_differ();
                lemma_type_words_differ();
            }
            assert(lookup(v0, variant_key(iv, j as nat)) == lookup(fs, variant_key(iv, j as nat)));
            let mut rest = string_from("variant.");
            push_u64(&mut rest, j as u64);
            assert(rest@ == "variant."@ + dec(j as nat));
            let v = match take_escaped(m, arg_key_string(i, rest.as_str()).as_str()) {
                Ok(v) => v,
                Err(e) => {
                    assert(lookup(fs, variant_key(iv, j as nat)) == lookup(v0, arg_key(iv, rest@)));
                    assert(!kind_fields_ok(fs, iv, "enum"@));
                    return Err(e);
                },
            };
            let ghost v1 = fields_view(m@);
            proof {
                lemma_took_keeps(v0, v1, fs, iv, rest@);
                assert forall|jj: nat| j + 1 <= jj implies #[trigger] lookup(v1, variant_key(iv, jj)) == lookup(fs, variant_key(iv, jj)) by {
                    lemma_took_other_arg(v0, v1, iv, rest@, iv, "variant."@ + dec(jj));
                }
            }
            let ghost old_variants = variants@;
            variants.push(v);
            proof {
                assert forall|t: nat| t < j + 1 implies lookup(fs, #[trigger] variant_key(iv, t)) is Some
                    && unesc(lookup(fs, variant_key(iv, t))->0) == Some(variants@[t as int]@) by {
                    if t < j {
                        assert(variants@[t as int] == old_variants[t as int]);
                    }
                }
            }
            j = j + 1;
        }
        ToolArgKind::Enum { variants }
    } else {
        return Err(ToolProtocolError::Decode(join2("unknown argument kind ", kind_text.as_str())));
    };
    let a = ToolArgSpec { name, required, kind };
    assert(spec_fields_ok(fs, iv));
    assert(spec_read(fs, iv, a));
    Ok(a)
}

// ---------------------------------------------------------------------------
// Definitions
// ---------------------------------------------------------------------------

impl ToolDefinition {
    /// The `key=value` text of a valid definition.
    pub fn encode(&self) -> (r: String)
        requires
            definition_valid(*self),
        ensures
            r@ == definition_text(*self),
    {
        let mut out = String::new();
        push_num_field(&mut out, "auralis_tool_definition", self.schema_version as u64);
        push_escaped_field(&mut out, "name", self.name.as_str());
        push_num_field(&mut out, "version", self.version as u64);
        push_escaped_field(&mut out, "capability", self.capability.as_str());
        push_field(&mut out, "mutative", bool_text(self.mutative));
        push_num_field(&mut out, "timeout_ms", self.timeout_ms);
        push_num_field(&mut out, "max_result_bytes", self.max_result_bytes as u64);
        push_num_field(&mut out, "arg_count", self.args.len() as u64);
        let ghost head = out@;
        let mut i: usize = 0;
        while i < self.args.len()
            invariant
                i <= self.args.len(),
                out@ == head + arg_specs_text(self.args@, i as nat),
            decreases self.args.len() - i,
        {
            push_arg_spec(&mut out, i, &self.args[i]);
            i = i + 1;
            assert(out@ =~= head + arg_specs_text(self.args@, i as nat));
        }
        assert(out@ =~= definition_text(*self));
        out
    }

    /// Reads a definition from its text and validates it; unknown, repeated
    /// or missing fields and malformed values are decode errors, and a
    /// well-formed text whose definition fails validation gives the
    /// validation error.
    pub fn decode(text: &str) -> (r: Result<ToolDefinition, ToolProtocolError>)
        ensures
            (fields_of(text@) matches Some(fs) && definition_fields_ok(fs))
                <==> (r is Ok || r matches Err(ToolProtocolError::Definition(_))),
            r matches Ok(d) ==> definition_read(fields_of(text@)->0, d) && definition_valid(d),
            r matches Err(ToolProtocolError::Definition(_)) ==> forall|d: ToolDefinition|
                #[trigger] definition_read(fields_of(text@)->0, d) ==> !definition_valid(d),
            r is Err ==> r->Err_0 is Decode || r->Err_0 is Definition,
    {
        let mut m = parse_fields(text)?;
        let ghost fs = fields_view(m@);
        proof {
            lemma_fields_distinct(text@);
            lemma_definition_keys();
        }
        let schema_version = take_unsigned(&mut m, "auralis_tool_definition", 4294967295u64)? as u32;
        let ghost f1 = fields_view(m@);
        assert(lookup(f1, "name"@) == lookup(fs, "name"@));
        let name = take_escaped(&mut m, "name")?;
        let ghost f2 = fields_view(m@);
        assert(lookup(f2, "version"@) == lookup(f1, "version"@));
        assert(lookup(f1, "version"@) == lookup(fs, "version"@));
        let version = take_unsigned(&mut m, "version", 4294967295u64)? as u32;
        let ghost f3 = fields_view(m@);
        assert(lookup(f3, "capability"@) == lookup(f2, "capability"@));
        assert(lookup(f2, "capability"@) == lookup(f1, "capability"@));
        assert(lookup(f1, "capability"@) == lookup(fs, "capability"@));
        let capability = take_escaped(&mut m, "capability")?;
        let ghost f4 = fields_view(m@);
        assert(lookup(f4, "mutative"@) == lookup(f3, "mutative"@));
        assert(lookup(f3, "mutative"@) == lookup(f2, "mutative"@));
        assert(lookup(f2, "mutative"@) == lookup(f1, "mutative"@));
        assert(lookup(f1, "mutative"@) == lookup(fs, "mutative"@));
        let mutative = take_bool(&mut m, "mutative")?;
        let ghost f5 = fields_view(m@);
        assert(lookup(f5, "timeout_ms"@) == lookup(f4, "timeout_ms"@));
        assert(lookup(f4, "timeout_ms"@) == lookup(f3, "timeout_ms"@));
        assert(lookup(f3, "timeout_ms"@) == lookup(f2, "timeout_ms"@));
        assert(lookup(f2, "timeout_ms"@) == lookup(f1, "timeout_ms"@));
        assert(lookup(f1, "timeout_ms"@) == lookup(fs, "timeout_ms"@));
        let timeout_ms = take_unsigned(&mut m, "timeout_ms", 18446744073709551615u64)?;
        let ghost f6 = fields_view(m@);
        assert(lookup(f6, "max_result_bytes"@) == lookup(f5, "max_result_bytes"@));
        assert(lookup(f5, "max_result_bytes"@) == lookup(f4, "max_result_bytes"@));
        assert(lookup(f4, "max_result_bytes"@) == lookup(f3, "max_result_bytes"@));
        assert(lookup(f3, "max_result_bytes"@) == lookup(f2, "max_result_bytes"@));
        assert(lookup(f2, "max_result_bytes"@) == lookup(f1, "max_result_bytes"@));
        assert(lookup(f1, "max_result_bytes"@) == lookup(fs, "max_result_bytes"@));
        let max_result_bytes = take_unsigned(&mut m, "max_result_bytes", usize::MAX as u64)? as usize;
        let ghost f7 = fields_view(m@);
        assert(lookup(f7, "arg_count"@) == lookup(f6, "arg_count"@));
        assert(lookup(f6, "arg_count"@) == lookup(f5, "arg_count"@));
        assert(lookup(f5, "arg_count"@) == lookup(f4, "arg_count"@));
        assert(lookup(f4, "arg_count"@) == lookup(f3, "arg_count"@));
        assert(lookup(f3, "arg_count"@) == lookup(f2, "arg_count"@));
        assert(lookup(f2, "arg_count"@) == lookup(f1, "arg_count"@));
        assert(lookup(f1, "arg_count"@) == lookup(fs, "arg_count"@));
        let count = take_unsigned(&mut m, "arg_count", usize::MAX as u64)? as usize;
        if count > MAX_ARGS {
            return Err(ToolProtocolError::Decode(string_from("arg_count exceeds limit")));
        }
        let ghost f8 = fields_view(m@);
        proof {
            lemma_definition_head_keeps(fs, f1, f2, f3, f4, f5, f6, f7, f8);
        }
        let mut args: Vec<ToolArgSpec> = Vec::new();
        let mut i: usize = 0;
        while i < count
            invariant
                fields_of(text@) == Some(fs),
                count <= MAX_ARGS,
                count as nat == arg_count_of(fs),
                i <= count,
                args.len() == i,
                distinct_keys(fields_view(m@)),
                keeps_args_from(fields_view(m@), fs, i as nat),
                fields_view(m@).len() + 8 + spec_fields_total(fs, i as nat) == fs.len(),
                forall|t: int| 0 <= t < i ==> #[trigger] spec_ok_read(fs, t, args@[t]),
            decreases count - i,
        {
            let a = match read_arg_spec(&mut m, i, Ghost(fs)) {
                Ok(a) => a,
                Err(e) => {
                    assert(!definition_fields_ok(fs)) by {
                        if definition_fields_ok(fs) {
                            assert(spec_fields_ok(fs, i as nat));
                        }
                    }
                    return Err(e);
                },
            };
            let ghost old_args = args@;
            args.push(a);
            proof {
                assert forall|t: int| 0 <= t < i + 1 implies #[trigger] spec_ok_read(fs, t, args@[t]) by {
                    if t < i {
                        assert(args@[t] == old_args[t]);
                    }
                }
            }
            i = i + 1;
        }
        if m.len() > 0 {
            return Err(ToolProtocolError::Decode(join2("unknown field ", m[0].0.as_str())));
        }
        assert forall|j: nat| j < arg_count_of(fs) implies #[trigger] spec_fields_ok(fs, j) by {
            assert(spec_ok_read(fs, j as int, args@[j as int]));
        }
        assert forall|j: int| 0 <= j < args@.len() implies #[trigger] spec_read(fs, j as nat, args@[j]) by {
            assert(spec_ok_read(fs, j, args@[j]));
        }
        let out = ToolDefinition {
            schema_version,
            name,
            version,
            capability,
            mutative,
            timeout_ms,
            max_result_bytes,
            args,
        };
        assert(definition_read(fs, out));
        match out.validate() {
            Ok(()) => Ok(out),
            Err(e) => {
                assert forall|d: ToolDefinition| #[trigger] definition_read(fs, d) implies !definition_valid(d) by {
                    lemma_definition_read_unique(fs, out, d);
                }
                Err(e)
            },
        }
    }
}

fn push_argument(out: &mut String, i: usize, arg: &ToolArgument)
    ensures
        final(out)@ == old(out)@ + field(arg_key(i as nat, "name"@), esc(arg.name@)) + value_fields(i as nat, arg.value),
{
    let ghost before = out@;
    push_escaped_field(out, arg_key_string(i, "name").as_str(), arg.name.as_str());
    let ghost mid = out@;
    match &arg.value {
        ToolValue::String(v) => {
            push_field(out, arg_key_string(i, "type").as_str(), "string");
            push_escaped_field(out, arg_key_string(i, "value").as_str(), v.as_str());
        },
        ToolValue::Integer(v) => {
            push_field(out, arg_key_string(i, "type").as_str(), "integer");
            push_field(out, arg_key_string(i, "value").as_str(), i64_text(*v).as_str());
        },
        ToolValue::Boolean(v) => {
            push_field(out, arg_key_string(i, "type").as_str(), "boolean");
            push_field(out, arg_key_string(i, "value").as_str(), bool_text(*v));
        },
    }
    assert(out@ =~= mid + value_fields(i as nat, arg.value));
    assert(out@ =~= before + field(arg_key(i as nat, "name"@), esc(arg.name@)) + value_fields(i as nat, arg.value));
}

// ---------------------------------------------------------------------------
// Requests
// ---------------------------------------------------------------------------

/// The value of an argument as its type word and raw value give it.
pub open spec fn value_read(ty: Seq<char>, raw: Seq<char>, v: ToolValue) -> bool {
    match v {
        ToolValue::String(s) => ty == "string"@ && unesc(raw) == Some(s@),
        ToolValue::Integer(n) => ty == "integer"@ && parse_i64_spec(raw) == Some(n),
        ToolValue::Boolean(b) => ty == "boolean"@ && raw == bool_word(b),
    }
}

/// A type word and raw value that read as an argument value.
pub open spec fn value_ok(ty: Seq<char>, raw: Seq<char>) -> bool {
    ||| ty == "string"@ && unesc(raw) is Some
    ||| ty == "integer"@ && parse_i64_spec(raw) is Some
    ||| ty == "boolean"@ && (raw == "true"@ || raw == "false"@)
}

/// The three fields of argument `i` are there and well formed.
pub open spec fn argument_fields_ok(fs: Seq<FieldView>, i: int) -> bool {
    &&& lookup(fs, arg_key(i as nat, "name"@)) matches Some(v) && unesc(v) is Some
    &&& lookup(fs, arg_key(i as nat, "value"@)) is Some
    &&& lookup(fs, arg_key(i as nat, "type"@)) is Some
    &&& value_ok(lookup(fs, arg_key(i as nat, "type"@))->0, lookup(fs, arg_key(i as nat, "value"@))->0)
}

/// `a` is argument `i` as the fields give it.
pub open spec fn argument_read(fs: Seq<FieldView>, i: int, a: ToolArgument) -> bool {
    &&& unesc(lookup(fs, arg_key(i as nat, "name"@))->0) == Some(a.name@)
    &&& value_read(lookup(fs, arg_key(i as nat, "type"@))->0, lookup(fs, arg_key(i as nat, "value"@))->0, a.value)
}

pub open spec fn usize_top() -> nat {
    usize::MAX as nat
}

pub open spec fn argument_ok_read(fs: Seq<FieldView>, i: int, a: ToolArgument) -> bool {
    argument_fields_ok(fs, i) && argument_read(fs, i, a)
}

/// The argument count a request's fields give.
pub open spec fn arg_count_of(fs: Seq<FieldView>) -> nat {
    parse_bounded(lookup(fs, "arg_count"@)->0, usize_top())->0
}

/// A field list that decodes to a request: the header fields, an argument
/// count within `MAX_ARGS`, three well-formed fields per argument and no
/// other field.
pub open spec fn request_fields_ok(fs: Seq<FieldView>) -> bool {
    &&& lookup(fs, "auralis_tool_request"@) matches Some(v) && parse_bounded(v, u32_top()) is Some
    &&& lookup(fs, "call_id"@) matches Some(v) && unesc(v) is Some
    &&& lookup(fs, "tool_name"@) matches Some(v) && unesc(v) is Some
    &&& lookup(fs, "tool_version"@) matches Some(v) && parse_bounded(v, u32_top()) is Some
    &&& lookup(fs, "arg_count"@) matches Some(v) && parse_bounded(v, usize_top()) is Some
    &&& arg_count_of(fs) <= MAX_ARGS
    &&& forall|i: int| 0 <= i < arg_count_of(fs) ==> #[trigger] argument_fields_ok(fs, i)
    &&& fs.len() == 5 + 3 * arg_count_of(fs)
}

/// The header of a request as the fields give it.
pub open spec fn request_head_read(fs: Seq<FieldView>, schema_version: u32, call_id: Seq<char>, tool_name: Seq<char>, tool_version: u32) -> bool {
    &&& parse_bounded(lookup(fs, "auralis_tool_request"@)->0, u32_top()) == Some(schema_version as nat)
    &&& unesc(lookup(fs, "call_id"@)->0) == Some(call_id)
    &&& unesc(lookup(fs, "tool_name"@)->0) == Some(tool_name)
    &&& parse_bounded(lookup(fs, "tool_version"@)->0, u32_top()) == Some(tool_version as nat)
}

/// `q` is what the field list says.
pub open spec fn request_read(fs: Seq<FieldView>, q: ToolRequest) -> bool {
    &&& request_head_read(fs, q.schema_version, q.call_id@, q.tool_name@, q.tool_version)
    &&& q.arguments@.len() == arg_count_of(fs)
    &&& forall|i: int| 0 <= i < q.arguments@.len() ==> #[trigger] argument_read(fs, i, q.arguments@[i])
}

/// The header names of a request differ from one another and from every
/// argument field name.
proof fn lemma_request_keys()
    ensures
        "call_id"@ != "auralis_tool_request"@,
        "tool_name"@ != "auralis_tool_request"@,
        "tool_name"@ != "call_id"@,
        "tool_version"@ != "auralis_tool_request"@,
        "tool_version"@ != "call_id"@,
        "tool_version"@ != "tool_name"@,
        "arg_count"@ != "auralis_tool_request"@,
        "arg_count"@ != "call_id"@,
        "arg_count"@ != "tool_name"@,
        "arg_count"@ != "tool_version"@,
        forall|i: nat, x: Seq<char>| #[trigger] arg_key(i, x) != "auralis_tool_request"@
            && arg_key(i, x) != "call_id"@ && arg_key(i, x) != "tool_name"@
            && arg_key(i, x) != "tool_version"@ && arg_key(i, x) != "arg_count"@,
{
    reveal_strlit("auralis_tool_request");
    reveal_strlit("call_id");
    reveal_strlit("tool_name");
    reveal_strlit("tool_version");
    reveal_strlit("arg_count");
    assert("auralis_tool_request"@.len() == 20);
    assert("call_id"@.len() == 7);
    assert("tool_name"@.len() == 9);
    assert("tool_version"@.len() == 12);
    assert("arg_count"@.len() == 9);
    assert("tool_name"@[0] != "arg_count"@[0]);
    assert forall|i: nat, x: Seq<char>| #[trigger] arg_key(i, x) != "auralis_tool_request"@
        && arg_key(i, x) != "call_id"@ && arg_key(i, x) != "tool_name"@
        && arg_key(i, x) != "tool_version"@ && arg_key(i, x) != "arg_count"@ by {
        lemma_not_arg_key("auralis_tool_request"@, i, x);
        lemma_not_arg_key("call_id"@, i, x);
        lemma_not_arg_key("tool_name"@, i, x);
        lemma_not_arg_key("tool_version"@, i, x);
        lemma_not_arg_key("arg_count"@, i, x);
    }
}

proof fn lemma_suffixes_differ()
    ensures
        "name"@ != "value"@,
        "name"@ != "type"@,
        "value"@ != "type"@,
{
    reveal_strlit("name");
    reveal_strlit("value");
    reveal_strlit("type");
    assert("name"@.len() == 4 && "type"@.len() == 4 && "value"@.len() == 5);
    assert("name"@[0] != "type"@[0]);
}

proof fn lemma_type_words_differ()
    ensures
        "string"@ != "integer"@,
        "string"@ != "boolean"@,
        "integer"@ != "boolean"@,
        "enum"@ != "string"@ && "enum"@ != "integer"@ && "enum"@ != "boolean"@,
{
    reveal_strlit("string");
    reveal_strlit("integer");
    reveal_strlit("boolean");
    reveal_strlit("enum");
    assert("string"@.len() == 6 && "integer"@.len() == 7 && "boolean"@.len() == 7 && "enum"@.len() == 4);
    assert("integer"@[0] != "boolean"@[0]);
}

/// Taking argument field `(i, x)` leaves field `(j, y)` where it was.
proof fn lemma_took_other_arg(before: Seq<FieldView>, after: Seq<FieldView>, i: nat, x: Seq<char>, j: nat, y: Seq<char>)
    requires
        took(before, after, arg_key(i, x)),
        i != j || x != y,
    ensures
        lookup(after, arg_key(j, y)) == lookup(before, arg_key(j, y)),
{
    if arg_key(j, y) == arg_key(i, x) {
        lemma_arg_key_injective(i, x, j, y);
    }
    assert(lookup(after, arg_key(j, y)) == lookup(before, arg_key(j, y)));
}

/// Taking the five header fields leaves every argument field where it was.
proof fn lemma_head_keeps_args(fs: Seq<FieldView>, f1: Seq<FieldView>, f2: Seq<FieldView>, f3: Seq<FieldView>, f4: Seq<FieldView>, f5: Seq<FieldView>)
    requires
        took(fs, f1, "auralis_tool_request"@),
        took(f1, f2, "call_id"@),
        took(f2, f3, "tool_name"@),
        took(f3, f4, "tool_version"@),
        took(f4, f5, "arg_count"@),
    ensures
        f5.len() + 5 == fs.len(),
        distinct_keys(f5),
        forall|j: nat, y: Seq<char>| #[trigger] lookup(f5, arg_key(j, y)) == lookup(fs, arg_key(j, y)),
{
    lemma_request_keys();
    assert forall|j: nat, y: Seq<char>| #[trigger] lookup(f5, arg_key(j, y)) == lookup(fs, arg_key(j, y)) by {
        let k = arg_key(j, y);
        assert(k != "arg_count"@ && k != "tool_version"@ && k != "tool_name"@ && k != "call_id"@ && k != "auralis_tool_request"@);
        assert(lookup(f5, k) == lookup(f4, k));
        assert(lookup(f4, k) == lookup(f3, k));
        assert(lookup(f3, k) == lookup(f2, k));
        assert(lookup(f2, k) == lookup(f1, k));
        assert(lookup(f1, k) == lookup(fs, k));
    }
}

impl ToolRequest {
    /// The `key=value` text of a request.
    pub fn encode(&self) -> (r: String)
        ensures
            r@ == request_text(*self),
    {
        let mut out = String::new();
        push_num_field(&mut out, "auralis_tool_request", self.schema_version as u64);
        push_escaped_field(&mut out, "call_id", self.call_id.as_str());
        push_escaped_field(&mut out, "tool_name", self.tool_name.as_str());
        push_num_field(&mut out, "tool_version", self.tool_version as u64);
        push_num_field(&mut out, "arg_count", self.arguments.len() as u64);
        let ghost head = out@;
        let mut i: usize = 0;
        while i < self.arguments.len()
            invariant
                i <= self.arguments.len(),
                out@ == head + arguments_text(self.arguments@, i as nat),
            decreases self.arguments.len() - i,
        {
            push_argument(&mut out, i, &self.arguments[i]);
            i = i + 1;
            assert(out@ =~= head + arguments_text(self.arguments@, i as nat));
        }
        assert(out@ =~= request_text(*self));
        out
    }

    /// Reads a request from its text; unknown, repeated or missing fields
    /// and malformed values are errors.
    pub fn decode(text: &str) -> (r: Result<ToolRequest, ToolProtocolError>)
        ensures
            r is Ok <==> (fields_of(text@) matches Some(fs) && request_fields_ok(fs)),
            r matches Ok(q) ==> request_read(fields_of(text@)->0, q),
            r is Err ==> r->Err_0 is Decode,
    {
        let mut m = parse_fields(text)?;
        let ghost fs = fields_view(m@);
        proof {
            lemma_fields_distinct(text@);
            lemma_request_keys();
        }
        let schema_version = take_unsigned(&mut m, "auralis_tool_request", 4294967295u64)? as u32;
        let ghost f1 = fields_view(m@);
        assert(lookup(f1, "call_id"@) == lookup(fs, "call_id"@));
        let call_id = take_escaped(&mut m, "call_id")?;
        let ghost f2 = fields_view(m@);
        assert(lookup(f2, "tool_name"@) == lookup(f1, "tool_name"@));
        assert(lookup(f1, "tool_name"@) == lookup(fs, "tool_name"@));
        let tool_name = take_escaped(&mut m, "tool_name")?;
        let ghost f3 = fields_view(m@);
        assert(lookup(f3, "tool_version"@) == lookup(f2, "tool_version"@));
        assert(lookup(f2, "tool_version"@) == lookup(f1, "tool_version"@));
        assert(lookup(f1, "tool_version"@) == lookup(fs, "tool_version"@));
        let tool_version = take_unsigned(&mut m, "tool_version", 4294967295u64)? as u32;
        let ghost f4 = fields_view(m@);
        assert(lookup(f4, "arg_count"@) == lookup(f3, "arg_count"@));
        assert(lookup(f3, "arg_count"@) == lookup(f2, "arg_count"@));
        assert(lookup(f2, "arg_count"@) == lookup(f1, "arg_count"@));
        assert(lookup(f1, "arg_count"@) == lookup(fs, "arg_count"@));
        let count = take_unsigned(&mut m, "arg_count", usize::MAX as u64)? as usize;
        if count > MAX_ARGS {
            return Err(ToolProtocolError::Decode(string_from("arg_count exceeds limit")));
        }
        let ghost f5 = fields_view(m@);
        proof {
            lemma_head_keeps_args(fs, f1, f2, f3, f4, f5);
        }
        let mut arguments: Vec<ToolArgument> = Vec::new();
        let mut i: usize = 0;
        while i < count
            invariant
                count <= MAX_ARGS,
                fields_of(text@) == Some(fs),
                count as nat == arg_count_of(fs),
                request_head_read(fs, schema_version, call_id@, tool_name@, tool_version),
                i <= count,
                arguments.len() == i,
                distinct_keys(fields_view(m@)),
                fields_view(m@).len() + 5 + 3 * i == fs.len(),
                forall|j: nat| i <= j ==> lookup(fields_view(m@), #[trigger] arg_key(j, "name"@)) == lookup(fs, arg_key(j, "name"@)),
                forall|j: nat| i <= j ==> lookup(fields_view(m@), #[trigger] arg_key(j, "value"@)) == lookup(fs, arg_key(j, "value"@)),
                forall|j: nat| i <= j ==> lookup(fields_view(m@), #[trigger] arg_key(j, "type"@)) == lookup(fs, arg_key(j, "type"@)),
                forall|t: int| 0 <= t < i ==> #[trigger] argument_ok_read(fs, t, arguments@[t]),
                request_fields_ok(fs) ==> forall|j: int| 0 <= j < count ==> #[trigger] argument_fields_ok(fs, j),
            decreases count - i,
        {
            let ghost g0 = fields_view(m@);
            let ghost iv = i as nat;
            let ghost ii = i as int;
            assert(lookup(g0, arg_key(iv, "name"@)) == lookup(fs, arg_key(iv, "name"@)));
            assert(lookup(g0, arg_key(iv, "value"@)) == lookup(fs, arg_key(iv, "value"@)));
            assert(lookup(g0, arg_key(iv, "type"@)) == lookup(fs, arg_key(iv, "type"@)));
            assert(request_fields_ok(fs) ==> argument_fields_ok(fs, ii));
            let name_key = arg_key_string(i, "name");
            let name = match take_escaped(&mut m, name_key.as_str()) {
                Ok(v) => v,
                Err(e) => {
                    assert(name_key@ == arg_key(iv, "name"@));
                    assert(!argument_fields_ok(fs, ii));
                    return Err(e);
                },
            };
            let ghost g1 = fields_view(m@);
            proof {
                lemma_suffixes_differ();
                lemma_took_other_arg(g0, g1, iv, "name"@, iv, "value"@);
                lemma_took_other_arg(g0, g1, iv, "name"@, iv, "type"@);
            }
            let value_key = arg_key_string(i, "value");
            let raw = match take(&mut m, value_key.as_str()) {
                Ok(v) => v,
                Err(e) => {
                    assert(value_key@ == arg_key(iv, "value"@));
                    assert(!has_key(g1, arg_key(iv, "value"@)));
                    assert(lookup(g1, arg_key(iv, "value"@)) is None);
                    assert(!argument_fields_ok(fs, ii));
                    return Err(e);
                },
            };
            let ghost g2 = fields_view(m@);
            proof {
                lemma_took_other_arg(g1, g2, iv, "value"@, iv, "type"@);
            }
            let type_key = arg_key_string(i, "type");
            let ty = match take(&mut m, type_key.as_str()) {
                Ok(v) => v,
                Err(e) => {
                    assert(type_key@ == arg_key(iv, "type"@));
                    assert(lookup(g2, arg_key(iv, "type"@)) is None);
                    assert(!argument_fields_ok(fs, ii));
                    return Err(e);
                },
            };
            let ghost g3 = fields_view(m@);
            assert(raw@ == lookup(fs, arg_key(iv, "value"@))->0);
            assert(ty@ == lookup(fs, arg_key(iv, "type"@))->0);
            assert(unesc(lookup(fs, arg_key(iv, "name"@))->0) == Some(name@));
            proof { lemma_type_words_differ(); }
            let value = if same_text(ty.as_str(), "string") {
                match unescape(raw.as_str()) {
                    Ok(v) => ToolValue::String(v),
                    Err(e) => {
                        assert(!argument_fields_ok(fs, ii));
                        return Err(e);
                    },
                }
            } else if same_text(ty.as_str(), "integer") {
                match parse_i64(raw.as_str()) {
                    Some(v) => ToolValue::Integer(v),
                    None => {
                        assert(!argument_fields_ok(fs, ii));
                        return Err(ToolProtocolError::Decode(join2("invalid integer for ", name.as_str())));
                    },
                }
            } else if same_text(ty.as_str(), "boolean") {
                match parse_bool(raw.as_str()) {
                    Ok(b) => ToolValue::Boolean(b),
                    Err(e) => {
                        assert(!argument_fields_ok(fs, ii));
                        return Err(e);
                    },
                }
            } else {
                assert(!argument_fields_ok(fs, ii));
                return Err(ToolProtocolError::Decode(join2("unknown request argument type ", ty.as_str())));
            };
            let arg = ToolArgument { name, value };
            assert(argument_fields_ok(fs, ii));
            assert(argument_read(fs, ii, arg));
            let ghost old_args = arguments@;
            arguments.push(arg);
            assert(arguments@[i as int] == arg);
            assert(argument_ok_read(fs, ii, arguments@[ii]));
            proof {
                assert forall|j: nat| iv + 1 <= j implies lookup(g3, #[trigger] arg_key(j, "name"@)) == lookup(fs, arg_key(j, "name"@)) by {
                    lemma_took_other_arg(g0, g1, iv, "name"@, j, "name"@);
                    lemma_took_other_arg(g1, g2, iv, "value"@, j, "name"@);
                    lemma_took_other_arg(g2, g3, iv, "type"@, j, "name"@);
                }
                assert forall|j: nat| iv + 1 <= j implies lookup(g3, #[trigger] arg_key(j, "value"@)) == lookup(fs, arg_key(j, "value"@)) by {
                    lemma_took_other_arg(g0, g1, iv, "name"@, j, "value"@);
                    lemma_took_other_arg(g1, g2, iv, "value"@, j, "value"@);
                    lemma_took_other_arg(g2, g3, iv, "type"@, j, "value"@);
                }
                assert forall|j: nat| iv + 1 <= j implies lookup(g3, #[trigger] arg_key(j, "type"@)) == lookup(fs, arg_key(j, "type"@)) by {
                    lemma_took_other_arg(g0, g1, iv, "name"@, j, "type"@);
                    lemma_took_other_arg(g1, g2, iv, "value"@, j, "type"@);
                    lemma_took_other_arg(g2, g3, iv, "type"@, j, "type"@);
                }
                assert forall|t: int| 0 <= t < i + 1 implies #[trigger] argument_ok_read(fs, t, arguments@[t]) by {
                    if t < i {
                        assert(arguments@[t] == old_args[t]);
                        assert(argument_ok_read(fs, t, old_args[t]));
                    }
                }
            }
            i = i + 1;
        }
        if m.len() > 0 {
            return Err(ToolProtocolError::Decode(join2("unknown field ", m[0].0.as_str())));
        }
        assert forall|j: int| 0 <= j < arg_count_of(fs) implies #[trigger] argument_fields_ok(fs, j) by {
            assert(argument_ok_read(fs, j, arguments@[j]));
        }
        assert forall|j: int| 0 <= j < arguments@.len() implies #[trigger] argument_read(fs, j, arguments@[j]) by {
            assert(argument_ok_read(fs, j, arguments@[j]));
        }
        Ok(ToolRequest { schema_version, call_id, tool_name, tool_version, arguments })
    }
}

// ---------------------------------------------------------------------------
// Responses
// ---------------------------------------------------------------------------

/// The largest schema version a response can carry.
pub open spec fn u32_top() -> nat {
    4294967295
}

/// A field list that decodes to a result: exactly the header with a version,
/// an escaped call id and an escaped content.
pub open spec fn result_fields_ok(fs: Seq<FieldView>) -> bool {
    &&& fs.len() == 3
    &&& lookup(fs, "auralis_tool_result"@) matches Some(v) && parse_bounded(v, u32_top()) is Some
    &&& lookup(fs, "call_id"@) matches Some(v) && unesc(v) is Some
    &&& lookup(fs, "content"@) matches Some(v) && unesc(v) is Some
}

/// A field list that decodes to an error: exactly the header with a version,
/// an escaped call id, a severity word, an escaped code and an escaped message.
pub open spec fn error_fields_ok(fs: Seq<FieldView>) -> bool {
    &&& fs.len() == 5
    &&& lookup(fs, "auralis_tool_error"@) matches Some(v) && parse_bounded(v, u32_top()) is Some
    &&& lookup(fs, "call_id"@) matches Some(v) && unesc(v) is Some
    &&& lookup(fs, "severity"@) matches Some(v) && (v == "recoverable"@ || v == "fatal"@)
    &&& lookup(fs, "code"@) matches Some(v) && unesc(v) is Some
    &&& lookup(fs, "message"@) matches Some(v) && unesc(v) is Some
}

/// A result header wins over an error header.
pub open spec fn response_fields_ok(fs: Seq<FieldView>) -> bool {
    if has_key(fs, "auralis_tool_result"@) {
        result_fields_ok(fs)
    } else {
        has_key(fs, "auralis_tool_error"@) && error_fields_ok(fs)
    }
}

/// `v` is what the field list says.
pub open spec fn response_read(fs: Seq<FieldView>, v: ToolResponse) -> bool {
    match v {
        ToolResponse::Result(x) => {
            &&& has_key(fs, "auralis_tool_result"@)
            &&& parse_bounded(lookup(fs, "auralis_tool_result"@)->0, u32_top()) == Some(x.schema_version as nat)
            &&& unesc(lookup(fs, "call_id"@)->0) == Some(x.call_id@)
            &&& unesc(lookup(fs, "content"@)->0) == Some(x.content@)
        },
        ToolResponse::Error(e) => {
            &&& !has_key(fs, "auralis_tool_result"@)
            &&& parse_bounded(lookup(fs, "auralis_tool_error"@)->0, u32_top()) == Some(e.schema_version as nat)
            &&& unesc(lookup(fs, "call_id"@)->0) == Some(e.call_id@)
            &&& lookup(fs, "severity"@) == Some(e.severity.spec_name())
            &&& unesc(lookup(fs, "code"@)->0) == Some(e.code@)
            &&& unesc(lookup(fs, "message"@)->0) == Some(e.message@)
        },
    }
}

/// The field names of a response differ from one another.
proof fn lemma_response_keys()
    ensures
        "call_id"@ != "auralis_tool_result"@,
        "content"@ != "auralis_tool_result"@,
        "content"@ != "call_id"@,
        "call_id"@ != "auralis_tool_error"@,
        "severity"@ != "auralis_tool_error"@,
        "severity"@ != "call_id"@,
        "code"@ != "auralis_tool_error"@,
        "code"@ != "call_id"@,
        "code"@ != "severity"@,
        "message"@ != "auralis_tool_error"@,
        "message"@ != "call_id"@,
        "message"@ != "severity"@,
        "message"@ != "code"@,
        "auralis_tool_result"@ != "auralis_tool_error"@,
        "auralis_tool_result"@ != "severity"@,
        "auralis_tool_result"@ != "code"@,
        "auralis_tool_result"@ != "message"@,
{
    reveal_strlit("auralis_tool_result");
    reveal_strlit("auralis_tool_error");
    reveal_strlit("call_id");
    reveal_strlit("content");
    reveal_strlit("severity");
    reveal_strlit("code");
    reveal_strlit("message");
    assert("auralis_tool_result"@.len() == 19);
    assert("auralis_tool_error"@.len() == 18);
    assert("call_id"@.len() == 7);
    assert("content"@.len() == 7);
    assert("severity"@.len() == 8);
    assert("code"@.len() == 4);
    assert("message"@.len() == 7);
    assert("call_id"@[1] != "content"@[1]);
    assert("call_id"@[0] != "message"@[0]);
}

impl ToolResponse {
    /// The `key=value` text of a response.
    pub fn encode(&self) -> (r: String)
        ensures
            r@ == response_text(*self),
    {
        let mut out = String::new();
        match self {
            ToolResponse::Result(v) => {
                push_num_field(&mut out, "auralis_tool_result", v.schema_version as u64);
                push_escaped_field(&mut out, "call_id", v.call_id.as_str());
                push_escaped_field(&mut out, "content", v.content.as_str());
            },
            ToolResponse::Error(v) => {
                push_num_field(&mut out, "auralis_tool_error", v.schema_version as u64);
                push_escaped_field(&mut out, "call_id", v.call_id.as_str());
                push_field(&mut out, "severity", v.severity.as_str());
                push_escaped_field(&mut out, "code", v.code.as_str());
                push_escaped_field(&mut out, "message", v.message.as_str());
            },
        }
        assert(out@ =~= response_text(*self));
        out
    }

    /// Reads a result or an error from its text;
    /// a text with neither header, unknown or missing fields and malformed
    /// values are errors.
    pub fn decode(text: &str) -> (r: Result<ToolResponse, ToolProtocolError>)
        ensures
            r is Ok <==> (fields_of(text@) matches Some(fs) && response_fields_ok(fs)),
            r matches Ok(v) ==> response_read(fields_of(text@)->0, v),
            r is Err ==> r->Err_0 is Decode,
    {
        let mut m = parse_fields(text)?;
        let ghost fs = fields_view(m@);
        proof {
            lemma_fields_distinct(text@);
            lemma_response_keys();
        }
        let has_result = match find_key(&m, "auralis_tool_result") {
            Some(_) => true,
            None => false,
        };
        if has_result {
            let schema_version = match take_unsigned(&mut m, "auralis_tool_result", 4294967295u64) {
                Ok(n) => n as u32,
                Err(e) => { return Err(e); },
            };
            let ghost f1 = fields_view(m@);
            let call_id = match take_escaped(&mut m, "call_id") {
                Ok(v) => v,
                Err(e) => {
                    assert(lookup(f1, "call_id"@) == lookup(fs, "call_id"@));
                    return Err(e);
                },
            };
            let ghost f2 = fields_view(m@);
            assert(lookup(f1, "call_id"@) == lookup(fs, "call_id"@));
            assert(lookup(f2, "content"@) == lookup(f1, "content"@));
            assert(lookup(f1, "content"@) == lookup(fs, "content"@));
            let content = match take_escaped(&mut m, "content") {
                Ok(v) => v,
                Err(e) => { return Err(e); },
            };
            if m.len() > 0 {
                return Err(ToolProtocolError::Decode(join2("unknown field ", m[0].0.as_str())));
            }
            return Ok(ToolResponse::Result(ToolResult { schema_version, call_id, content }));
        }
        let has_error = match find_key(&m, "auralis_tool_error") {
            Some(_) => true,
            None => false,
        };
        if has_error {
            let schema_version = match take_unsigned(&mut m, "auralis_tool_error", 4294967295u64) {
                Ok(n) => n as u32,
                Err(e) => { return Err(e); },
            };
            let ghost f1 = fields_view(m@);
            assert(lookup(f1, "call_id"@) == lookup(fs, "call_id"@));
            let call_id = match take_escaped(&mut m, "call_id") {
                Ok(v) => v,
                Err(e) => { return Err(e); },
            };
            let ghost f2 = fields_view(m@);
            assert(lookup(f2, "severity"@) == lookup(f1, "severity"@));
            assert(lookup(f1, "severity"@) == lookup(fs, "severity"@));
            assert(has_key(f2, "severity"@) == has_key(fs, "severity"@));
            let severity_text = match take(&mut m, "severity") {
                Ok(v) => v,
                Err(e) => { return Err(e); },
            };
            let ghost f3 = fields_view(m@);
            let severity = match ToolErrorSeverity::parse(severity_text.as_str()) {
                Ok(v) => v,
                Err(e) => { return Err(e); },
            };
            assert(lookup(f3, "code"@) == lookup(f2, "code"@));
            assert(lookup(f2, "code"@) == lookup(f1, "code"@));
            assert(lookup(f1, "code"@) == lookup(fs, "code"@));
            let code = match take_escaped(&mut m, "code") {
                Ok(v) => v,
                Err(e) => { return Err(e); },
            };
            let ghost f4 = fields_view(m@);
            assert(lookup(f4, "message"@) == lookup(f3, "message"@));
            assert(lookup(f3, "message"@) == lookup(f2, "message"@));
            assert(lookup(f2, "message"@) == lookup(f1, "message"@));
            assert(lookup(f1, "message"@) == lookup(fs, "message"@));
            let message = match take_escaped(&mut m, "message") {
                Ok(v) => v,
                Err(e) => { return Err(e); },
            };
            if m.len() > 0 {
                return Err(ToolProtocolError::Decode(join2("unknown field ", m[0].0.as_str())));
            }
            return Ok(ToolResponse::Error(ToolError { schema_version, call_id, severity, code, message }));
        }
        Err(ToolProtocolError::Decode(string_from("missing tool result/error schema header")))
    }
}

// ---------------------------------------------------------------------------
// Argument field names
// ---------------------------------------------------------------------------

proof fn lemma_arg_key_shape(i: nat, rest: Seq<char>)
    ensures
        arg_key(i, rest).len() == 5 + dec(i).len() + rest.len(),
        arg_key(i, rest)[3] == '.',
        arg_key(i, rest)[4 + dec(i).len() as int] == '.',
        forall|k: int| 4 <= k < 4 + dec(i).len() ==> crate::text::is_digit(#[trigger] arg_key(i, rest)[k]),
        forall|k: int| 0 <= k < rest.len() ==> #[trigger] arg_key(i, rest)[5 + dec(i).len() + k] == rest[k],
{
    reveal_strlit("arg.");
    reveal_strlit(".");
    lemma_dec_digits(i);
    let key = arg_key(i, rest);
    let d = dec(i);
    assert forall|k: int| 4 <= k < 4 + d.len() implies crate::text::is_digit(#[trigger] key[k]) by {
        assert(key[k] == d[k - 4]);
    }
}

/// Two argument field names are equal only for the same index and suffix.
pub proof fn lemma_arg_key_injective(i: nat, a: Seq<char>, j: nat, b: Seq<char>)
    requires
        arg_key(i, a) == arg_key(j, b),
    ensures
        i == j,
        a == b,
{
    lemma_arg_key_shape(i, a);
    lemma_arg_key_shape(j, b);
    let ki = arg_key(i, a);
    let di = dec(i).len() as int;
    let dj = dec(j).len() as int;
    if di < dj {
        assert(crate::text::is_digit(arg_key(j, b)[4 + di]));
    } else if dj < di {
        assert(crate::text::is_digit(arg_key(i, a)[4 + dj]));
    }
    assert(dec(i) =~= dec(j)) by {
        assert forall|k: int| 0 <= k < di implies dec(i)[k] == dec(j)[k] by {
            reveal_strlit("arg.");
            assert(ki[4 + k] == dec(i)[k]);
            assert(arg_key(j, b)[4 + k] == dec(j)[k]);
        }
    }
    lemma_parse_dec(i);
    lemma_parse_dec(j);
    assert(a =~= b) by {
        assert forall|k: int| 0 <= k < a.len() implies a[k] == b[k] by {
            assert(ki[5 + di + k] == a[k]);
            assert(arg_key(j, b)[5 + dj + k] == b[k]);
        }
    }
}

/// A name whose fourth character is not `.` is no argument field name.
pub proof fn lemma_not_arg_key(k: Seq<char>, i: nat, rest: Seq<char>)
    requires
        k.len() < 4 || k[3] != '.',
    ensures
        k != arg_key(i, rest),
{
    lemma_arg_key_shape(i, rest);
}

// ---------------------------------------------------------------------------
// Reading back what `encode` writes
// ---------------------------------------------------------------------------

/// The fields a response is written as, in order.
pub open spec fn response_fields(v: ToolResponse) -> Seq<FieldView> {
    match v {
        ToolResponse::Result(r) => seq![
            ("auralis_tool_result"@, dec(r.schema_version as nat)),
            ("call_id"@, esc(r.call_id@)),
            ("content"@, esc(r.content@)),
        ],
        ToolResponse::Error(e) => seq![
            ("auralis_tool_error"@, dec(e.schema_version as nat)),
            ("call_id"@, esc(e.call_id@)),
            ("severity"@, e.severity.spec_name()),
            ("code"@, esc(e.code@)),
            ("message"@, esc(e.message@)),
        ],
    }
}

proof fn lemma_dec_writable(k: Seq<char>, n: nat)
    requires
        writable_field((k, Seq::<char>::empty())),
    ensures
        writable_field((k, dec(n))),
{
    lemma_dec_digits(n);
    let d = dec(n);
    assert(crate::text::is_digit(d[d.len() - 1]));
    assert forall|j: int| 0 <= j < d.len() implies #[trigger] d[j] != '\n' by {
        assert(crate::text::is_digit(d[j]));
    }
}

proof fn lemma_esc_writable(k: Seq<char>, s: Seq<char>)
    requires
        writable_field((k, Seq::<char>::empty())),
    ensures
        writable_field((k, esc(s))),
{
    lemma_esc_chars(s);
    let e = esc(s);
    if e.len() > 0 {
        assert(e[e.len() - 1] != '\r');
    }
}

proof fn lemma_response_fields_writable(v: ToolResponse)
    ensures
        writable_fields(response_fields(v)),
        response_text(v) == joined_lines(kv_lines(response_fields(v))),
{
    reveal_strlit("auralis_tool_result");
    reveal_strlit("auralis_tool_error");
    reveal_strlit("call_id");
    reveal_strlit("content");
    reveal_strlit("severity");
    reveal_strlit("code");
    reveal_strlit("message");
    reveal_strlit("recoverable");
    reveal_strlit("fatal");
    lemma_response_keys();
    let fs = response_fields(v);
    let e = Seq::<char>::empty();
    match v {
        ToolResponse::Result(r) => {
            lemma_dec_writable("auralis_tool_result"@, r.schema_version as nat);
            lemma_esc_writable("call_id"@, r.call_id@);
            lemma_esc_writable("content"@, r.content@);
        },
        ToolResponse::Error(x) => {
            lemma_dec_writable("auralis_tool_error"@, x.schema_version as nat);
            lemma_esc_writable("call_id"@, x.call_id@);
            lemma_esc_writable("code"@, x.code@);
            lemma_esc_writable("message"@, x.message@);
            assert(writable_field(fs[2]));
        },
    }
    assert forall|i: int| 0 <= i < fs.len() implies writable_field(#[trigger] fs[i]) by {}
    let ls = kv_lines(fs);
    assert(joined_lines(ls) =~= response_text(v)) by {
        reveal_with_fuel(joined_lines, 6);
    }
}

proof fn lemma_result_read(r: ToolResult)
    ensures
        response_fields_ok(response_fields(ToolResponse::Result(r))),
        response_read(response_fields(ToolResponse::Result(r)), ToolResponse::Result(r)),
{
    let fs = response_fields(ToolResponse::Result(r));
    lemma_response_fields_writable(ToolResponse::Result(r));
    lemma_response_keys();
    lemma_take_field(fs, 0);
    lemma_take_field(fs, 1);
    lemma_take_field(fs, 2);
    lemma_parse_dec(r.schema_version as nat);
    lemma_unesc_esc(r.call_id@);
    lemma_unesc_esc(r.content@);
}

proof fn lemma_error_read(x: ToolError)
    ensures
        response_fields_ok(response_fields(ToolResponse::Error(x))),
        response_read(response_fields(ToolResponse::Error(x)), ToolResponse::Error(x)),
{
    let fs = response_fields(ToolResponse::Error(x));
    lemma_response_fields_writable(ToolResponse::Error(x));
    lemma_response_keys();
    lemma_take_field(fs, 0);
    lemma_take_field(fs, 1);
    lemma_take_field(fs, 2);
    lemma_take_field(fs, 3);
    lemma_take_field(fs, 4);
    lemma_parse_dec(x.schema_version as nat);
    lemma_unesc_esc(x.call_id@);
    lemma_unesc_esc(x.code@);
    lemma_unesc_esc(x.message@);
    assert(!has_key(fs, "auralis_tool_result"@)) by {
        if has_key(fs, "auralis_tool_result"@) {
            let k = choose|k: int| 0 <= k < fs.len() && (#[trigger] fs[k]).0 == "auralis_tool_result"@;
            assert(0 <= k < 5);
        }
    }
    assert(x.severity.spec_name() == "recoverable"@ || x.severity.spec_name() == "fatal"@);
}

/// Decoding what `encode` wrote succeeds and gives back every field of the
/// response, for a text within the protocol's size limit.
pub proof fn lemma_response_roundtrip(v: ToolResponse)
    requires
        encode_utf8(response_text(v)).len() <= MAX_PROTOCOL_TEXT_BYTES,
    ensures
        fields_of(response_text(v)) == Some(response_fields(v)),
        response_fields_ok(response_fields(v)),
        response_read(response_fields(v), v),
{
    lemma_response_fields_writable(v);
    lemma_fields_of_written(response_fields(v));
    match v {
        ToolResponse::Result(r) => lemma_result_read(r),
        ToolResponse::Error(x) => lemma_error_read(x),
    }
}

// ---------------------------------------------------------------------------
// Reading back an encoded request
// ---------------------------------------------------------------------------

pub open spec fn type_word(v: ToolValue) -> Seq<char> {
    match v {
        ToolValue::String(_) => "string"@,
        ToolValue::Integer(_) => "integer"@,
        ToolValue::Boolean(_) => "boolean"@,
    }
}

pub open spec fn value_word(v: ToolValue) -> Seq<char> {
    match v {
        ToolValue::String(s) => esc(s@),
        ToolValue::Integer(n) => dec_signed(n as int),
        ToolValue::Boolean(b) => bool_word(b),
    }
}

/// The three fields argument `i` is written as.
pub open spec fn argument_fields(i: nat, a: ToolArgument) -> Seq<FieldView> {
    seq![
        (arg_key(i, "name"@), esc(a.name@)),
        (arg_key(i, "type"@), type_word(a.value)),
        (arg_key(i, "value"@), value_word(a.value)),
    ]
}

pub open spec fn arguments_fields(args: Seq<ToolArgument>, n: nat) -> Seq<FieldView>
    decreases n,
{
    if n == 0 || n > args.len() {
        Seq::empty()
    } else {
        arguments_fields(args, (n - 1) as nat) + argument_fields((n - 1) as nat, args[n - 1])
    }
}

/// The fields a request is written as, in order.
pub open spec fn request_fields(q: ToolRequest) -> Seq<FieldView> {
    seq![
        ("auralis_tool_request"@, dec(q.schema_version as nat)),
        ("call_id"@, esc(q.call_id@)),
        ("tool_name"@, esc(q.tool_name@)),
        ("tool_version"@, dec(q.tool_version as nat)),
        ("arg_count"@, dec(q.arguments@.len())),
    ] + arguments_fields(q.arguments@, q.arguments@.len())
}

proof fn lemma_arguments_fields_index(args: Seq<ToolArgument>, n: nat)
    requires
        n <= args.len(),
    ensures
        arguments_fields(args, n).len() == 3 * n,
        forall|p: int| 0 <= p < 3 * n ==> #[trigger] arguments_fields(args, n)[p]
            == argument_fields((p / 3) as nat, args[p / 3])[p % 3],
    decreases n,
{
    if n > 0 {
        lemma_arguments_fields_index(args, (n - 1) as nat);
        let a = arguments_fields(args, (n - 1) as nat);
        let b = argument_fields((n - 1) as nat, args[n - 1]);
        assert forall|p: int| 0 <= p < 3 * n implies #[trigger] arguments_fields(args, n)[p]
            == argument_fields((p / 3) as nat, args[p / 3])[p % 3] by {
            if p < 3 * (n - 1) {
                assert(arguments_fields(args, n)[p] == a[p]);
            } else {
                assert(arguments_fields(args, n)[p] == b[p - 3 * (n - 1)]);
                assert(p / 3 == n - 1);
            }
        }
    }
}

proof fn lemma_joined_three(x: Seq<char>, y: Seq<char>, z: Seq<char>)
    ensures
        joined_lines(seq![x, y, z]) == x + seq!['\n'] + y + seq!['\n'] + z + seq!['\n'],
{
    let s3 = seq![x, y, z];
    assert(s3.drop_last() =~= seq![x, y]);
    assert(seq![x, y].drop_last() =~= seq![x]);
    assert(seq![x].drop_last() =~= Seq::<Seq<char>>::empty());
    assert(joined_lines(Seq::<Seq<char>>::empty()) =~= Seq::<char>::empty());
    assert(joined_lines(seq![x]) =~= x + seq!['\n']);
    assert(joined_lines(seq![x, y]) =~= x + seq!['\n'] + y + seq!['\n']);
    assert(joined_lines(s3) =~= x + seq!['\n'] + y + seq!['\n'] + z + seq!['\n']);
}

proof fn lemma_argument_text_lines(i: nat, x: ToolArgument)
    ensures
        joined_lines(kv_lines(argument_fields(i, x))) == field(arg_key(i, "name"@), esc(x.name@))
            + value_fields(i, x.value),
{
    let b = argument_fields(i, x);
    assert(kv_lines(b) =~= seq![kv_line(b[0]), kv_line(b[1]), kv_line(b[2])]);
    lemma_joined_three(kv_line(b[0]), kv_line(b[1]), kv_line(b[2]));
    assert(joined_lines(kv_lines(b)) =~= field(arg_key(i, "name"@), esc(x.name@))
        + field(arg_key(i, "type"@), type_word(x.value)) + field(arg_key(i, "value"@), value_word(x.value)));
    assert(value_fields(i, x.value) =~= field(arg_key(i, "type"@), type_word(x.value)) + field(arg_key(i, "value"@), value_word(x.value)));
}

proof fn lemma_arguments_text_lines(args: Seq<ToolArgument>, n: nat)
    requires
        n <= args.len(),
    ensures
        arguments_text(args, n) == joined_lines(kv_lines(arguments_fields(args, n))),
    decreases n,
{
    if n == 0 {
        assert(kv_lines(arguments_fields(args, n)) =~= Seq::<Seq<char>>::empty());
    } else {
        let i = (n - 1) as nat;
        lemma_arguments_text_lines(args, i);
        let a = arguments_fields(args, i);
        let b = argument_fields(i, args[n - 1]);
        assert(kv_lines(a + b) =~= kv_lines(a) + kv_lines(b));
        lemma_joined_append(kv_lines(a), kv_lines(b));
        lemma_argument_text_lines(i, args[n - 1]);
    }
}

proof fn lemma_arg_key_writable(i: nat, x: Seq<char>, v: Seq<char>)
    requires
        writable_field((x, v)),
    ensures
        writable_field((arg_key(i, x), v)),
{
    lemma_arg_key_shape(i, x);
    let k = arg_key(i, x);
    reveal_strlit("arg.");
    assert forall|j: int| 0 <= j < k.len() implies #[trigger] k[j] != '=' && k[j] != '\n' by {
        if j < 3 {
            assert(k[j] == "arg."@[j]);
        } else if j == 3 || j == 4 + dec(i).len() {
        } else if j < 4 + dec(i).len() {
            assert(crate::text::is_digit(k[j]));
        } else {
            assert(k[j] == x[j - 5 - dec(i).len()]);
        }
    }
}

proof fn lemma_value_writable(k: Seq<char>, v: ToolValue)
    requires
        writable_field((k, Seq::<char>::empty())),
    ensures
        writable_field((k, value_word(v))),
{
    reveal_strlit("true");
    reveal_strlit("false");
    match v {
        ToolValue::String(s) => lemma_esc_writable(k, s@),
        ToolValue::Integer(n) => {
            if n < 0 {
                let m = (-(n as int)) as nat;
                lemma_dec_writable(k, m);
                let w = dec_signed(n as int);
                assert forall|j: int| 0 <= j < w.len() implies #[trigger] w[j] != '\n' by {
                    if j > 0 {
                        assert(w[j] == dec(m)[j - 1]);
                    }
                }
                assert(w.last() == dec(m).last());
            } else {
                lemma_dec_writable(k, n as nat);
            }
        },
        ToolValue::Boolean(b) => {
            let w = bool_word(b);
            assert(w.len() > 0 && w.last() == 'e');
        },
    }
}

proof fn lemma_joined_five(a: Seq<char>, b: Seq<char>, c: Seq<char>, d: Seq<char>, e: Seq<char>)
    ensures
        joined_lines(seq![a, b, c, d, e]) == a + seq!['\n'] + b + seq!['\n'] + c + seq!['\n'] + d
            + seq!['\n'] + e + seq!['\n'],
{
    let s5 = seq![a, b, c, d, e];
    assert(s5.drop_last() =~= seq![a, b, c, d]);
    assert(seq![a, b, c, d].drop_last() =~= seq![a, b, c]);
    lemma_joined_three(a, b, c);
    assert(joined_lines(seq![a, b, c, d]) =~= a + seq!['\n'] + b + seq!['\n'] + c + seq!['\n'] + d + seq!['\n']);
    assert(joined_lines(s5) =~= a + seq!['\n'] + b + seq!['\n'] + c + seq!['\n'] + d
        + seq!['\n'] + e + seq!['\n']);
}

/// Argument field `p` of a request's field list (after the five header
/// fields).
proof fn lemma_request_field_at(q: ToolRequest, p: int)
    requires
        5 <= p < request_fields(q).len(),
    ensures
        request_fields(q).len() == 5 + 3 * q.arguments@.len(),
        request_fields(q)[p] == argument_fields(((p - 5) / 3) as nat, q.arguments@[(p - 5) / 3])[(p - 5) % 3],
        0 <= (p - 5) / 3 < q.arguments@.len(),
{
    let n = q.arguments@.len();
    lemma_arguments_fields_index(q.arguments@, n);
    assert(request_fields(q)[p] == arguments_fields(q.arguments@, n)[p - 5]);
}

proof fn lemma_request_fields_writable(q: ToolRequest)
    ensures
        writable_fields(request_fields(q)),
        request_text(q) == joined_lines(kv_lines(request_fields(q))),
{
    let args = q.arguments@;
    let n = args.len();
    let fs = request_fields(q);
    lemma_arguments_fields_index(args, n);
    lemma_request_keys();
    lemma_suffixes_differ();
    reveal_strlit("auralis_tool_request");
    reveal_strlit("call_id");
    reveal_strlit("tool_name");
    reveal_strlit("tool_version");
    reveal_strlit("arg_count");
    reveal_strlit("name");
    reveal_strlit("type");
    reveal_strlit("value");
    reveal_strlit("string");
    reveal_strlit("integer");
    reveal_strlit("boolean");
    lemma_dec_writable("auralis_tool_request"@, q.schema_version as nat);
    lemma_esc_writable("call_id"@, q.call_id@);
    lemma_esc_writable("tool_name"@, q.tool_name@);
    lemma_dec_writable("tool_version"@, q.tool_version as nat);
    lemma_dec_writable("arg_count"@, n);
    assert forall|p: int| 0 <= p < fs.len() implies writable_field(#[trigger] fs[p]) by {
        if p >= 5 {
            lemma_request_field_at(q, p);
            let i = ((p - 5) / 3) as nat;
            let a = args[i as int];
            lemma_esc_writable("name"@, a.name@);
            lemma_arg_key_writable(i, "name"@, esc(a.name@));
            assert(writable_field(("type"@, type_word(a.value))));
            lemma_arg_key_writable(i, "type"@, type_word(a.value));
            lemma_value_writable("value"@, a.value);
            lemma_arg_key_writable(i, "value"@, value_word(a.value));
        }
    }
    assert forall|x: int, y: int| 0 <= x < y < fs.len() implies (#[trigger] fs[x]).0 != (#[trigger] fs[y]).0 by {
        if x >= 5 {
            lemma_request_field_at(q, x);
            lemma_request_field_at(q, y);
            let i = ((x - 5) / 3) as nat;
            let j = ((y - 5) / 3) as nat;
            if fs[x].0 == fs[y].0 {
                let xs = if (x - 5) % 3 == 0 { "name"@ } else if (x - 5) % 3 == 1 { "type"@ } else { "value"@ };
                let ys = if (y - 5) % 3 == 0 { "name"@ } else if (y - 5) % 3 == 1 { "type"@ } else { "value"@ };
                assert(fs[x].0 == arg_key(i, xs));
                assert(fs[y].0 == arg_key(j, ys));
                lemma_arg_key_injective(i, xs, j, ys);
            }
        } else if y >= 5 {
            lemma_request_field_at(q, y);
        }
    }
    let head = seq![
        ("auralis_tool_request"@, dec(q.schema_version as nat)),
        ("call_id"@, esc(q.call_id@)),
        ("tool_name"@, esc(q.tool_name@)),
        ("tool_version"@, dec(q.tool_version as nat)),
        ("arg_count"@, dec(n)),
    ];
    let tail = arguments_fields(args, n);
    assert(kv_lines(head + tail) =~= kv_lines(head) + kv_lines(tail));
    lemma_joined_append(kv_lines(head), kv_lines(tail));
    let hl = kv_lines(head);
    assert(hl =~= seq![kv_line(head[0]), kv_line(head[1]), kv_line(head[2]), kv_line(head[3]), kv_line(head[4])]);
    lemma_joined_five(kv_line(head[0]), kv_line(head[1]), kv_line(head[2]), kv_line(head[3]), kv_line(head[4]));
    lemma_arguments_text_lines(args, n);
    assert(joined_lines(hl) =~= field("auralis_tool_request"@, dec(q.schema_version as nat))
        + field("call_id"@, esc(q.call_id@))
        + field("tool_name"@, esc(q.tool_name@))
        + field("tool_version"@, dec(q.tool_version as nat))
        + field("arg_count"@, dec(n)));
}

#[verifier::spinoff_prover]
#[verifier::rlimit(40)]
proof fn lemma_request_read(q: ToolRequest)
    requires
        q.arguments@.len() <= MAX_ARGS,
    ensures
        request_fields_ok(request_fields(q)),
        request_read(request_fields(q), q),
{
    let args = q.arguments@;
    let n = args.len();
    let fs = request_fields(q);
    lemma_request_fields_writable(q);
    lemma_arguments_fields_index(args, n);
    lemma_suffixes_differ();
    lemma_type_words_differ();
    lemma_take_field(fs, 0);
    lemma_take_field(fs, 1);
    lemma_take_field(fs, 2);
    lemma_take_field(fs, 3);
    lemma_take_field(fs, 4);
    lemma_parse_dec(q.schema_version as nat);
    lemma_parse_dec(q.tool_version as nat);
    lemma_parse_dec(n);
    lemma_unesc_esc(q.call_id@);
    lemma_unesc_esc(q.tool_name@);
    assert(arg_count_of(fs) == n);
    assert forall|i: int| 0 <= i < n implies #[trigger] argument_ok_read(fs, i, args[i]) by {
        let p = 5 + 3 * i;
        lemma_request_field_at(q, p);
        lemma_request_field_at(q, p + 1);
        lemma_request_field_at(q, p + 2);
        assert((p - 5) / 3 == i && (p + 1 - 5) / 3 == i && (p + 2 - 5) / 3 == i);
        lemma_take_field(fs, p);
        lemma_take_field(fs, p + 1);
        lemma_take_field(fs, p + 2);
        let a = args[i];
        lemma_unesc_esc(a.name@);
        match a.value {
            ToolValue::String(t) => lemma_unesc_esc(t@),
            ToolValue::Integer(v) => crate::text::lemma_parse_dec_signed(v as int),
            ToolValue::Boolean(b) => {},
        }
    }
    assert forall|i: int| 0 <= i < arg_count_of(fs) implies #[trigger] argument_fields_ok(fs, i) by {
        assert(argument_ok_read(fs, i, args[i]));
    }
    assert forall|i: int| 0 <= i < n implies #[trigger] argument_read(fs, i, args[i]) by {
        assert(argument_ok_read(fs, i, args[i]));
    }
}

/// Decoding what `encode` wrote succeeds and gives back every field of the
/// request, for a request within `MAX_ARGS` arguments whose text is within
/// the protocol's size limit.
pub proof fn lemma_request_roundtrip(q: ToolRequest)
    requires
        q.arguments@.len() <= MAX_ARGS,
        encode_utf8(request_text(q)).len() <= MAX_PROTOCOL_TEXT_BYTES,
    ensures
        fields_of(request_text(q)) == Some(request_fields(q)),
        request_fields_ok(request_fields(q)),
        request_read(request_fields(q), q),
{
    lemma_request_fields_writable(q);
    lemma_fields_of_written(request_fields(q));
    lemma_request_read(q);
}

// ---------------------------------------------------------------------------
// Reading back an encoded definition
// ---------------------------------------------------------------------------

pub open spec fn kind_word(k: ToolArgKind) -> Seq<char> {
    match k {
        ToolArgKind::String { .. } => "string"@,
        ToolArgKind::Integer { .. } => "integer"@,
        ToolArgKind::Boolean => "boolean"@,
        ToolArgKind::Enum { .. } => "enum"@,
    }
}

/// The fields the first `n` variants of argument `i` are written as.
pub open spec fn variants_fields(i: nat, vs: Seq<String>, n: nat) -> Seq<FieldView>
    decreases n,
{
    if n == 0 || n > vs.len() {
        Seq::empty()
    } else {
        variants_fields(i, vs, (n - 1) as nat).push((variant_key(i, (n - 1) as nat), esc(vs[n - 1]@)))
    }
}

/// The fields the kind of argument `i` adds after its kind word.
pub open spec fn kind_fields(i: nat, k: ToolArgKind) -> Seq<FieldView> {
    match k {
        ToolArgKind::String { min_len, max_len } => seq![
            (arg_key(i, "min_len"@), dec(min_len as nat)),
            (arg_key(i, "max_len"@), dec(max_len as nat)),
        ],
        ToolArgKind::Integer { min, max } => seq![
            (arg_key(i, "min"@), dec_signed(min as int)),
            (arg_key(i, "max"@), dec_signed(max as int)),
        ],
        ToolArgKind::Boolean => Seq::empty(),
        ToolArgKind::Enum { variants } => seq![(arg_key(i, "variant_count"@), dec(variants@.len()))]
            + variants_fields(i, variants@, variants@.len()),
    }
}

/// The fields argument `i` of a definition is written as.
pub open spec fn spec_fields(i: nat, a: ToolArgSpec) -> Seq<FieldView> {
    seq![
        (arg_key(i, "name"@), esc(a.name@)),
        (arg_key(i, "required"@), bool_word(a.required)),
        (arg_key(i, "kind"@), kind_word(a.kind)),
    ] + kind_fields(i, a.kind)
}

pub open spec fn specs_fields(args: Seq<ToolArgSpec>, n: nat) -> Seq<FieldView>
    decreases n,
{
    if n == 0 || n > args.len() {
        Seq::empty()
    } else {
        specs_fields(args, (n - 1) as nat) + spec_fields((n - 1) as nat, args[n - 1])
    }
}

/// The fields a definition is written as, in order.
pub open spec fn definition_fields(d: ToolDefinition) -> Seq<FieldView> {
    seq![
        ("auralis_tool_definition"@, dec(d.schema_version as nat)),
        ("name"@, esc(d.name@)),
        ("version"@, dec(d.version as nat)),
        ("capability"@, esc(d.capability@)),
        ("mutative"@, bool_word(d.mutative)),
        ("timeout_ms"@, dec(d.timeout_ms as nat)),
        ("max_result_bytes"@, dec(d.max_result_bytes as nat)),
        ("arg_count"@, dec(d.args@.len())),
    ] + specs_fields(d.args@, d.args@.len())
}

proof fn lemma_variants_text_lines(i: nat, vs: Seq<String>, n: nat)
    requires
        n <= vs.len(),
    ensures
        variants_text(i, vs, n) == joined_lines(kv_lines(variants_fields(i, vs, n))),
        variants_fields(i, vs, n).len() == n,
        forall|j: int| 0 <= j < n ==> #[trigger] variants_fields(i, vs, n)[j] == (variant_key(i, j as nat), esc(vs[j]@)),
    decreases n,
{
    if n == 0 {
        assert(kv_lines(variants_fields(i, vs, n)) =~= Seq::<Seq<char>>::empty());
    } else {
        lemma_variants_text_lines(i, vs, (n - 1) as nat);
        lemma_written_push(variants_fields(i, vs, (n - 1) as nat), (variant_key(i, (n - 1) as nat), esc(vs[n - 1]@)));
    }
}

proof fn lemma_kind_text_lines(i: nat, k: ToolArgKind)
    ensures
        kind_text(i, k) == field(arg_key(i, "kind"@), kind_word(k)) + joined_lines(kv_lines(kind_fields(i, k))),
{
    let e = Seq::<FieldView>::empty();
    assert(kv_lines(e) =~= Seq::<Seq<char>>::empty());
    match k {
        ToolArgKind::String { min_len, max_len } => {
            let f0 = (arg_key(i, "min_len"@), dec(min_len as nat));
            let f1 = (arg_key(i, "max_len"@), dec(max_len as nat));
            assert(seq![f0, f1] =~= e.push(f0).push(f1));
            lemma_written_push(e, f0);
            lemma_written_push(e.push(f0), f1);
        },
        ToolArgKind::Integer { min, max } => {
            let f0 = (arg_key(i, "min"@), dec_signed(min as int));
            let f1 = (arg_key(i, "max"@), dec_signed(max as int));
            assert(seq![f0, f1] =~= e.push(f0).push(f1));
            lemma_written_push(e, f0);
            lemma_written_push(e.push(f0), f1);
        },
        ToolArgKind::Boolean => {},
        ToolArgKind::Enum { variants } => {
            let f0 = (arg_key(i, "variant_count"@), dec(variants@.len()));
            lemma_written_push(e, f0);
            assert(e.push(f0) =~= seq![f0]);
            lemma_variants_text_lines(i, variants@, variants@.len());
            lemma_written_append(seq![f0], variants_fields(i, variants@, variants@.len()));
        },
    }
}

proof fn lemma_spec_text_lines(i: nat, a: ToolArgSpec)
    ensures
        arg_spec_text(i, a) == joined_lines(kv_lines(spec_fields(i, a))),
{
    let e = Seq::<FieldView>::empty();
    assert(kv_lines(e) =~= Seq::<Seq<char>>::empty());
    let f0 = (arg_key(i, "name"@), esc(a.name@));
    let f1 = (arg_key(i, "required"@), bool_word(a.required));
    let f2 = (arg_key(i, "kind"@), kind_word(a.kind));
    assert(seq![f0, f1, f2] =~= e.push(f0).push(f1).push(f2));
    lemma_written_push(e, f0);
    lemma_written_push(e.push(f0), f1);
    lemma_written_push(e.push(f0).push(f1), f2);
    lemma_written_append(seq![f0, f1, f2], kind_fields(i, a.kind));
    lemma_kind_text_lines(i, a.kind);
}

proof fn lemma_specs_text_lines(args: Seq<ToolArgSpec>, n: nat)
    requires
        n <= args.len(),
    ensures
        arg_specs_text(args, n) == joined_lines(kv_lines(specs_fields(args, n))),
    decreases n,
{
    if n == 0 {
        assert(kv_lines(specs_fields(args, n)) =~= Seq::<Seq<char>>::empty());
    } else {
        lemma_specs_text_lines(args, (n - 1) as nat);
        lemma_written_append(specs_fields(args, (n - 1) as nat), spec_fields((n - 1) as nat, args[n - 1]));
        lemma_spec_text_lines((n - 1) as nat, args[n - 1]);
    }
}

proof fn lemma_definition_text_lines(d: ToolDefinition)
    ensures
        definition_text(d) == joined_lines(kv_lines(definition_fields(d))),
{
    let e = Seq::<FieldView>::empty();
    assert(kv_lines(e) =~= Seq::<Seq<char>>::empty());
    let f0 = ("auralis_tool_definition"@, dec(d.schema_version as nat));
    let f1 = ("name"@, esc(d.name@));
    let f2 = ("version"@, dec(d.version as nat));
    let f3 = ("capability"@, esc(d.capability@));
    let f4 = ("mutative"@, bool_word(d.mutative));
    let f5 = ("timeout_ms"@, dec(d.timeout_ms as nat));
    let f6 = ("max_result_bytes"@, dec(d.max_result_bytes as nat));
    let f7 = ("arg_count"@, dec(d.args@.len()));
    let h = seq![f0, f1, f2, f3, f4, f5, f6, f7];
    assert(h =~= e.push(f0).push(f1).push(f2).push(f3).push(f4).push(f5).push(f6).push(f7));
    lemma_written_push(e, f0);
    lemma_written_push(e.push(f0), f1);
    lemma_written_push(e.push(f0).push(f1), f2);
    lemma_written_push(e.push(f0).push(f1).push(f2), f3);
    lemma_written_push(e.push(f0).push(f1).push(f2).push(f3), f4);
    lemma_written_push(e.push(f0).push(f1).push(f2).push(f3).push(f4), f5);
    lemma_written_push(e.push(f0).push(f1).push(f2).push(f3).push(f4).push(f5), f6);
    lemma_written_push(e.push(f0).push(f1).push(f2).push(f3).push(f4).push(f5).push(f6), f7);
    lemma_written_append(h, specs_fields(d.args@, d.args@.len()));
    lemma_specs_text_lines(d.args@, d.args@.len());
}

proof fn lemma_specs_prefix(args: Seq<ToolArgSpec>, m: nat, n: nat)
    requires
        m <= n <= args.len(),
    ensures
        specs_fields(args, n).len() >= specs_fields(args, m).len(),
        specs_fields(args, n).subrange(0, specs_fields(args, m).len() as int) == specs_fields(args, m),
    decreases n - m,
{
    if m < n {
        lemma_specs_prefix(args, m, (n - 1) as nat);
        let a = specs_fields(args, (n - 1) as nat);
        let b = spec_fields((n - 1) as nat, args[n - 1]);
        assert((a + b).subrange(0, specs_fields(args, m).len() as int)
            =~= a.subrange(0, specs_fields(args, m).len() as int));
    } else {
        assert(specs_fields(args, n).subrange(0, specs_fields(args, n).len() as int) =~= specs_fields(args, n));
    }
}

/// Field `k` of argument `i` stands at its offset in the written list.
proof fn lemma_specs_index(args: Seq<ToolArgSpec>, n: nat, i: nat, k: int)
    requires
        i < n <= args.len(),
        0 <= k < spec_fields(i, args[i as int]).len(),
    ensures
        specs_fields(args, i).len() + k < specs_fields(args, n).len(),
        specs_fields(args, n)[specs_fields(args, i).len() + k] == spec_fields(i, args[i as int])[k],
{
    lemma_specs_prefix(args, i + 1, n);
    let a = specs_fields(args, i);
    let b = spec_fields(i, args[i as int]);
    assert(specs_fields(args, i + 1) == a + b);
    assert((a + b)[a.len() + k] == b[k]);
    assert(specs_fields(args, n).subrange(0, (a + b).len() as int)[a.len() + k] == specs_fields(args, n)[a.len() + k]);
}

/// A name written by some argument: `arg.<i>.<suffix>`.
pub open spec fn key_of_arg(k: Seq<char>, i: nat) -> bool {
    exists|y: Seq<char>| #[trigger] arg_key(i, y) == k
}

proof fn lemma_has_key_append(a: Seq<FieldView>, b: Seq<FieldView>, k: Seq<char>)
    ensures
        has_key(a + b, k) <==> has_key(a, k) || has_key(b, k),
{
    if has_key(a + b, k) {
        let p = choose|p: int| 0 <= p < (a + b).len() && (#[trigger] (a + b)[p]).0 == k;
        if p < a.len() {
            assert((a + b)[p] == a[p]);
        } else {
            assert((a + b)[p] == b[p - a.len()]);
        }
    }
    if has_key(a, k) {
        let p = choose|p: int| 0 <= p < a.len() && (#[trigger] a[p]).0 == k;
        assert((a + b)[p] == a[p]);
    }
    if has_key(b, k) {
        let p = choose|p: int| 0 <= p < b.len() && (#[trigger] b[p]).0 == k;
        assert((a + b)[a.len() + p] == b[p]);
    }
}

proof fn lemma_distinct_append(a: Seq<FieldView>, b: Seq<FieldView>)
    requires
        distinct_keys(a),
        distinct_keys(b),
        forall|p: int| 0 <= p < b.len() ==> !has_key(a, #[trigger] b[p].0),
    ensures
        distinct_keys(a + b),
{
    let c = a + b;
    assert forall|x: int, y: int| 0 <= x < y < c.len() implies (#[trigger] c[x]).0 != (#[trigger] c[y]).0 by {
        if y < a.len() {
            assert(c[x] == a[x] && c[y] == a[y]);
        } else if x >= a.len() {
            assert(c[x] == b[x - a.len()] && c[y] == b[y - a.len()]);
        } else {
            assert(c[x] == a[x] && c[y] == b[y - a.len()]);
            assert(!has_key(a, b[y - a.len()].0));
        }
    }
}

/// The suffix of the name of field `p` of an argument of kind `k`.
pub open spec fn spec_suffix(k: ToolArgKind, p: int) -> Seq<char> {
    if p == 0 {
        "name"@
    } else if p == 1 {
        "required"@
    } else if p == 2 {
        "kind"@
    } else {
        match k {
            ToolArgKind::String { .. } => if p == 3 { "min_len"@ } else { "max_len"@ },
            ToolArgKind::Integer { .. } => if p == 3 { "min"@ } else { "max"@ },
            ToolArgKind::Boolean => Seq::empty(),
            ToolArgKind::Enum { .. } => if p == 3 { "variant_count"@ } else { "variant."@ + dec((p - 4) as nat) },
        }
    }
}

proof fn lemma_variant_suffix_plain(j: nat)
    ensures
        writable_field(("variant."@ + dec(j), Seq::<char>::empty())),
{
    reveal_strlit("variant.");
    lemma_dec_digits(j);
    let v = "variant."@ + dec(j);
    assert forall|q: int| 0 <= q < v.len() implies #[trigger] v[q] != '=' && v[q] != '\n' by {
        if q < 8 {
            assert(v[q] == "variant."@[q]);
        } else {
            assert(v[q] == dec(j)[q - 8]);
            assert(crate::text::is_digit(dec(j)[q - 8]));
        }
    }
}

/// The fields of one argument: their names are that argument's, distinct,
/// and each reads back from its line.
proof fn lemma_spec_fields_shape(i: nat, a: ToolArgSpec)
    ensures
        spec_fields(i, a).len() == 3 + kind_fields(i, a.kind).len(),
        forall|p: int| 0 <= p < spec_fields(i, a).len() ==>
            (#[trigger] spec_fields(i, a)[p]).0 == arg_key(i, spec_suffix(a.kind, p)),
        forall|p: int| 0 <= p < spec_fields(i, a).len() ==> key_of_arg(#[trigger] spec_fields(i, a)[p].0, i),
        forall|p: int| 0 <= p < spec_fields(i, a).len() ==> writable_field(#[trigger] spec_fields(i, a)[p]),
        distinct_keys(spec_fields(i, a)),
{
    let f = spec_fields(i, a);
    let head = seq![
        (arg_key(i, "name"@), esc(a.name@)),
        (arg_key(i, "required"@), bool_word(a.required)),
        (arg_key(i, "kind"@), kind_word(a.kind)),
    ];
    let kf = kind_fields(i, a.kind);
    lemma_spec_suffixes_differ();
    reveal_strlit("name");
    reveal_strlit("required");
    reveal_strlit("kind");
    reveal_strlit("min_len");
    reveal_strlit("max_len");
    reveal_strlit("min");
    reveal_strlit("max");
    reveal_strlit("variant_count");
    reveal_strlit("string");
    reveal_strlit("integer");
    reveal_strlit("boolean");
    reveal_strlit("enum");
    reveal_strlit("true");
    reveal_strlit("false");
    match a.kind {
        ToolArgKind::Enum { variants } => {
            lemma_variants_text_lines(i, variants@, variants@.len());
        },
        _ => {},
    }
    assert forall|p: int| 0 <= p < f.len() implies (#[trigger] f[p]).0 == arg_key(i, spec_suffix(a.kind, p)) by {
        if p >= 3 {
            assert(f[p] == kf[p - 3]);
            match a.kind {
                ToolArgKind::Enum { variants } => {
                    if p >= 4 {
                        let vf = variants_fields(i, variants@, variants@.len());
                        assert(kf[p - 3] == vf[p - 4]);
                    }
                },
                _ => {},
            }
        }
    }
    assert forall|p: int| 0 <= p < f.len() implies key_of_arg(#[trigger] f[p].0, i) by {
        assert(arg_key(i, spec_suffix(a.kind, p)) == f[p].0);
    }
    assert forall|p: int| 0 <= p < f.len() implies writable_field(#[trigger] f[p]) by {
        let sfx = spec_suffix(a.kind, p);
        let v = f[p].1;
        if p == 0 {
            lemma_esc_writable(sfx, a.name@);
        } else if p == 1 {
            assert(v == bool_word(a.required));
        } else if p == 2 {
        } else {
            assert(f[p] == kf[p - 3]);
            match a.kind {
                ToolArgKind::String { min_len, max_len } => {
                    if p == 3 { lemma_dec_writable(sfx, min_len as nat); } else { lemma_dec_writable(sfx, max_len as nat); }
                },
                ToolArgKind::Integer { min, max } => {
                    if p == 3 {
                        lemma_value_writable(sfx, ToolValue::Integer(min));
                    } else {
                        lemma_value_writable(sfx, ToolValue::Integer(max));
                    }
                },
                ToolArgKind::Boolean => {},
                ToolArgKind::Enum { variants } => {
                    if p == 3 {
                        lemma_dec_writable(sfx, variants@.len());
                    } else {
                        let vf = variants_fields(i, variants@, variants@.len());
                        assert(kf[p - 3] == vf[p - 4]);
                        lemma_variant_suffix_plain((p - 4) as nat);
                        lemma_esc_writable(sfx, variants@[p - 4]@);
                    }
                },
            }
        }
        assert(writable_field((sfx, v)));
        lemma_arg_key_writable(i, sfx, v);
    }
    assert forall|x: int, y: int| 0 <= x < y < f.len() implies (#[trigger] f[x]).0 != (#[trigger] f[y]).0 by {
        if f[x].0 == f[y].0 {
            lemma_arg_key_injective(i, spec_suffix(a.kind, x), i, spec_suffix(a.kind, y));
        }
    }
}

/// The fields of the first `n` arguments: distinct names, each of the
/// form `arg.<i>.<suffix>` with `i < n`, each reading back from its line.
proof fn lemma_specs_shape(args: Seq<ToolArgSpec>, n: nat)
    requires
        n <= args.len(),
    ensures
        distinct_keys(specs_fields(args, n)),
        forall|p: int| 0 <= p < specs_fields(args, n).len() ==> writable_field(#[trigger] specs_fields(args, n)[p]),
        forall|p: int| 0 <= p < specs_fields(args, n).len() ==> (#[trigger] specs_fields(args, n)[p]).0[3] == '.'
            && specs_fields(args, n)[p].0.len() > 3,
        forall|i: nat, y: Seq<char>| #[trigger] has_key(specs_fields(args, n), arg_key(i, y)) ==> i < n,
    decreases n,
{
    if n > 0 {
        let m = (n - 1) as nat;
        lemma_specs_shape(args, m);
        let a = specs_fields(args, m);
        let b = spec_fields(m, args[m as int]);
        lemma_spec_fields_shape(m, args[m as int]);
        assert forall|p: int| 0 <= p < b.len() implies !has_key(a, #[trigger] b[p].0) by {
            assert(b[p].0 == arg_key(m, spec_suffix(args[m as int].kind, p)));
        }
        lemma_distinct_append(a, b);
        let c = specs_fields(args, n);
        assert(c == a + b);
        assert forall|p: int| 0 <= p < c.len() implies writable_field(#[trigger] c[p]) && c[p].0[3] == '.' && c[p].0.len() > 3 by {
            if p < a.len() {
                assert(c[p] == a[p]);
            } else {
                assert(c[p] == b[p - a.len()]);
                lemma_arg_key_shape(m, spec_suffix(args[m as int].kind, p - a.len()));
            }
        }
        assert forall|i: nat, y: Seq<char>| #[trigger] has_key(c, arg_key(i, y)) implies i < n by {
            lemma_has_key_append(a, b, arg_key(i, y));
            if has_key(b, arg_key(i, y)) {
                let p = choose|p: int| 0 <= p < b.len() && (#[trigger] b[p]).0 == arg_key(i, y);
                lemma_arg_key_injective(m, spec_suffix(args[m as int].kind, p), i, y);
            }
        }
    } else {
        assert(specs_fields(args, n) =~= Seq::<FieldView>::empty());
    }
}

proof fn lemma_definition_fields_writable(d: ToolDefinition)
    ensures
        writable_fields(definition_fields(d)),
        definition_text(d) == joined_lines(kv_lines(definition_fields(d))),
{
    let n = d.args@.len();
    let h = seq![
        ("auralis_tool_definition"@, dec(d.schema_version as nat)),
        ("name"@, esc(d.name@)),
        ("version"@, dec(d.version as nat)),
        ("capability"@, esc(d.capability@)),
        ("mutative"@, bool_word(d.mutative)),
        ("timeout_ms"@, dec(d.timeout_ms as nat)),
        ("max_result_bytes"@, dec(d.max_result_bytes as nat)),
        ("arg_count"@, dec(n)),
    ];
    let sp = specs_fields(d.args@, n);
    lemma_specs_shape(d.args@, n);
    lemma_definition_text_lines(d);
    lemma_definition_keys();
    reveal_strlit("auralis_tool_definition");
    reveal_strlit("name");
    reveal_strlit("version");
    reveal_strlit("capability");
    reveal_strlit("mutative");
    reveal_strlit("timeout_ms");
    reveal_strlit("max_result_bytes");
    reveal_strlit("arg_count");
    reveal_strlit("true");
    reveal_strlit("false");
    lemma_dec_writable("auralis_tool_definition"@, d.schema_version as nat);
    lemma_esc_writable("name"@, d.name@);
    lemma_dec_writable("version"@, d.version as nat);
    lemma_esc_writable("capability"@, d.capability@);
    lemma_dec_writable("timeout_ms"@, d.timeout_ms as nat);
    lemma_dec_writable("max_result_bytes"@, d.max_result_bytes as nat);
    lemma_dec_writable("arg_count"@, n);
    assert(writable_field(h[4]));
    assert forall|x: int, y: int| 0 <= x < y < h.len() implies (#[trigger] h[x]).0 != (#[trigger] h[y]).0 by {}
    assert forall|p: int| 0 <= p < sp.len() implies !has_key(h, #[trigger] sp[p].0) by {
        if has_key(h, sp[p].0) {
            let q = choose|q: int| 0 <= q < h.len() && (#[trigger] h[q]).0 == sp[p].0;
            assert(sp[p].0[3] == '.');
        }
    }
    lemma_distinct_append(h, sp);
    let f = definition_fields(d);
    assert forall|p: int| 0 <= p < f.len() implies writable_field(#[trigger] f[p]) by {
        if p >= 8 {
            assert(f[p] == sp[p - 8]);
        }
    }
}

/// Field `k` of argument `i` in a definition's field list, and what
/// `lookup` finds under its name.
proof fn lemma_definition_arg_field(d: ToolDefinition, i: nat, k: int)
    requires
        i < d.args@.len(),
        0 <= k < spec_fields(i, d.args@[i as int]).len(),
        distinct_keys(definition_fields(d)),
    ensures
        lookup(definition_fields(d), arg_key(i, spec_suffix(d.args@[i as int].kind, k)))
            == Some(spec_fields(i, d.args@[i as int])[k].1),
{
    let n = d.args@.len();
    let fs = definition_fields(d);
    lemma_specs_index(d.args@, n, i, k);
    lemma_spec_fields_shape(i, d.args@[i as int]);
    let q = 8 + specs_fields(d.args@, i).len() + k;
    assert(fs[q] == specs_fields(d.args@, n)[q - 8]);
    lemma_take_field(fs, q);
}

proof fn lemma_definition_arg_read(d: ToolDefinition, i: nat)
    requires
        i < d.args@.len(),
        distinct_keys(definition_fields(d)),
        kind_valid(d.args@[i as int].kind),
    ensures
        spec_ok_read(definition_fields(d), i as int, d.args@[i as int]),
        kind_extra(definition_fields(d), i) + 3 == spec_fields(i, d.args@[i as int]).len(),
{
    let fs = definition_fields(d);
    let a = d.args@[i as int];
    lemma_spec_fields_shape(i, a);
    lemma_type_words_differ();
    lemma_definition_arg_field(d, i, 0);
    lemma_definition_arg_field(d, i, 1);
    lemma_definition_arg_field(d, i, 2);
    lemma_unesc_esc(a.name@);
    reveal_strlit("true");
    reveal_strlit("false");
    assert(bool_word(a.required) == "true"@ || bool_word(a.required) == "false"@);
    match a.kind {
        ToolArgKind::String { min_len, max_len } => {
            lemma_definition_arg_field(d, i, 3);
            lemma_definition_arg_field(d, i, 4);
            lemma_parse_dec(min_len as nat);
            lemma_parse_dec(max_len as nat);
        },
        ToolArgKind::Integer { min, max } => {
            lemma_definition_arg_field(d, i, 3);
            lemma_definition_arg_field(d, i, 4);
            crate::text::lemma_parse_dec_signed(min as int);
            crate::text::lemma_parse_dec_signed(max as int);
        },
        ToolArgKind::Boolean => {},
        ToolArgKind::Enum { variants } => {
            let cnt = variants@.len();
            lemma_definition_arg_field(d, i, 3);
            lemma_parse_dec(cnt);
            lemma_variants_text_lines(i, variants@, cnt);
            assert(variant_count_of(fs, i) == cnt);
            assert forall|j: nat| j < cnt implies (#[trigger] lookup(fs, variant_key(i, j))) == Some(esc(variants@[j as int]@)) by {
                let jj = j as int;
                lemma_definition_arg_field(d, i, 4 + jj);
                let kf = kind_fields(i, a.kind);
                assert(spec_fields(i, a)[4 + jj] == kf[1 + jj]);
                assert(kf[1 + jj] == variants_fields(i, variants@, cnt)[jj]);
            }
            assert forall|j: nat| j < cnt implies unesc(lookup(fs, #[trigger] variant_key(i, j))->0) == Some(variants@[j as int]@) by {
                assert(lookup(fs, variant_key(i, j)) == Some(esc(variants@[j as int]@)));
                lemma_unesc_esc(variants@[j as int]@);
            }
            assert(kind_fields_ok(fs, i, "enum"@));
        },
    }
}

/// The field count `definition_fields_ok` asks for is the number of fields
/// written.
proof fn lemma_definition_total(d: ToolDefinition, m: nat)
    requires
        m <= d.args@.len(),
        forall|i: nat| i < d.args@.len() ==> kind_extra(definition_fields(d), i) + 3
            == #[trigger] spec_fields(i, d.args@[i as int]).len(),
    ensures
        spec_fields_total(definition_fields(d), m) == specs_fields(d.args@, m).len(),
    decreases m,
{
    if m > 0 {
        lemma_definition_total(d, (m - 1) as nat);
        assert(spec_fields((m - 1) as nat, d.args@[m - 1]).len() == kind_extra(definition_fields(d), (m - 1) as nat) + 3);
    }
}

/// Two kinds read from the same fields have the same validity.
proof fn lemma_kind_read_unique(fs: Seq<FieldView>, i: nat, k1: ToolArgKind, k2: ToolArgKind)
    requires
        kind_read(fs, i, k1),
        kind_read(fs, i, k2),
    ensures
        kind_valid(k1) == kind_valid(k2),
{
    lemma_type_words_differ();
    match (k1, k2) {
        (ToolArgKind::Enum { variants: v1 }, ToolArgKind::Enum { variants: v2 }) => {
            assert forall|j: int| 0 <= j < v1@.len() implies v1@[j]@ == v2@[j]@ by {
                let jn = j as nat;
                assert(unesc(lookup(fs, variant_key(i, jn))->0) == Some(v1@[jn as int]@));
                assert(unesc(lookup(fs, variant_key(i, jn))->0) == Some(v2@[jn as int]@));
            }
        },
        _ => {},
    }
}

/// Two definitions read from the same fields have the same validity.
proof fn lemma_definition_read_unique(fs: Seq<FieldView>, d1: ToolDefinition, d2: ToolDefinition)
    requires
        definition_read(fs, d1),
        definition_read(fs, d2),
    ensures
        definition_valid(d1) == definition_valid(d2),
{
    let a1 = d1.args@;
    let a2 = d2.args@;
    assert forall|i: int| 0 <= i < a1.len() implies a1[i].name@ == a2[i].name@
        && arg_spec_valid(a1[i]) == arg_spec_valid(a2[i]) by {
        assert(spec_read(fs, i as nat, a1[i]));
        assert(spec_read(fs, i as nat, a2[i]));
        lemma_kind_read_unique(fs, i as nat, a1[i].kind, a2[i].kind);
    }
    assert(crate::tool_protocol::distinct_names(a1) == crate::tool_protocol::distinct_names(a2));
    assert((forall|i: int| 0 <= i < a1.len() ==> arg_spec_valid(#[trigger] a1[i]))
        == (forall|i: int| 0 <= i < a2.len() ==> arg_spec_valid(#[trigger] a2[i])));
}

/// Decoding what `encode` wrote gives back the definition: the text reads
/// as its fields, they are well formed, they say exactly `d`, and whatever
/// they say is valid; for a valid definition whose text is within the
/// protocol's size limit.
pub proof fn lemma_definition_roundtrip(d: ToolDefinition)
    requires
        definition_valid(d),
        encode_utf8(definition_text(d)).len() <= MAX_PROTOCOL_TEXT_BYTES,
    ensures
        fields_of(definition_text(d)) == Some(definition_fields(d)),
        definition_fields_ok(definition_fields(d)),
        definition_read(definition_fields(d), d),
        forall|e: ToolDefinition| #[trigger] definition_read(definition_fields(d), e) ==> definition_valid(e),
{
    let fs = definition_fields(d);
    let n = d.args@.len();
    lemma_definition_fields_writable(d);
    lemma_fields_of_written(fs);
    lemma_definition_keys();
    lemma_take_field(fs, 0);
    lemma_take_field(fs, 1);
    lemma_take_field(fs, 2);
    lemma_take_field(fs, 3);
    lemma_take_field(fs, 4);
    lemma_take_field(fs, 5);
    lemma_take_field(fs, 6);
    lemma_take_field(fs, 7);
    lemma_parse_dec(d.schema_version as nat);
    lemma_parse_dec(d.version as nat);
    lemma_parse_dec(d.timeout_ms as nat);
    lemma_parse_dec(d.max_result_bytes as nat);
    lemma_parse_dec(n);
    lemma_unesc_esc(d.name@);
    lemma_unesc_esc(d.capability@);
    reveal_strlit("true");
    reveal_strlit("false");
    assert(bool_word(d.mutative) == "true"@ || bool_word(d.mutative) == "false"@);
    assert(arg_count_of(fs) == n);
    assert forall|i: nat| i < n implies kind_extra(fs, i) + 3 == #[trigger] spec_fields(i, d.args@[i as int]).len()
        && spec_ok_read(fs, i as int, d.args@[i as int]) by {
        assert(arg_spec_valid(d.args@[i as int]));
        lemma_definition_arg_read(d, i);
    }
    lemma_definition_total(d, n);
    assert forall|i: nat| i < arg_count_of(fs) implies #[trigger] spec_fields_ok(fs, i) by {
        assert(spec_fields(i, d.args@[i as int]).len() >= 3);
    }
    assert forall|i: int| 0 <= i < n implies #[trigger] spec_read(fs, i as nat, d.args@[i]) by {
        assert(spec_fields((i as nat), d.args@[i]).len() >= 3);
    }
    assert forall|e: ToolDefinition| #[trigger] definition_read(fs, e) implies definition_valid(e) by {
        lemma_definition_read_unique(fs, d, e);
    }
}

} // verus!
