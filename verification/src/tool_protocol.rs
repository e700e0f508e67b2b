//! Versioned, typed protocol for tool definitions, calls and responses.
//! No real shell/network/browser execution lives in this module.

use vstd::prelude::*;
use crate::text::{chars_of, join2, join3, push_str, push_u64, same_text, string_from};


verus! {

pub const TOOL_PROTOCOL_SCHEMA_VERSION: u32 = 1;
pub const MAX_TOOL_NAME_LEN: usize = 64;
pub const MAX_CALL_ID_LEN: usize = 96;
pub const MAX_ARGS: usize = 64;
pub const MAX_STRING_ARG_LEN: usize = 16384;
pub const MAX_RESULT_BYTES: usize = 1048576;
pub const MAX_TIMEOUT_MS: u64 = 300000;
pub const MAX_ERROR_MESSAGE_CHARS: usize = 4096;

#[derive(Clone, Debug, PartialEq, Eq)]
pub enum ToolArgKind {
    String { min_len: usize, max_len: usize },
    Integer { min: i64, max: i64 },
    Boolean,
    Enum { variants: Vec<String> },
}

#[derive(Clone, Debug, PartialEq, Eq)]
pub struct ToolArgSpec {
    pub name: String,
    pub required: bool,
    pub kind: ToolArgKind,
}

#[derive(Clone, Debug, PartialEq, Eq)]
pub struct ToolDefinition {
    pub schema_version: u32,
    pub name: String,
    pub version: u32,
    pub capability: String,
    pub mutative: bool,
    pub timeout_ms: u64,
    pub max_result_bytes: usize,
    pub args: Vec<ToolArgSpec>,
}

#[derive(Clone, Debug, PartialEq, Eq)]
pub enum ToolValue {
    String(String),
    Integer(i64),
    Boolean(bool),
}

#[derive(Clone, Debug, PartialEq, Eq)]
pub struct ToolArgument {
    pub name: String,
    pub value: ToolValue,
}

#[derive(Clone, Debug, PartialEq, Eq)]
pub struct ToolRequest {
    pub schema_version: u32,
    pub call_id: String,
    pub tool_name: String,
    pub tool_version: u32,
    pub arguments: Vec<ToolArgument>,
}

#[derive(Clone, Copy, Debug, PartialEq, Eq)]
pub enum ToolErrorSeverity {
    Recoverable,
    Fatal,
}

#[derive(Clone, Debug, PartialEq, Eq)]
pub struct ToolResult {
    pub schema_version: u32,
    pub call_id: String,
    pub content: String,
}

#[derive(Clone, Debug, PartialEq, Eq)]
pub struct ToolError {
    pub schema_version: u32,
    pub call_id: String,
    pub severity: ToolErrorSeverity,
    pub code: String,
    pub message: String,
}

#[derive(Clone, Debug, PartialEq, Eq)]
pub enum ToolResponse {
    Result(ToolResult),
    Error(ToolError),
}

#[derive(Clone, Debug, PartialEq, Eq)]
pub enum ToolProtocolError {
    Decode(String),
    Definition(String),
    Request(String),
}

impl ToolProtocolError {
    /// Human-readable text of the error (its `Display` form).
    pub fn message(&self) -> (r: String)
        ensures
            r@ == (match self {
                ToolProtocolError::Decode(v) => "tool protocol decode error: "@ + v@,
                ToolProtocolError::Definition(v) => "invalid tool definition: "@ + v@,
                ToolProtocolError::Request(v) => "invalid tool request: "@ + v@,
            }),
    {
        match self {
            ToolProtocolError::Decode(v) => join2("tool protocol decode error: ", v.as_str()),
            ToolProtocolError::Definition(v) => join2("invalid tool definition: ", v.as_str()),
            ToolProtocolError::Request(v) => join2("invalid tool request: ", v.as_str()),
        }
    }
}

pub open spec fn decode_error<T>(r: Result<T, ToolProtocolError>) -> bool {
    r matches Err(e) && e is Decode
}

impl ToolErrorSeverity {
    pub open spec fn spec_name(self) -> Seq<char> {
        match self {
            ToolErrorSeverity::Recoverable => "recoverable"@,
            ToolErrorSeverity::Fatal => "fatal"@,
        }
    }

    pub fn as_str(self) -> (r: &'static str)
        ensures
            r@ == self.spec_name(),
    {
        match self {
            ToolErrorSeverity::Recoverable => "recoverable",
            ToolErrorSeverity::Fatal => "fatal",
        }
    }

    pub fn parse(text: &str) -> (r: Result<ToolErrorSeverity, ToolProtocolError>)
        ensures
            r matches Ok(v) ==> v.spec_name() == text@,
            r is Err ==> decode_error(r) && text@ != "recoverable"@ && text@ != "fatal"@,
    {
        if same_text(text, "recoverable") {
            Ok(ToolErrorSeverity::Recoverable)
        } else if same_text(text, "fatal") {
            Ok(ToolErrorSeverity::Fatal)
        } else {
            Err(ToolProtocolError::Decode(join2("unknown tool error severity ", text)))
        }
    }
}

// ---------------------------------------------------------------------------
// Validation
// ---------------------------------------------------------------------------

/// Characters allowed in names, capabilities, variants, call ids and codes.
pub open spec fn ident_char(c: char) -> bool {
    ('a' <= c && c <= 'z') || ('A' <= c && c <= 'Z') || ('0' <= c && c <= '9') || c == '_'
        || c == '-' || c == '.' || c == ':'
}

/// A non-empty identifier of at most `max` allowed characters.
pub open spec fn valid_identifier(s: Seq<char>, max: nat) -> bool {
    0 < s.len() <= max && forall|i: int| 0 <= i < s.len() ==> ident_char(#[trigger] s[i])
}

fn is_ident_char(c: char) -> (r: bool)
    ensures
        r == ident_char(c),
{
    ('a' <= c && c <= 'z') || ('A' <= c && c <= 'Z') || ('0' <= c && c <= '9') || c == '_'
        || c == '-' || c == '.' || c == ':'
}

/// Checks an identifier; the error names `label`.
pub fn validate_identifier(label: &str, text: &str, max_len: usize) -> (r: Result<(), ToolProtocolError>)
    ensures
        r is Ok <==> valid_identifier(text@, max_len as nat),
        r is Err ==> r->Err_0 is Definition,
{
    let cs = chars_of(text);
    if cs.len() == 0 || cs.len() > max_len {
        let mut m = join2(label, " length must be in 1..=");
        push_u64(&mut m, max_len as u64);
        return Err(ToolProtocolError::Definition(m));
    }
    let mut i: usize = 0;
    while i < cs.len()
        invariant
            cs@ == text@,
            i <= cs.len(),
            forall|j: int| 0 <= j < i ==> ident_char(#[trigger] cs@[j]),
        decreases cs.len() - i,
    {
        if !is_ident_char(cs[i]) {
            return Err(ToolProtocolError::Definition(join2(label, " contains invalid characters")));
        }
        i = i + 1;
    }
    Ok(())
}

pub open spec fn distinct_names(args: Seq<ToolArgSpec>) -> bool {
    forall|i: int, j: int| 0 <= i < j < args.len() ==> args[i].name@ != args[j].name@
}

pub open spec fn distinct_strings(vs: Seq<String>) -> bool {
    forall|i: int, j: int| 0 <= i < j < vs.len() ==> vs[i]@ != vs[j]@
}

pub open spec fn kind_valid(kind: ToolArgKind) -> bool {
    match kind {
        ToolArgKind::String { min_len, max_len } => min_len <= max_len && max_len <= MAX_STRING_ARG_LEN,
        ToolArgKind::Integer { min, max } => min <= max,
        ToolArgKind::Boolean => true,
        ToolArgKind::Enum { variants } => {
            &&& 0 < variants@.len() <= MAX_ARGS
            &&& forall|k: int| 0 <= k < variants@.len() ==> valid_identifier(#[trigger] variants@[k]@, MAX_TOOL_NAME_LEN as nat)
            &&& distinct_strings(variants@)
        },
    }
}

pub open spec fn arg_spec_valid(spec: ToolArgSpec) -> bool {
    valid_identifier(spec.name@, MAX_TOOL_NAME_LEN as nat) && kind_valid(spec.kind)
}

/// Everything `ToolDefinition::validate` accepts, apart from the schema.
pub open spec fn definition_fields_valid(
    name: Seq<char>,
    version: u32,
    capability: Seq<char>,
    timeout_ms: u64,
    max_result_bytes: usize,
    args: Seq<ToolArgSpec>,
) -> bool {
    &&& valid_identifier(name, MAX_TOOL_NAME_LEN as nat)
    &&& valid_identifier(capability, MAX_TOOL_NAME_LEN as nat)
    &&& version != 0
    &&& 0 < timeout_ms <= MAX_TIMEOUT_MS
    &&& 0 < max_result_bytes <= MAX_RESULT_BYTES
    &&& args.len() <= MAX_ARGS
    &&& forall|i: int| 0 <= i < args.len() ==> arg_spec_valid(#[trigger] args[i])
    &&& distinct_names(args)
}

/// Everything `ToolDefinition::validate` accepts.
pub open spec fn definition_valid(d: ToolDefinition) -> bool {
    &&& d.schema_version == TOOL_PROTOCOL_SCHEMA_VERSION
    &&& definition_fields_valid(d.name@, d.version, d.capability@, d.timeout_ms, d.max_result_bytes, d.args@)
}

/// Index of the first string in `vs[..upto]` equal to `s`.
fn find_string(vs: &Vec<String>, upto: usize, s: &str) -> (r: Option<usize>)
    requires
        upto <= vs.len(),
    ensures
        r matches Some(k) ==> k < upto && vs@[k as int]@ == s@,
        r is None ==> forall|k: int| 0 <= k < upto ==> vs@[k]@ != s@,
{
    let mut k: usize = 0;
    while k < upto
        invariant
            upto <= vs.len(),
            k <= upto,
            forall|j: int| 0 <= j < k ==> vs@[j]@ != s@,
        decreases upto - k,
    {
        if same_text(vs[k].as_str(), s) {
            return Some(k);
        }
        k = k + 1;
    }
    None
}

fn validate_kind(spec: &ToolArgSpec) -> (r: Result<(), ToolProtocolError>)
    ensures
        r is Ok <==> kind_valid(spec.kind),
        r is Err ==> r->Err_0 is Definition,
{
    match &spec.kind {
        ToolArgKind::String { min_len, max_len } => {
            if *min_len > *max_len || *max_len > MAX_STRING_ARG_LEN {
                return Err(ToolProtocolError::Definition(join2("invalid string bounds for ", spec.name.as_str())));
            }
            Ok(())
        },
        ToolArgKind::Integer { min, max } => {
            if *min > *max {
                return Err(ToolProtocolError::Definition(join2("invalid integer bounds for ", spec.name.as_str())));
            }
            Ok(())
        },
        ToolArgKind::Boolean => Ok(()),
        ToolArgKind::Enum { variants } => {
            if variants.len() == 0 || variants.len() > MAX_ARGS {
                return Err(ToolProtocolError::Definition(join2("invalid enum variant count for ", spec.name.as_str())));
            }
            let mut j: usize = 0;
            while j < variants.len()
                invariant
                    spec.kind == (ToolArgKind::Enum { variants: *variants }),
                    0 < variants.len() <= MAX_ARGS,
                    j <= variants.len(),
                    forall|k: int| 0 <= k < j ==> valid_identifier(#[trigger] variants@[k]@, MAX_TOOL_NAME_LEN as nat),
                    distinct_strings(variants@.subrange(0, j as int)),
                decreases variants.len() - j,
            {
                validate_identifier("enum variant", variants[j].as_str(), MAX_TOOL_NAME_LEN)?;
                match find_string(variants, j, variants[j].as_str()) {
                    Some(k) => {
                        assert(!distinct_strings(variants@));
                        return Err(ToolProtocolError::Definition(join2("duplicate enum variant ", variants[j].as_str())));
                    },
                    None => {},
                }
                j = j + 1;
                assert forall|a: int, b: int| 0 <= a < b < j implies
                    #[trigger] variants@.subrange(0, j as int)[a]@ != #[trigger] variants@.subrange(0, j as int)[b]@ by {
                    if b < j - 1 {
                        assert(variants@.subrange(0, j - 1)[a] == variants@[a]);
                        assert(variants@.subrange(0, j - 1)[b] == variants@[b]);
                    }
                }
            }
            assert(variants@.subrange(0, variants.len() as int) =~= variants@);
            Ok(())
        },
    }
}

/// Index of the first argument spec in `args[..upto]` named `name`.
fn find_spec(args: &Vec<ToolArgSpec>, upto: usize, name: &str) -> (r: Option<usize>)
    requires
        upto <= args.len(),
    ensures
        r matches Some(k) ==> k < upto && args@[k as int].name@ == name@,
        r is None ==> forall|k: int| 0 <= k < upto ==> args@[k].name@ != name@,
{
    let mut k: usize = 0;
    while k < upto
        invariant
            upto <= args.len(),
            k <= upto,
            forall|j: int| 0 <= j < k ==> args@[j].name@ != name@,
        decreases upto - k,
    {
        if same_text(args[k].name.as_str(), name) {
            return Some(k);
        }
        k = k + 1;
    }
    None
}

impl ToolDefinition {
    /// Builds a definition at the current schema and validates it.
    pub fn new(
        name: &str,
        version: u32,
        capability: &str,
        mutative: bool,
        timeout_ms: u64,
        max_result_bytes: usize,
        args: Vec<ToolArgSpec>,
    ) -> (r: Result<ToolDefinition, ToolProtocolError>)
        ensures
            r is Ok <==> definition_fields_valid(name@, version, capability@, timeout_ms, max_result_bytes, args@),
            r matches Ok(d) ==> {
                &&& d.schema_version == TOOL_PROTOCOL_SCHEMA_VERSION
                &&& d.name@ == name@
                &&& d.version == version
                &&& d.capability@ == capability@
                &&& d.mutative == mutative
                &&& d.timeout_ms == timeout_ms
                &&& d.max_result_bytes == max_result_bytes
                &&& d.args == args
            },
            r is Err ==> r->Err_0 is Definition,
    {
        let out = ToolDefinition {
            schema_version: TOOL_PROTOCOL_SCHEMA_VERSION,
            name: string_from(name),
            version,
            capability: string_from(capability),
            mutative,
            timeout_ms,
            max_result_bytes,
            args,
        };
        out.validate()?;
        Ok(out)
    }

    /// Checks schema, identifiers, limits and argument specs.
    pub fn validate(&self) -> (r: Result<(), ToolProtocolError>)
        ensures
            r is Ok <==> definition_valid(*self),
            r is Err ==> r->Err_0 is Definition,
    {
        if self.schema_version != TOOL_PROTOCOL_SCHEMA_VERSION {
            let mut m = String::new();
            push_str(&mut m, "schema ");
            push_u64(&mut m, self.schema_version as u64);
            push_str(&mut m, " is unsupported (expected 1)");
            return Err(ToolProtocolError::Definition(m));
        }
        validate_identifier("tool name", self.name.as_str(), MAX_TOOL_NAME_LEN)?;
        validate_identifier("capability", self.capability.as_str(), MAX_TOOL_NAME_LEN)?;
        if self.version == 0 {
            return Err(ToolProtocolError::Definition(string_from("tool version must be positive")));
        }
        if self.timeout_ms == 0 || self.timeout_ms > MAX_TIMEOUT_MS {
            return Err(ToolProtocolError::Definition(string_from("timeout_ms must be in 1..=300000")));
        }
        if self.max_result_bytes == 0 || self.max_result_bytes > MAX_RESULT_BYTES {
            return Err(ToolProtocolError::Definition(string_from("max_result_bytes must be in 1..=1048576")));
        }
        if self.args.len() > MAX_ARGS {
            return Err(ToolProtocolError::Definition(string_from("too many arguments")));
        }
        let mut i: usize = 0;
        while i < self.args.len()
            invariant
                i <= self.args.len(),
                forall|k: int| 0 <= k < i ==> arg_spec_valid(#[trigger] self.args@[k]),
                distinct_names(self.args@.subrange(0, i as int)),
            decreases self.args.len() - i,
        {
            let spec = &self.args[i];
            validate_identifier("argument name", spec.name.as_str(), MAX_TOOL_NAME_LEN)?;
            match find_spec(&self.args, i, spec.name.as_str()) {
                Some(k) => {
                    assert(!distinct_names(self.args@));
                    return Err(ToolProtocolError::Definition(join2("duplicate argument definition ", spec.name.as_str())));
                },
                None => {},
            }
            validate_kind(spec)?;
            i = i + 1;
            assert forall|a: int, b: int| 0 <= a < b < i implies
                #[trigger] self.args@.subrange(0, i as int)[a].name@ != #[trigger] self.args@.subrange(0, i as int)[b].name@ by {
                if b < i - 1 {
                    assert(self.args@.subrange(0, i - 1)[a] == self.args@[a]);
                    assert(self.args@.subrange(0, i - 1)[b] == self.args@[b]);
                }
            }
        }
        assert(self.args@.subrange(0, self.args.len() as int) =~= self.args@);
        Ok(())
    }
}


/// Whether `value` has the type and range that `spec` declares.
pub open spec fn value_fits(spec: ToolArgSpec, value: ToolValue) -> bool {
    match (spec.kind, value) {
        (ToolArgKind::String { min_len, max_len }, ToolValue::String(v)) => min_len <= v@.len() <= max_len,
        (ToolArgKind::Integer { min, max }, ToolValue::Integer(v)) => min <= v <= max,
        (ToolArgKind::Boolean, ToolValue::Boolean(_)) => true,
        (ToolArgKind::Enum { variants }, ToolValue::String(v)) => exists|k: int| 0 <= k < variants@.len() && #[trigger] variants@[k]@ == v@,
        _ => false,
    }
}

fn validate_value(spec: &ToolArgSpec, value: &ToolValue) -> (r: Result<(), ToolProtocolError>)
    ensures
        r is Ok <==> value_fits(*spec, *value),
        r is Err ==> r->Err_0 is Request,
{
    match (&spec.kind, value) {
        (ToolArgKind::String { min_len, max_len }, ToolValue::String(v)) => {
            let n = v.as_str().unicode_len();
            if n < *min_len || n > *max_len {
                return Err(ToolProtocolError::Request(join3("argument ", spec.name.as_str(), " string length out of bounds")));
            }
            Ok(())
        },
        (ToolArgKind::Integer { min, max }, ToolValue::Integer(v)) => {
            if *v < *min || *v > *max {
                return Err(ToolProtocolError::Request(join3("argument ", spec.name.as_str(), " integer out of bounds")));
            }
            Ok(())
        },
        (ToolArgKind::Boolean, ToolValue::Boolean(_)) => Ok(()),
        (ToolArgKind::Enum { variants }, ToolValue::String(v)) => {
            match find_string(variants, variants.len(), v.as_str()) {
                Some(_) => Ok(()),
                None => Err(ToolProtocolError::Request(join3("argument ", spec.name.as_str(), " enum value is not allowed"))),
            }
        },
        _ => Err(ToolProtocolError::Request(join3("argument ", spec.name.as_str(), " has wrong type"))),
    }
}

pub open spec fn distinct_arguments(args: Seq<ToolArgument>) -> bool {
    forall|i: int, j: int| 0 <= i < j < args.len() ==> args[i].name@ != args[j].name@
}

/// Some spec of `d` has the argument's name and admits its value.
pub open spec fn argument_admitted(d: ToolDefinition, a: ToolArgument) -> bool {
    exists|k: int| 0 <= k < d.args@.len() && #[trigger] d.args@[k].name@ == a.name@ && value_fits(d.args@[k], a.value)
}

/// Some argument of `r` is named `name`.
pub open spec fn has_argument(r: ToolRequest, name: Seq<char>) -> bool {
    exists|i: int| 0 <= i < r.arguments@.len() && #[trigger] r.arguments@[i].name@ == name
}

/// The checks of `validate_against` that concern the request itself.
pub open spec fn request_matches(r: ToolRequest, d: ToolDefinition) -> bool {
    &&& r.schema_version == TOOL_PROTOCOL_SCHEMA_VERSION
    &&& valid_identifier(r.call_id@, MAX_CALL_ID_LEN as nat)
    &&& r.tool_name@ == d.name@
    &&& r.tool_version == d.version
    &&& r.arguments@.len() <= MAX_ARGS
    &&& distinct_arguments(r.arguments@)
    &&& forall|i: int| 0 <= i < r.arguments@.len() ==> argument_admitted(d, #[trigger] r.arguments@[i])
    &&& forall|k: int| 0 <= k < d.args@.len() && (#[trigger] d.args@[k]).required ==> has_argument(r, d.args@[k].name@)
}

/// In a request that matches a valid definition, every argument respects
/// the spec of the same name: a string argument has between `min_len` and
/// `max_len` characters, an integer lies between `min` and `max`, and a
/// value of another type than the spec's is never admitted. So a string
/// argument shorter than `min_len` or longer than `max_len` makes
/// `validate_against` fail.
pub proof fn lemma_matching_arguments_within_bounds(r: ToolRequest, d: ToolDefinition, i: int, k: int)
    requires
        definition_valid(d),
        request_matches(r, d),
        0 <= i < r.arguments@.len(),
        0 <= k < d.args@.len(),
        d.args@[k].name@ == r.arguments@[i].name@,
    ensures
        d.args@[k].kind is String ==> d.args@[k].kind->String_min_len <= r.arguments@[i].value->String_0@.len()
            <= d.args@[k].kind->String_max_len,
        d.args@[k].kind is Integer ==> d.args@[k].kind->Integer_min <= r.arguments@[i].value->Integer_0
            <= d.args@[k].kind->Integer_max,
        d.args@[k].kind is String ==> r.arguments@[i].value is String,
        d.args@[k].kind is Integer ==> r.arguments@[i].value is Integer,
        d.args@[k].kind is Boolean ==> r.arguments@[i].value is Boolean,
        d.args@[k].kind is Enum ==> r.arguments@[i].value is String,
{
    let a = r.arguments@[i];
    assert(argument_admitted(d, a));
    let j = choose|j: int| 0 <= j < d.args@.len() && #[trigger] d.args@[j].name@ == a.name@ && value_fits(d.args@[j], a.value);
    if j != k {
        assert(distinct_names(d.args@));
    }
}

/// The checks of `validate_envelope`.
pub open spec fn envelope_valid(r: ToolRequest) -> bool {
    &&& r.schema_version == TOOL_PROTOCOL_SCHEMA_VERSION
    &&& valid_identifier(r.call_id@, MAX_CALL_ID_LEN as nat)
    &&& valid_identifier(r.tool_name@, MAX_TOOL_NAME_LEN as nat)
    &&& r.tool_version != 0
    &&& r.arguments@.len() <= MAX_ARGS
    &&& forall|i: int| 0 <= i < r.arguments@.len() ==> valid_identifier((#[trigger] r.arguments@[i]).name@, MAX_TOOL_NAME_LEN as nat)
    &&& distinct_arguments(r.arguments@)
}

/// Index of the first argument in `args[..upto]` named `name`.
fn find_argument(args: &Vec<ToolArgument>, upto: usize, name: &str) -> (r: Option<usize>)
    requires
        upto <= args.len(),
    ensures
        r matches Some(k) ==> k < upto && args@[k as int].name@ == name@,
        r is None ==> forall|k: int| 0 <= k < upto ==> args@[k].name@ != name@,
{
    let mut k: usize = 0;
    while k < upto
        invariant
            upto <= args.len(),
            k <= upto,
            forall|j: int| 0 <= j < k ==> args@[j].name@ != name@,
        decreases upto - k,
    {
        if same_text(args[k].name.as_str(), name) {
            return Some(k);
        }
        k = k + 1;
    }
    None
}

impl ToolRequest {
    /// A request at the current schema.
    pub fn new(call_id: &str, tool_name: &str, tool_version: u32, arguments: Vec<ToolArgument>) -> (r: ToolRequest)
        ensures
            r.schema_version == TOOL_PROTOCOL_SCHEMA_VERSION,
            r.call_id@ == call_id@,
            r.tool_name@ == tool_name@,
            r.tool_version == tool_version,
            r.arguments == arguments,
    {
        ToolRequest {
            schema_version: TOOL_PROTOCOL_SCHEMA_VERSION,
            call_id: string_from(call_id),
            tool_name: string_from(tool_name),
            tool_version,
            arguments,
        }
    }

    /// Checks what a request must satisfy whatever tool it names: schema,
    /// call id, tool name and version, argument count, names and
    /// uniqueness.
    pub fn validate_envelope(&self) -> (r: Result<(), ToolProtocolError>)
        ensures
            r is Ok <==> envelope_valid(*self),
            r is Err ==> r->Err_0 is Request,
    {
        if self.schema_version != TOOL_PROTOCOL_SCHEMA_VERSION {
            return Err(ToolProtocolError::Request(string_from("unsupported request schema")));
        }
        match validate_identifier("call id", self.call_id.as_str(), MAX_CALL_ID_LEN) {
            Ok(()) => {},
            Err(e) => {
                return Err(ToolProtocolError::Request(e.message()));
            },
        }
        match validate_identifier("tool name", self.tool_name.as_str(), MAX_TOOL_NAME_LEN) {
            Ok(()) => {},
            Err(e) => {
                return Err(ToolProtocolError::Request(e.message()));
            },
        }
        if self.tool_version == 0 {
            return Err(ToolProtocolError::Request(string_from("tool version must be positive")));
        }
        if self.arguments.len() > MAX_ARGS {
            return Err(ToolProtocolError::Request(string_from("too many arguments")));
        }
        let mut i: usize = 0;
        while i < self.arguments.len()
            invariant
                i <= self.arguments.len(),
                distinct_arguments(self.arguments@.subrange(0, i as int)),
                forall|j: int| 0 <= j < i ==> valid_identifier((#[trigger] self.arguments@[j]).name@, MAX_TOOL_NAME_LEN as nat),
            decreases self.arguments.len() - i,
        {
            let arg = &self.arguments[i];
            match validate_identifier("argument name", arg.name.as_str(), MAX_TOOL_NAME_LEN) {
                Ok(()) => {},
                Err(e) => {
                    return Err(ToolProtocolError::Request(e.message()));
                },
            }
            match find_argument(&self.arguments, i, arg.name.as_str()) {
                Some(k) => {
                    assert(!distinct_arguments(self.arguments@));
                    return Err(ToolProtocolError::Request(join2("duplicate argument ", arg.name.as_str())));
                },
                None => {},
            }
            i = i + 1;
            assert forall|a: int, b: int| 0 <= a < b < i implies
                #[trigger] self.arguments@.subrange(0, i as int)[a].name@ != #[trigger] self.arguments@.subrange(0, i as int)[b].name@ by {
                if b < i - 1 {
                    assert(self.arguments@.subrange(0, i - 1)[a] == self.arguments@[a]);
                    assert(self.arguments@.subrange(0, i - 1)[b] == self.arguments@[b]);
                }
            }
        }
        assert(self.arguments@.subrange(0, self.arguments.len() as int) =~= self.arguments@);
        Ok(())
    }

    /// Checks the request against its definition: identity, argument names,
    /// types, ranges and required arguments.
    pub fn validate_against(&self, definition: &ToolDefinition) -> (r: Result<(), ToolProtocolError>)
        ensures
            r is Ok <==> definition_valid(*definition) && request_matches(*self, *definition),
            r is Err && !definition_valid(*definition) ==> r->Err_0 is Definition,
            r is Err && definition_valid(*definition) ==> r->Err_0 is Request,
    {
        definition.validate()?;
        if self.schema_version != TOOL_PROTOCOL_SCHEMA_VERSION {
            return Err(ToolProtocolError::Request(string_from("unsupported request schema")));
        }
        match validate_identifier("call id", self.call_id.as_str(), MAX_CALL_ID_LEN) {
            Ok(()) => {},
            Err(e) => {
                return Err(ToolProtocolError::Request(e.message()));
            },
        }
        if !same_text(self.tool_name.as_str(), definition.name.as_str()) || self.tool_version != definition.version {
            return Err(ToolProtocolError::Request(string_from("tool identity mismatch")));
        }
        if self.arguments.len() > MAX_ARGS {
            return Err(ToolProtocolError::Request(string_from("too many arguments")));
        }
        let mut i: usize = 0;
        while i < self.arguments.len()
            invariant
                definition_valid(*definition),
                i <= self.arguments.len(),
                distinct_arguments(self.arguments@.subrange(0, i as int)),
                forall|j: int| 0 <= j < i ==> argument_admitted(*definition, #[trigger] self.arguments@[j]),
            decreases self.arguments.len() - i,
        {
            let arg = &self.arguments[i];
            match find_argument(&self.arguments, i, arg.name.as_str()) {
                Some(k) => {
                    assert(!distinct_arguments(self.arguments@));
                    return Err(ToolProtocolError::Request(join2("duplicate argument ", arg.name.as_str())));
                },
                None => {},
            }
            match find_spec(&definition.args, definition.args.len(), arg.name.as_str()) {
                None => {
                    assert(!argument_admitted(*definition, self.arguments@[i as int]));
                    return Err(ToolProtocolError::Request(join2("unknown argument ", arg.name.as_str())));
                },
                Some(k) => {
                    let res = validate_value(&definition.args[k], &arg.value);
                    if res.is_err() {
                        assert forall|k2: int| 0 <= k2 < definition.args@.len()
                            && #[trigger] definition.args@[k2].name@ == arg.name@ implies
                            !value_fits(definition.args@[k2], arg.value) by {
                            if k2 != k {
                                if k2 < k {
                                    assert(definition.args@[k2].name@ != definition.args@[k as int].name@);
                                } else {
                                    assert(definition.args@[k as int].name@ != definition.args@[k2].name@);
                                }
                            }
                        }
                        return res;
                    }
                },
            }
            i = i + 1;
            assert forall|a: int, b: int| 0 <= a < b < i implies
                #[trigger] self.arguments@.subrange(0, i as int)[a].name@ != #[trigger] self.arguments@.subrange(0, i as int)[b].name@ by {
                if b < i - 1 {
                    assert(self.arguments@.subrange(0, i - 1)[a] == self.arguments@[a]);
                    assert(self.arguments@.subrange(0, i - 1)[b] == self.arguments@[b]);
                }
            }
        }
        assert(self.arguments@.subrange(0, self.arguments.len() as int) =~= self.arguments@);
        let mut k: usize = 0;
        while k < definition.args.len()
            invariant
                definition_valid(*definition),
                self.schema_version == TOOL_PROTOCOL_SCHEMA_VERSION,
                valid_identifier(self.call_id@, MAX_CALL_ID_LEN as nat),
                self.tool_name@ == definition.name@,
                self.tool_version == definition.version,
                self.arguments@.len() <= MAX_ARGS,
                distinct_arguments(self.arguments@),
                forall|i: int| 0 <= i < self.arguments@.len() ==> argument_admitted(*definition, #[trigger] self.arguments@[i]),
                k <= definition.args.len(),
                forall|j: int| 0 <= j < k && (#[trigger] definition.args@[j]).required ==> has_argument(*self, definition.args@[j].name@),
            decreases definition.args.len() - k,
        {
            let spec = &definition.args[k];
            if spec.required {
                match find_argument(&self.arguments, self.arguments.len(), spec.name.as_str()) {
                    None => {
                        return Err(ToolProtocolError::Request(join2("missing required argument ", spec.name.as_str())));
                    },
                    Some(_) => {},
                }
            }
            k = k + 1;
        }
        Ok(())
    }
}

/// Whether `v` is an acceptable response of `d` to the call `call_id`.
pub open spec fn response_valid_for(v: ToolResponse, d: ToolDefinition, call_id: Seq<char>) -> bool {
    &&& v.spec_call_id() == call_id
    &&& match v {
        ToolResponse::Result(res) => {
            &&& res.schema_version == TOOL_PROTOCOL_SCHEMA_VERSION
            &&& (vstd::utf8::encode_utf8(res.content@).len() as usize) <= d.max_result_bytes
        },
        ToolResponse::Error(err) => {
            &&& err.schema_version == TOOL_PROTOCOL_SCHEMA_VERSION
            &&& valid_identifier(err.code@, MAX_TOOL_NAME_LEN as nat)
            &&& err.message@.len() <= MAX_ERROR_MESSAGE_CHARS
        },
    }
}

impl ToolResponse {
    /// A result at the current schema.
    pub fn result(call_id: &str, content: &str) -> (r: ToolResponse)
        ensures
            r matches ToolResponse::Result(v) && v.schema_version == TOOL_PROTOCOL_SCHEMA_VERSION
                && v.call_id@ == call_id@ && v.content@ == content@,
    {
        ToolResponse::Result(ToolResult {
            schema_version: TOOL_PROTOCOL_SCHEMA_VERSION,
            call_id: string_from(call_id),
            content: string_from(content),
        })
    }

    /// An error at the current schema.
    pub fn error(call_id: &str, severity: ToolErrorSeverity, code: &str, message: &str) -> (r: ToolResponse)
        ensures
            r matches ToolResponse::Error(v) && v.schema_version == TOOL_PROTOCOL_SCHEMA_VERSION
                && v.call_id@ == call_id@ && v.severity == severity && v.code@ == code@ && v.message@ == message@,
    {
        ToolResponse::Error(ToolError {
            schema_version: TOOL_PROTOCOL_SCHEMA_VERSION,
            call_id: string_from(call_id),
            severity,
            code: string_from(code),
            message: string_from(message),
        })
    }

    pub open spec fn spec_call_id(self) -> Seq<char> {
        match self {
            ToolResponse::Result(v) => v.call_id@,
            ToolResponse::Error(v) => v.call_id@,
        }
    }

    /// The call id the response answers.
    pub fn call_id(&self) -> (r: &str)
        ensures
            r@ == self.spec_call_id(),
    {
        match self {
            ToolResponse::Result(v) => v.call_id.as_str(),
            ToolResponse::Error(v) => v.call_id.as_str(),
        }
    }

    /// Checks the response's call id, schema and size limits.
    pub fn validate_for(&self, definition: &ToolDefinition, expected_call_id: &str) -> (r: Result<(), ToolProtocolError>)
        ensures
            r is Ok <==> response_valid_for(*self, *definition, expected_call_id@),
            r is Err ==> r->Err_0 is Request,
    {
        if !same_text(self.call_id(), expected_call_id) {
            return Err(ToolProtocolError::Request(string_from("response call id mismatch")));
        }
        match self {
            ToolResponse::Result(v) => {
                if v.schema_version != TOOL_PROTOCOL_SCHEMA_VERSION {
                    return Err(ToolProtocolError::Request(string_from("unsupported result schema")));
                }
                if v.content.as_str().len() > definition.max_result_bytes {
                    return Err(ToolProtocolError::Request(string_from("result exceeds max_result_bytes")));
                }
            },
            ToolResponse::Error(v) => {
                if v.schema_version != TOOL_PROTOCOL_SCHEMA_VERSION {
                    return Err(ToolProtocolError::Request(string_from("unsupported error schema")));
                }
                match validate_identifier("error code", v.code.as_str(), MAX_TOOL_NAME_LEN) {
                    Ok(()) => {},
                    Err(e) => {
                        return Err(ToolProtocolError::Request(e.message()));
                    },
                }
                if v.message.as_str().unicode_len() > MAX_ERROR_MESSAGE_CHARS {
                    return Err(ToolProtocolError::Request(string_from("tool error message exceeds limit")));
                }
            },
        }
        Ok(())
    }
}


/// A request that passed `validate_against` its definition; only
/// `invoke_validated` builds one.
pub struct ValidatedToolCall<'a> {
    definition: &'a ToolDefinition,
    request: &'a ToolRequest,
}

impl<'a> ValidatedToolCall<'a> {
    #[verifier::type_invariant]
    spec fn inv(self) -> bool {
        definition_valid(*self.definition) && request_matches(*self.request, *self.definition)
    }

    pub closed spec fn spec_definition(self) -> ToolDefinition {
        *self.definition
    }

    pub closed spec fn spec_request(self) -> ToolRequest {
        *self.request
    }

    pub fn definition(&self) -> (r: &'a ToolDefinition)
        ensures
            *r == self.spec_definition(),
            definition_valid(*r),
    {
        proof { use_type_invariant(self); }
        self.definition
    }

    pub fn request(&self) -> (r: &'a ToolRequest)
        ensures
            *r == self.spec_request(),
            request_matches(*r, self.spec_definition()),
    {
        proof { use_type_invariant(self); }
        self.request
    }
}

/// A call of `request` under `definition`, which it is known to match.
pub(crate) fn validated_call<'a>(definition: &'a ToolDefinition, request: &'a ToolRequest) -> (r: ValidatedToolCall<'a>)
    requires
        definition_valid(*definition),
        request_matches(*request, *definition),
    ensures
        r.spec_definition() == *definition,
        r.spec_request() == *request,
{
    ValidatedToolCall { definition, request }
}

/// Something that carries out validated tool calls.
pub trait ToolExecutor: Sized {
    /// `r` is an answer this executor may give to `request` under
    /// `definition`, leaving it as `after`. An executor that says nothing of
    /// its answers admits every one.
    open spec fn executes(&self, definition: ToolDefinition, request: ToolRequest, r: ToolResponse, after: Self) -> bool {
        true
    }

    fn execute(&mut self, call: ValidatedToolCall<'_>) -> (r: ToolResponse)
        ensures
            old(self).executes(call.spec_definition(), call.spec_request(), r, *final(self));
}

/// Validates the request, runs it, and checks what came back. A request
/// that fails validation never reaches the executor; a response that does
/// not fit the definition is replaced by a fatal protocol error.
pub fn invoke_validated<E: ToolExecutor>(
    definition: &ToolDefinition,
    request: &ToolRequest,
    executor: &mut E,
) -> (r: ToolResponse)
    ensures
        r.spec_call_id() == request.call_id@,
        !(definition_valid(*definition) && request_matches(*request, *definition)) ==> {
            &&& *final(executor) == *old(executor)
            &&& r matches ToolResponse::Error(e) && e.severity == ToolErrorSeverity::Fatal
                && e.code@ == "protocol-validation"@
        },
        definition_valid(*definition) && request_matches(*request, *definition) ==>
            exists|response: ToolResponse| #[trigger] checked_response(response, *definition, request.call_id@, r)
                && old(executor).executes(*definition, *request, response, *final(executor)),
{
    match request.validate_against(definition) {
        Err(error) => {
            let m = error.message();
            return ToolResponse::error(request.call_id.as_str(), ToolErrorSeverity::Fatal, "protocol-validation", m.as_str());
        },
        Ok(()) => {},
    }
    let response = executor.execute(ValidatedToolCall { definition, request });
    let ghost answered = response;
    let r = check_response(definition, request.call_id.as_str(), response);
    assert(checked_response(answered, *definition, request.call_id@, r));
    r
}

/// `r` is what the protocol lets through of `response`: the response itself
/// where it is valid for the definition and call id, and otherwise a fatal
/// `invalid-tool-response` error for that call id.
pub open spec fn checked_response(response: ToolResponse, definition: ToolDefinition, call_id: Seq<char>, r: ToolResponse) -> bool {
    if response_valid_for(response, definition, call_id) {
        r == response
    } else {
        r matches ToolResponse::Error(e) && e.schema_version == TOOL_PROTOCOL_SCHEMA_VERSION && e.call_id@ == call_id
            && e.severity == ToolErrorSeverity::Fatal && e.code@ == "invalid-tool-response"@
    }
}

/// Checks an executor's response against the definition and call id: a
/// valid response is returned unchanged, anything else becomes a fatal
/// `invalid-tool-response` error.
pub fn check_response(definition: &ToolDefinition, call_id: &str, response: ToolResponse) -> (r: ToolResponse)
    ensures
        checked_response(response, *definition, call_id@, r),
        r.spec_call_id() == call_id@,
{
    match response.validate_for(definition, call_id) {
        Ok(()) => response,
        Err(error) => {
            let m = error.message();
            ToolResponse::error(call_id, ToolErrorSeverity::Fatal, "invalid-tool-response", m.as_str())
        },
    }
}

#[derive(Clone, Debug)]
pub enum MockMode {
    EchoArgument(String),
    FixedResult(String),
    FixedError { severity: ToolErrorSeverity, code: String, message: String },
}

#[derive(Clone, Debug)]
pub struct DeterministicMockExecutor {
    pub invocations: usize,
    pub mode: MockMode,
}

impl DeterministicMockExecutor {
    pub fn new(mode: MockMode) -> (r: DeterministicMockExecutor)
        ensures
            r.invocations == 0,
            r.mode == mode,
    {
        DeterministicMockExecutor { invocations: 0, mode }
    }
}

/// Text of a tool value as the echo mock reports it.
pub open spec fn value_text(v: ToolValue) -> Seq<char> {
    match v {
        ToolValue::String(s) => s@,
        ToolValue::Integer(i) => crate::text::dec_signed(i as int),
        ToolValue::Boolean(b) => if b { "true"@ } else { "false"@ },
    }
}

/// What the echo mock answers: the first argument named `name`, or empty.
pub open spec fn echo_content(args: Seq<ToolArgument>, name: Seq<char>) -> Seq<char>
    decreases args.len(),
{
    if args.len() == 0 {
        Seq::empty()
    } else if args[0].name@ == name {
        value_text(args[0].value)
    } else {
        echo_content(args.drop_first(), name)
    }
}

fn value_string(v: &ToolValue) -> (r: String)
    ensures
        r@ == value_text(*v),
{
    match v {
        ToolValue::String(s) => s.clone(),
        ToolValue::Integer(i) => crate::text::i64_text(*i),
        ToolValue::Boolean(b) => if *b { string_from("true") } else { string_from("false") },
    }
}

fn echo_of(args: &Vec<ToolArgument>, name: &str) -> (r: String)
    ensures
        r@ == echo_content(args@, name@),
{
    let mut i: usize = 0;
    assert(args@.subrange(0, args.len() as int) =~= args@);
    while i < args.len()
        invariant
            i <= args.len(),
            echo_content(args@, name@) == echo_content(args@.subrange(i as int, args.len() as int), name@),
        decreases args.len() - i,
    {
        let ghost rest = args@.subrange(i as int, args.len() as int);
        assert(rest.drop_first() =~= args@.subrange(i + 1, args.len() as int));
        if same_text(args[i].name.as_str(), name) {
            return value_string(&args[i].value);
        }
        i = i + 1;
    }
    assert(args@.subrange(i as int, args.len() as int) =~= Seq::<ToolArgument>::empty());
    String::new()
}

impl ToolExecutor for DeterministicMockExecutor {
    /// Counts the call and answers as its mode says: the echoed argument,
    /// a fixed result or a fixed error.
    open spec fn executes(&self, definition: ToolDefinition, request: ToolRequest, r: ToolResponse, after: Self) -> bool {
        &&& after.mode == self.mode
        &&& after.invocations == if self.invocations < usize::MAX {
            self.invocations + 1
        } else {
            self.invocations as int
        }
        &&& r.spec_call_id() == request.call_id@
        &&& match self.mode {
            MockMode::EchoArgument(name) => r matches ToolResponse::Result(v)
                && v.content@ == echo_content(request.arguments@, name@),
            MockMode::FixedResult(text) => r matches ToolResponse::Result(v) && v.content@ == text@,
            MockMode::FixedError { severity, code, message } => r matches ToolResponse::Error(e)
                && e.severity == severity && e.code@ == code@ && e.message@ == message@,
        }
    }

    fn execute(&mut self, call: ValidatedToolCall<'_>) -> (r: ToolResponse)
    {
        if self.invocations < usize::MAX {
            self.invocations = self.invocations + 1;
        }
        let request = call.request();
        match &self.mode {
            MockMode::EchoArgument(name) => {
                let content = echo_of(&request.arguments, name.as_str());
                ToolResponse::result(request.call_id.as_str(), content.as_str())
            },
            MockMode::FixedResult(v) => ToolResponse::result(request.call_id.as_str(), v.as_str()),
            MockMode::FixedError { severity, code, message } => {
                ToolResponse::error(request.call_id.as_str(), *severity, code.as_str(), message.as_str())
            },
        }
    }
}


// ---------------------------------------------------------------------------
// Copies
// ---------------------------------------------------------------------------

/// Two argument kinds with the same bounds and variants.
pub open spec fn same_kind(a: ToolArgKind, b: ToolArgKind) -> bool {
    match (a, b) {
        (ToolArgKind::String { min_len: a1, max_len: a2 }, ToolArgKind::String { min_len: b1, max_len: b2 }) => a1 == b1 && a2 == b2,
        (ToolArgKind::Integer { min: a1, max: a2 }, ToolArgKind::Integer { min: b1, max: b2 }) => a1 == b1 && a2 == b2,
        (ToolArgKind::Boolean, ToolArgKind::Boolean) => true,
        (ToolArgKind::Enum { variants: va }, ToolArgKind::Enum { variants: vb }) => {
            &&& va@.len() == vb@.len()
            &&& forall|i: int| 0 <= i < va@.len() ==> (#[trigger] va@[i])@ == vb@[i]@
        },
        _ => false,
    }
}

pub open spec fn same_arg_spec(a: ToolArgSpec, b: ToolArgSpec) -> bool {
    a.name@ == b.name@ && a.required == b.required && same_kind(a.kind, b.kind)
}

/// Two definitions that hold the same texts and values.
pub open spec fn same_definition(a: ToolDefinition, b: ToolDefinition) -> bool {
    &&& a.schema_version == b.schema_version
    &&& a.name@ == b.name@
    &&& a.version == b.version
    &&& a.capability@ == b.capability@
    &&& a.mutative == b.mutative
    &&& a.timeout_ms == b.timeout_ms
    &&& a.max_result_bytes == b.max_result_bytes
    &&& a.args@.len() == b.args@.len()
    &&& forall|i: int| 0 <= i < a.args@.len() ==> same_arg_spec(#[trigger] a.args@[i], b.args@[i])
}

fn copy_strings(v: &Vec<String>) -> (r: Vec<String>)
    ensures
        r@.len() == v@.len(),
        forall|i: int| 0 <= i < v@.len() ==> (#[trigger] r@[i])@ == v@[i]@,
{
    let mut r: Vec<String> = Vec::new();
    let mut i: usize = 0;
    while i < v.len()
        invariant
            i <= v.len(),
            r@.len() == i,
            forall|k: int| 0 <= k < i ==> (#[trigger] r@[k])@ == v@[k]@,
        decreases v.len() - i,
    {
        r.push(v[i].clone());
        i = i + 1;
    }
    r
}

fn copy_kind(k: &ToolArgKind) -> (r: ToolArgKind)
    ensures
        same_kind(*k, r),
{
    match k {
        ToolArgKind::String { min_len, max_len } => ToolArgKind::String { min_len: *min_len, max_len: *max_len },
        ToolArgKind::Integer { min, max } => ToolArgKind::Integer { min: *min, max: *max },
        ToolArgKind::Boolean => ToolArgKind::Boolean,
        ToolArgKind::Enum { variants } => ToolArgKind::Enum { variants: copy_strings(variants) },
    }
}

/// An independent copy of a definition.
pub fn copy_definition(d: &ToolDefinition) -> (r: ToolDefinition)
    ensures
        same_definition(*d, r),
{
    let mut args: Vec<ToolArgSpec> = Vec::new();
    let mut i: usize = 0;
    while i < d.args.len()
        invariant
            i <= d.args.len(),
            args@.len() == i,
            forall|k: int| 0 <= k < i ==> same_arg_spec(d.args@[k], #[trigger] args@[k]),
        decreases d.args.len() - i,
    {
        let a = &d.args[i];
        args.push(ToolArgSpec { name: a.name.clone(), required: a.required, kind: copy_kind(&a.kind) });
        i = i + 1;
    }
    ToolDefinition {
        schema_version: d.schema_version,
        name: d.name.clone(),
        version: d.version,
        capability: d.capability.clone(),
        mutative: d.mutative,
        timeout_ms: d.timeout_ms,
        max_result_bytes: d.max_result_bytes,
        args,
    }
}

/// Definitions that hold the same values are valid together and admit the
/// same requests.
pub proof fn lemma_same_definition(a: ToolDefinition, b: ToolDefinition, r: ToolRequest)
    requires
        same_definition(a, b),
    ensures
        definition_valid(a) == definition_valid(b),
        request_matches(r, a) == request_matches(r, b),
{
    assert forall|i: int| 0 <= i < a.args@.len() implies arg_spec_valid(#[trigger] a.args@[i]) == arg_spec_valid(b.args@[i]) by {
        let (x, y) = (a.args@[i], b.args@[i]);
        assert(same_arg_spec(x, y));
        match (x.kind, y.kind) {
            (ToolArgKind::Enum { variants: va }, ToolArgKind::Enum { variants: vb }) => {
                assert(distinct_strings(va@) == distinct_strings(vb@)) by {
                    if distinct_strings(va@) {
                        assert forall|p: int, q: int| 0 <= p < q < vb@.len() implies vb@[p]@ != vb@[q]@ by {
                            assert(va@[p]@ == vb@[p]@ && va@[q]@ == vb@[q]@);
                        }
                    }
                    if distinct_strings(vb@) {
                        assert forall|p: int, q: int| 0 <= p < q < va@.len() implies va@[p]@ != va@[q]@ by {
                            assert(va@[p]@ == vb@[p]@ && va@[q]@ == vb@[q]@);
                        }
                    }
                }
                assert((forall|k: int| 0 <= k < va@.len() ==> valid_identifier(#[trigger] va@[k]@, MAX_TOOL_NAME_LEN as nat))
                    == (forall|k: int| 0 <= k < vb@.len() ==> valid_identifier(#[trigger] vb@[k]@, MAX_TOOL_NAME_LEN as nat))) by {
                    if forall|k: int| 0 <= k < va@.len() ==> valid_identifier(#[trigger] va@[k]@, MAX_TOOL_NAME_LEN as nat) {
                        assert forall|k: int| 0 <= k < vb@.len() implies valid_identifier(#[trigger] vb@[k]@, MAX_TOOL_NAME_LEN as nat) by {
                            assert(va@[k]@ == vb@[k]@);
                        }
                    }
                    if forall|k: int| 0 <= k < vb@.len() ==> valid_identifier(#[trigger] vb@[k]@, MAX_TOOL_NAME_LEN as nat) {
                        assert forall|k: int| 0 <= k < va@.len() implies valid_identifier(#[trigger] va@[k]@, MAX_TOOL_NAME_LEN as nat) by {
                            assert(va@[k]@ == vb@[k]@);
                        }
                    }
                }
            },
            _ => {},
        }
    }
    assert((forall|i: int| 0 <= i < a.args@.len() ==> arg_spec_valid(#[trigger] a.args@[i]))
        == (forall|i: int| 0 <= i < b.args@.len() ==> arg_spec_valid(#[trigger] b.args@[i]))) by {
        if forall|i: int| 0 <= i < a.args@.len() ==> arg_spec_valid(#[trigger] a.args@[i]) {
            assert forall|i: int| 0 <= i < b.args@.len() implies arg_spec_valid(#[trigger] b.args@[i]) by {
                assert(arg_spec_valid(a.args@[i]) == arg_spec_valid(b.args@[i]));
            }
        }
        if forall|i: int| 0 <= i < b.args@.len() ==> arg_spec_valid(#[trigger] b.args@[i]) {
            assert forall|i: int| 0 <= i < a.args@.len() implies arg_spec_valid(#[trigger] a.args@[i]) by {
                assert(arg_spec_valid(a.args@[i]) == arg_spec_valid(b.args@[i]));
            }
        }
    }
    assert(distinct_names(a.args@) == distinct_names(b.args@)) by {
        if distinct_names(a.args@) {
            assert forall|p: int, q: int| 0 <= p < q < b.args@.len() implies b.args@[p].name@ != b.args@[q].name@ by {
                assert(same_arg_spec(a.args@[p], b.args@[p]) && same_arg_spec(a.args@[q], b.args@[q]));
            }
        }
        if distinct_names(b.args@) {
            assert forall|p: int, q: int| 0 <= p < q < a.args@.len() implies a.args@[p].name@ != a.args@[q].name@ by {
                assert(same_arg_spec(a.args@[p], b.args@[p]) && same_arg_spec(a.args@[q], b.args@[q]));
            }
        }
    }
    assert forall|v: ToolValue, i: int| 0 <= i < a.args@.len() implies #[trigger] value_fits(a.args@[i], v) == value_fits(b.args@[i], v) by {
        let (x, y) = (a.args@[i], b.args@[i]);
        assert(same_arg_spec(x, y));
        match (x.kind, y.kind, v) {
            (ToolArgKind::Enum { variants: va }, ToolArgKind::Enum { variants: vb }, ToolValue::String(s)) => {
                if exists|k: int| 0 <= k < va@.len() && #[trigger] va@[k]@ == s@ {
                    let k = choose|k: int| 0 <= k < va@.len() && #[trigger] va@[k]@ == s@;
                    assert(vb@[k]@ == s@);
                }
                if exists|k: int| 0 <= k < vb@.len() && #[trigger] vb@[k]@ == s@ {
                    let k = choose|k: int| 0 <= k < vb@.len() && #[trigger] vb@[k]@ == s@;
                    assert(va@[k]@ == s@);
                }
            },
            _ => {},
        }
    }
    assert forall|j: int| 0 <= j < r.arguments@.len() implies argument_admitted(a, #[trigger] r.arguments@[j]) == argument_admitted(b, r.arguments@[j]) by {
        let x = r.arguments@[j];
        if argument_admitted(a, x) {
            let k = choose|k: int| 0 <= k < a.args@.len() && #[trigger] a.args@[k].name@ == x.name@ && value_fits(a.args@[k], x.value);
            assert(value_fits(a.args@[k], x.value) == value_fits(b.args@[k], x.value));
            assert(b.args@[k].name@ == x.name@);
        }
        if argument_admitted(b, x) {
            let k = choose|k: int| 0 <= k < b.args@.len() && #[trigger] b.args@[k].name@ == x.name@ && value_fits(b.args@[k], x.value);
            assert(value_fits(a.args@[k], x.value) == value_fits(b.args@[k], x.value));
            assert(a.args@[k].name@ == x.name@);
        }
    }
    assert((forall|k: int| 0 <= k < a.args@.len() && (#[trigger] a.args@[k]).required ==> has_argument(r, a.args@[k].name@))
        == (forall|k: int| 0 <= k < b.args@.len() && (#[trigger] b.args@[k]).required ==> has_argument(r, b.args@[k].name@))) by {
        if forall|k: int| 0 <= k < a.args@.len() && (#[trigger] a.args@[k]).required ==> has_argument(r, a.args@[k].name@) {
            assert forall|k: int| 0 <= k < b.args@.len() && (#[trigger] b.args@[k]).required implies has_argument(r, b.args@[k].name@) by {
                assert(same_arg_spec(a.args@[k], b.args@[k]));
            }
        }
        if forall|k: int| 0 <= k < b.args@.len() && (#[trigger] b.args@[k]).required ==> has_argument(r, b.args@[k].name@) {
            assert forall|k: int| 0 <= k < a.args@.len() && (#[trigger] a.args@[k]).required implies has_argument(r, a.args@[k].name@) by {
                assert(same_arg_spec(a.args@[k], b.args@[k]));
            }
        }
    }
}

} // verus!
