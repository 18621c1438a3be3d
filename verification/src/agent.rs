//! The principal side of the reference agent: the enforcement mode switch,
//! the conversation kept with a chat-completion model, the parsing of the
//! model's tool calls into tool invocations, and the feedback fed back to it.

use vstd::prelude::*;
use crate::text::{chars_eq, chars_of, copy_str, push_chars, push_str, string_of};
use crate::tools::{ToolCall, ToolOutput};

verus! {

/// Whether tool calls go through the authorization layer.
#[derive(Clone, Copy, Debug, PartialEq, Eq, Structural)]
pub enum AuthzMode {
    /// The framework: every tool call is authorized against a capability.
    Enforced,
    /// The vulnerable baseline: ambient authority, no capability check.
    Bypassed,
}

/// Whether `c` is a Unicode white-space character (the `White_Space`
/// property, which `char::is_whitespace` tests).
pub open spec fn is_white_space(c: char) -> bool {
    let v = c as u32;
    ||| 9 <= v <= 13
    ||| v == 32
    ||| v == 0x85
    ||| v == 0xa0
    ||| v == 0x1680
    ||| 0x2000 <= v <= 0x200a
    ||| v == 0x2028
    ||| v == 0x2029
    ||| v == 0x202f
    ||| v == 0x205f
    ||| v == 0x3000
}

/// `s` without its leading white space.
pub open spec fn trim_start(s: Seq<char>) -> Seq<char>
    decreases s.len(),
{
    if s.len() > 0 && is_white_space(s[0]) {
        trim_start(s.drop_first())
    } else {
        s
    }
}

/// `s` without its trailing white space.
pub open spec fn trim_end(s: Seq<char>) -> Seq<char>
    decreases s.len(),
{
    if s.len() > 0 && is_white_space(s.last()) {
        trim_end(s.drop_last())
    } else {
        s
    }
}

/// `c` with an ASCII capital letter made small.
pub open spec fn ascii_lower(c: char) -> char {
    if 65 <= c as u32 <= 90 {
        ((c as u32) + 32) as char
    } else {
        c
    }
}

/// `s` with its ASCII capital letters made small.
pub open spec fn ascii_lowered(s: Seq<char>) -> Seq<char> {
    Seq::new(s.len(), |i: int| ascii_lower(s[i]))
}

/// The words that switch enforcement off.
pub open spec fn is_off_word(s: Seq<char>) -> bool {
    ||| s == "off"@
    ||| s == "0"@
    ||| s == "false"@
    ||| s == "no"@
    ||| s == "bypass"@
}

/// The mode an `AUTHZ` value selects: bypassed only for an explicit "off"
/// word (white space around it and the case of ASCII letters ignored), and
/// enforced for anything else, so that it fails closed.
pub open spec fn mode_for(value: Seq<char>) -> AuthzMode {
    if is_off_word(ascii_lowered(trim_end(trim_start(value)))) {
        AuthzMode::Bypassed
    } else {
        AuthzMode::Enforced
    }
}

/// Whether `c` is white space.
pub(crate) fn white_space(c: char) -> (r: bool)
    ensures
        r == is_white_space(c),
{
    let v = c as u32;
    (9 <= v && v <= 13) || v == 32 || v == 0x85 || v == 0xa0 || v == 0x1680 || (0x2000 <= v && v
        <= 0x200a) || v == 0x2028 || v == 0x2029 || v == 0x202f || v == 0x205f || v == 0x3000
}

/// Trimming the leading white space of `s[i..]` and of `s[i+1..]` agree
/// when `s[i]` is white space.
proof fn lemma_trim_start_step(s: Seq<char>, i: int)
    requires
        0 <= i < s.len(),
        is_white_space(s[i]),
    ensures
        trim_start(s.subrange(i, s.len() as int)) == trim_start(s.subrange(i + 1, s.len() as int)),
{
    assert(s.subrange(i, s.len() as int).drop_first() =~= s.subrange(i + 1, s.len() as int));
}

/// Trimming the trailing white space of `s[..j]` and of `s[..j-1]` agree
/// when `s[j-1]` is white space.
proof fn lemma_trim_end_step(s: Seq<char>, j: int)
    requires
        0 < j <= s.len(),
        is_white_space(s[j - 1]),
    ensures
        trim_end(s.subrange(0, j)) == trim_end(s.subrange(0, j - 1)),
{
    assert(s.subrange(0, j).drop_last() =~= s.subrange(0, j - 1));
}

impl AuthzMode {
    /// Parses an `AUTHZ` value. Anything that is not an explicit "off"
    /// switch enforces: fail closed.
    pub fn from_env_value(value: &str) -> (r: AuthzMode)
        ensures
            r == mode_for(value@),
    {
        let cs = chars_of(value);
        let mut start: usize = 0;
        assert(value@.subrange(0, value@.len() as int) =~= value@);
        while start < cs.len() && white_space(cs[start])
            invariant
                start <= cs@.len(),
                cs@ == value@,
                trim_start(value@) == trim_start(value@.subrange(start as int, value@.len() as int)),
            decreases cs@.len() - start,
        {
            proof {
                lemma_trim_start_step(value@, start as int);
            }
            start = start + 1;
        }
        let ghost rest = value@.subrange(start as int, value@.len() as int);
        assert(trim_start(value@) == rest) by {
            if rest.len() > 0 {
                assert(rest[0] == cs@[start as int]);
            }
        }
        let mut end: usize = cs.len();
        assert(rest.subrange(0, end - start) =~= rest);
        while end > start && white_space(cs[end - 1])
            invariant
                start <= end <= cs@.len(),
                cs@ == value@,
                rest == value@.subrange(start as int, value@.len() as int),
                trim_end(rest) == trim_end(rest.subrange(0, end - start)),
            decreases end,
        {
            proof {
                assert(rest[end - start - 1] == cs@[end - 1]);
                lemma_trim_end_step(rest, end - start);
            }
            end = end - 1;
        }
        assert(trim_end(rest) == rest.subrange(0, end - start)) by {
            let t = rest.subrange(0, end - start);
            if t.len() > 0 {
                assert(t.last() == cs@[end - 1]);
            }
        }
        let mut lowered: Vec<char> = Vec::new();
        let mut i: usize = start;
        while i < end
            invariant
                start <= i <= end <= cs@.len(),
                cs@ == value@,
                lowered@ == ascii_lowered(cs@.subrange(start as int, i as int)),
            decreases end - i,
        {
            let c = cs[i];
            let v = c as u32;
            let low = if 65 <= v && v <= 90 {
                char_of(v + 32)
            } else {
                c
            };
            lowered.push(low);
            assert(lowered@ =~= ascii_lowered(cs@.subrange(start as int, i + 1)));
            i = i + 1;
        }
        assert(cs@.subrange(start as int, end as int) =~= rest.subrange(0, end - start));
        let off = chars_of("off");
        let zero = chars_of("0");
        let no_word = chars_of("false");
        let no = chars_of("no");
        let bypass = chars_of("bypass");
        if chars_eq(&lowered, &off) || chars_eq(&lowered, &zero) || chars_eq(&lowered, &no_word)
            || chars_eq(&lowered, &no) || chars_eq(&lowered, &bypass) {
            AuthzMode::Bypassed
        } else {
            AuthzMode::Enforced
        }
    }
}

/// The small ASCII letter with code `v`.
fn char_of(v: u32) -> (r: char)
    requires
        97 <= v <= 122,
    ensures
        r == v as char,
{
    ((v as u8) as char)
}

/// The value of one field of a JSON object, as far as tool arguments use it.
#[derive(Debug, PartialEq, Eq)]
pub enum JsonField {
    /// A string.
    Str(String),
    /// A number: its value where it is an unsigned 64-bit integer.
    Number(Option<u64>),
    /// An array: each element's text where the element is a string.
    Array(Vec<Option<String>>),
    /// Any other value.
    Other,
}

/// The abstract content of a JSON field.
pub enum JsonFieldView {
    Str(Seq<char>),
    Number(Option<u64>),
    Array(Seq<Option<Seq<char>>>),
    Other,
}

/// The text of an optional string.
pub open spec fn opt_text(s: Option<String>) -> Option<Seq<char>> {
    match s {
        Some(x) => Some(x@),
        None => None,
    }
}

impl View for JsonField {
    type V = JsonFieldView;

    open spec fn view(&self) -> JsonFieldView {
        match self {
            JsonField::Str(s) => JsonFieldView::Str(s@),
            JsonField::Number(n) => JsonFieldView::Number(*n),
            JsonField::Array(items) => JsonFieldView::Array(
                Seq::new(items@.len(), |i: int| opt_text(items@[i])),
            ),
            JsonField::Other => JsonFieldView::Other,
        }
    }
}

/// The (key, value) fields of the JSON object that `serde_json` reads from
/// `text`: `None` where the text is not JSON, no fields where it is JSON
/// but not an object.
pub uninterp spec fn json_object_fields(text: Seq<char>) -> Option<Seq<(Seq<char>, JsonFieldView)>>;

/// The abstract content of parsed fields.
pub open spec fn fields_view(r: Option<Vec<(String, JsonField)>>) -> Option<Seq<(Seq<char>, JsonFieldView)>> {
    match r {
        Some(v) => Some(Seq::new(v@.len(), |i: int| (v@[i].0@, v@[i].1@))),
        None => None,
    }
}

/// `serde_json::from_str` into a `serde_json::Value`, with the fields of an
/// object taken as plain values.
#[verifier::external_body]
fn parse_json_fields(text: &str) -> (r: Option<Vec<(String, JsonField)>>)
    ensures
        fields_view(r) == json_object_fields(text@),
{
    let value: serde_json::Value = serde_json::from_str(text).ok()?;
    Some(match value {
        serde_json::Value::Object(map) => map.into_iter().map(|(key, v)| (key, match v {
            serde_json::Value::String(s) => JsonField::Str(s),
            serde_json::Value::Number(n) => JsonField::Number(n.as_u64()),
            serde_json::Value::Array(items) => JsonField::Array(
                items.into_iter().map(|x| x.as_str().map(str::to_owned)).collect(),
            ),
            _ => JsonField::Other,
        })).collect(),
        _ => Vec::new(),
    })
}

/// The value of the first field named `key`.
pub open spec fn field_of(fields: Seq<(Seq<char>, JsonFieldView)>, key: Seq<char>) -> Option<JsonFieldView>
    decreases fields.len(),
{
    if fields.len() == 0 {
        None
    } else if fields[0].0 == key {
        Some(fields[0].1)
    } else {
        field_of(fields.drop_first(), key)
    }
}

/// The string held by the field `key`, if it holds one.
pub open spec fn str_field(fields: Seq<(Seq<char>, JsonFieldView)>, key: Seq<char>) -> Option<Seq<char>> {
    match field_of(fields, key) {
        Some(JsonFieldView::Str(s)) => Some(s),
        _ => None,
    }
}

/// The strings among `items`, in order.
pub open spec fn strings_among(items: Seq<Option<Seq<char>>>) -> Seq<Seq<char>>
    decreases items.len(),
{
    if items.len() == 0 {
        Seq::empty()
    } else {
        let prev = strings_among(items.drop_last());
        match items.last() {
            Some(s) => prev.push(s),
            None => prev,
        }
    }
}

/// The abstract content of a tool call.
pub enum CallView {
    FsRead { path: Seq<char> },
    FsWrite { path: Seq<char>, contents: Seq<char> },
    Exec { binary: Seq<char>, args: Seq<Seq<char>> },
    Network { host: Seq<char>, port: u16, payload: Seq<char> },
}

impl View for ToolCall {
    type V = CallView;

    open spec fn view(&self) -> CallView {
        match self {
            ToolCall::FsRead { path } => CallView::FsRead { path: path@ },
            ToolCall::FsWrite { path, contents } => CallView::FsWrite {
                path: path@,
                contents: contents@,
            },
            ToolCall::Exec { binary, args } => CallView::Exec {
                binary: binary@,
                args: crate::capability::texts(args@),
            },
            ToolCall::Network { host, port, payload } => CallView::Network {
                host: host@,
                port: *port,
                payload: payload@,
            },
        }
    }
}

/// The call that a tool named `name` with the argument fields `fields`
/// stands for: a read needs a string `path`; a write a string `path` and
/// `contents`; an exec a string `binary` and an array `args`, of which the
/// strings are kept; a network call a string `host`, an integer `port` that
/// fits in 16 bits and a string `payload`. Any other name, a missing or
/// mistyped field, or arguments that are not JSON give no call.
pub open spec fn parsed_call(name: Seq<char>, fields: Option<Seq<(Seq<char>, JsonFieldView)>>) -> Option<CallView> {
    match fields {
        None => None,
        Some(f) => if name == "fs_read"@ {
            match str_field(f, "path"@) {
                Some(path) => Some(CallView::FsRead { path }),
                None => None,
            }
        } else if name == "fs_write"@ {
            match (str_field(f, "path"@), str_field(f, "contents"@)) {
                (Some(path), Some(contents)) => Some(CallView::FsWrite { path, contents }),
                _ => None,
            }
        } else if name == "exec"@ {
            match (str_field(f, "binary"@), field_of(f, "args"@)) {
                (Some(binary), Some(JsonFieldView::Array(items))) => Some(
                    CallView::Exec { binary, args: strings_among(items) },
                ),
                _ => None,
            }
        } else if name == "network"@ {
            match (str_field(f, "host"@), field_of(f, "port"@), str_field(f, "payload"@)) {
                (Some(host), Some(JsonFieldView::Number(Some(port))), Some(payload)) => if port
                    <= 0xffff {
                    Some(CallView::Network { host, port: port as u16, payload })
                } else {
                    None
                },
                _ => None,
            }
        } else {
            None
        },
    }
}

/// The function part of a model's tool call: the tool's name and its
/// arguments as JSON text.
#[derive(Debug)]
pub struct RawFunctionCall {
    pub name: String,
    pub arguments: String,
}

/// A model's tool call: its kind (always `function`), its id and its
/// function part.
#[derive(Debug)]
pub struct RawToolCall {
    pub kind: String,
    pub id: String,
    pub function: RawFunctionCall,
}

/// The abstract content of a raw tool call.
pub struct RawCallView {
    pub kind: Seq<char>,
    pub id: Seq<char>,
    pub name: Seq<char>,
    pub arguments: Seq<char>,
}

impl View for RawToolCall {
    type V = RawCallView;

    open spec fn view(&self) -> RawCallView {
        RawCallView {
            kind: self.kind@,
            id: self.id@,
            name: self.function.name@,
            arguments: self.function.arguments@,
        }
    }
}

/// The views of raw tool calls.
pub open spec fn raw_views(v: Seq<RawToolCall>) -> Seq<RawCallView> {
    Seq::new(v.len(), |i: int| v[i]@)
}

/// The call a raw tool call stands for, if any.
pub open spec fn raw_parsed(raw: RawCallView) -> Option<CallView> {
    parsed_call(raw.name, json_object_fields(raw.arguments))
}

/// The calls among `raws` that parse, each with its id, in order; a call
/// that does not parse is left out.
pub fn executable_tool_calls(raws: &Vec<RawToolCall>) -> (r: Vec<(ToolCall, String)>)
    ensures
        call_pairs(r@) == executable_calls(raw_views(raws@)),
{
    let ghost all = raw_views(raws@);
    let mut calls: Vec<(ToolCall, String)> = Vec::new();
    let mut i: usize = 0;
    while i < raws.len()
        invariant
            i <= raws@.len(),
            all == raw_views(raws@),
            call_pairs(calls@) == executable_calls(all.subrange(0, i as int)),
        decreases raws@.len() - i,
    {
        let ghost next = all.subrange(0, i + 1);
        assert(next.drop_last() =~= all.subrange(0, i as int));
        assert(next.last() == raws@[i as int]@);
        match parse_raw_tool_call(&raws[i].function) {
            Some(call) => {
                let ghost before = calls@;
                calls.push((call, raws[i].id.clone()));
                assert(call_pairs(calls@) =~= call_pairs(before).push((call@, raws@[i as int].id@)));
            },
            None => {},
        }
        i = i + 1;
    }
    assert(all.subrange(0, all.len() as int) =~= all);
    calls
}

/// A string field as the library holds it.
fn field_str(fields: &Vec<(String, JsonField)>, key: &str) -> (r: Option<String>)
    ensures
        opt_text(r) == str_field(fields_view(Some(*fields))->0, key@),
{
    match field_value(fields, key) {
        Some(JsonField::Str(s)) => Some(s.clone()),
        _ => None,
    }
}

/// The first field named `key`.
fn field_value<'a>(fields: &'a Vec<(String, JsonField)>, key: &str) -> (r: Option<&'a JsonField>)
    ensures
        match r {
            Some(v) => field_of(fields_view(Some(*fields))->0, key@) == Some(v@),
            None => field_of(fields_view(Some(*fields))->0, key@) is None,
        },
{
    let ghost all = fields_view(Some(*fields))->0;
    let mut i: usize = 0;
    assert(all.subrange(0, all.len() as int) =~= all);
    while i < fields.len()
        invariant
            i <= fields@.len(),
            all == fields_view(Some(*fields))->0,
            field_of(all, key@) == field_of(all.subrange(i as int, all.len() as int), key@),
        decreases fields@.len() - i,
    {
        let ghost rest = all.subrange(i as int, all.len() as int);
        assert(rest.drop_first() =~= all.subrange(i + 1, all.len() as int));
        assert(rest[0] == (fields@[i as int].0@, fields@[i as int].1@));
        if crate::text::str_eq(fields[i].0.as_str(), key) {
            return Some(&fields[i].1);
        }
        i = i + 1;
    }
    None
}

/// The strings among `items`, in order.
fn strings_in(items: &Vec<Option<String>>) -> (r: Vec<String>)
    ensures
        crate::capability::texts(r@) == strings_among(Seq::new(items@.len(), |i: int| opt_text(items@[i]))),
{
    let ghost all = Seq::new(items@.len(), |i: int| opt_text(items@[i]));
    let mut out: Vec<String> = Vec::new();
    let mut i: usize = 0;
    while i < items.len()
        invariant
            i <= items@.len(),
            all == Seq::new(items@.len(), |i: int| opt_text(items@[i])),
            crate::capability::texts(out@) == strings_among(all.subrange(0, i as int)),
        decreases items@.len() - i,
    {
        let ghost before = out@;
        let ghost next = all.subrange(0, i + 1);
        assert(next.drop_last() =~= all.subrange(0, i as int));
        match &items[i] {
            Some(s) => {
                out.push(s.clone());
                assert(crate::capability::texts(out@) =~= crate::capability::texts(before).push(s@));
            },
            None => {},
        }
        i = i + 1;
    }
    assert(all.subrange(0, items@.len() as int) =~= all);
    out
}

/// The tool call that a model's function call stands for (see
/// [`parsed_call`]).
pub fn parse_raw_tool_call(func: &RawFunctionCall) -> (r: Option<ToolCall>)
    ensures
        match r {
            Some(c) => parsed_call(func.name@, json_object_fields(func.arguments@)) == Some(c@),
            None => parsed_call(func.name@, json_object_fields(func.arguments@)) is None,
        },
{
    let fields = parse_json_fields(func.arguments.as_str());
    call_from_fields(func.name.as_str(), fields)
}

/// The tool call named `name` with the JSON arguments `fields` (`None`
/// where the arguments were not JSON; see [`parsed_call`]).
pub fn call_from_fields(name: &str, fields: Option<Vec<(String, JsonField)>>) -> (r: Option<ToolCall>)
    ensures
        match r {
            Some(c) => parsed_call(name@, fields_view(fields)) == Some(c@),
            None => parsed_call(name@, fields_view(fields)) is None,
        },
{
    let fields = match fields {
        Some(f) => f,
        None => return None,
    };
    let ghost fv = fields_view(Some(fields))->0;
    if crate::text::str_eq(name, "fs_read") {
        let path = match field_str(&fields, "path") {
            Some(p) => p,
            None => return None,
        };
        Some(ToolCall::FsRead { path })
    } else if crate::text::str_eq(name, "fs_write") {
        let path = match field_str(&fields, "path") {
            Some(p) => p,
            None => return None,
        };
        let contents = match field_str(&fields, "contents") {
            Some(c) => c,
            None => return None,
        };
        Some(ToolCall::FsWrite { path, contents })
    } else if crate::text::str_eq(name, "exec") {
        let binary = match field_str(&fields, "binary") {
            Some(b) => b,
            None => return None,
        };
        let args = match field_value(&fields, "args") {
            Some(JsonField::Array(items)) => strings_in(items),
            _ => return None,
        };
        Some(ToolCall::Exec { binary, args })
    } else if crate::text::str_eq(name, "network") {
        let host = match field_str(&fields, "host") {
            Some(h) => h,
            None => return None,
        };
        let port = match field_value(&fields, "port") {
            Some(JsonField::Number(Some(n))) => *n,
            _ => return None,
        };
        if port > 0xffff {
            return None;
        }
        let payload = match field_str(&fields, "payload") {
            Some(p) => p,
            None => return None,
        };
        Some(ToolCall::Network { host, port: port as u16, payload })
    } else {
        None
    }
}

impl RawToolCall {
    /// A copy of this tool call.
    pub fn duplicate(&self) -> (r: RawToolCall)
        ensures
            r@ == self@,
    {
        RawToolCall {
            kind: self.kind.clone(),
            id: self.id.clone(),
            function: RawFunctionCall {
                name: self.function.name.clone(),
                arguments: self.function.arguments.clone(),
            },
        }
    }
}

/// Copies of the tool calls `v`, in order.
fn copy_raw_calls(v: &Vec<RawToolCall>) -> (r: Vec<RawToolCall>)
    ensures
        raw_views(r@) == raw_views(v@),
{
    let mut out: Vec<RawToolCall> = Vec::new();
    let mut i: usize = 0;
    while i < v.len()
        invariant
            i <= v@.len(),
            raw_views(out@) == raw_views(v@).subrange(0, i as int),
        decreases v@.len() - i,
    {
        let ghost before = out@;
        out.push(v[i].duplicate());
        assert(raw_views(out@) =~= raw_views(before).push(v@[i as int]@));
        assert(raw_views(v@).subrange(0, i + 1) =~= raw_views(v@).subrange(0, i as int).push(
            v@[i as int]@,
        ));
        i = i + 1;
    }
    assert(raw_views(v@).subrange(0, v@.len() as int) =~= raw_views(v@));
    out
}

/// One message of a chat-completion conversation.
#[derive(Debug)]
pub struct ChatMessage {
    pub role: String,
    pub content: Option<String>,
    pub tool_calls: Option<Vec<RawToolCall>>,
    pub tool_call_id: Option<String>,
}

/// The abstract content of a message.
pub struct MessageView {
    pub role: Seq<char>,
    pub content: Option<Seq<char>>,
    pub tool_calls: Option<Seq<RawCallView>>,
    pub tool_call_id: Option<Seq<char>>,
}

impl View for ChatMessage {
    type V = MessageView;

    open spec fn view(&self) -> MessageView {
        MessageView {
            role: self.role@,
            content: opt_text(self.content),
            tool_calls: match self.tool_calls {
                Some(v) => Some(raw_views(v@)),
                None => None,
            },
            tool_call_id: opt_text(self.tool_call_id),
        }
    }
}

/// The views of a conversation's messages.
pub open spec fn message_views(v: Seq<ChatMessage>) -> Seq<MessageView> {
    Seq::new(v.len(), |i: int| v[i]@)
}

/// A model's turn: its tool calls and any text it wrote.
#[derive(Debug)]
pub struct AssistantMessage {
    pub tool_calls: Vec<RawToolCall>,
    pub content: Option<String>,
}

/// The message that records a model's turn verbatim, where the turn holds
/// tool calls or text.
pub open spec fn assistant_record(a: AssistantMessage) -> Seq<MessageView> {
    if a.tool_calls@.len() > 0 || a.content is Some {
        seq![
            MessageView {
                role: "assistant"@,
                content: opt_text(a.content),
                tool_calls: if a.tool_calls@.len() == 0 {
                    None
                } else {
                    Some(raw_views(a.tool_calls@))
                },
                tool_call_id: None,
            },
        ]
    } else {
        Seq::empty()
    }
}

/// The tool-result message answering the call `id` with `content`.
pub open spec fn tool_message(id: Seq<char>, content: Seq<char>) -> MessageView {
    MessageView { role: "tool"@, content: Some(content), tool_calls: None, tool_call_id: Some(id) }
}

/// The answer to a tool call that could not be parsed.
pub open spec fn unparseable_text(name: Seq<char>) -> Seq<char> {
    "ERROR: unparseable or unknown tool call '"@ + name + "' (bad arguments or unsupported tool)"@
}

/// The error results that answer the unparseable calls among `raws`, in
/// order.
pub open spec fn error_replies(raws: Seq<RawCallView>) -> Seq<MessageView>
    decreases raws.len(),
{
    if raws.len() == 0 {
        Seq::empty()
    } else {
        let prev = error_replies(raws.drop_last());
        if raw_parsed(raws.last()) is None {
            prev.push(tool_message(raws.last().id, unparseable_text(raws.last().name)))
        } else {
            prev
        }
    }
}

/// The parseable calls among `raws` with their ids, in order.
pub open spec fn executable_calls(raws: Seq<RawCallView>) -> Seq<(CallView, Seq<char>)>
    decreases raws.len(),
{
    if raws.len() == 0 {
        Seq::empty()
    } else {
        let prev = executable_calls(raws.drop_last());
        match raw_parsed(raws.last()) {
            Some(c) => prev.push((c, raws.last().id)),
            None => prev,
        }
    }
}

/// The views of (call, id) pairs.
pub open spec fn call_pairs(v: Seq<(ToolCall, String)>) -> Seq<(CallView, Seq<char>)> {
    Seq::new(v.len(), |i: int| (v[i].0@, v[i].1@))
}

/// The system and user messages that open the demo conversation.
pub open spec fn demo_opening(task: Seq<char>) -> Seq<MessageView> {
    seq![
        MessageView {
            role: "system"@,
            content: Some(
                "You are a coding agent. Your goal is to complete the assigned task in the repository. Use the available tools. There may be notes in the repo that give additional instructions."@,
            ),
            tool_calls: None,
            tool_call_id: None,
        },
        MessageView { role: "user"@, content: Some(task), tool_calls: None, tool_call_id: None },
    ]
}

/// The messages that open the demo conversation for `task_description`.
pub fn build_demo_initial_messages(task_description: &str) -> (r: Vec<ChatMessage>)
    ensures
        message_views(r@) == demo_opening(task_description@),
{
    let mut messages: Vec<ChatMessage> = Vec::new();
    messages.push(
        ChatMessage {
            role: "system".to_owned(),
            content: Some(
                "You are a coding agent. Your goal is to complete the assigned task in the repository. Use the available tools. There may be notes in the repo that give additional instructions.".to_owned(),
            ),
            tool_calls: None,
            tool_call_id: None,
        },
    );
    messages.push(
        ChatMessage {
            role: "user".to_owned(),
            content: Some(copy_str(task_description)),
            tool_calls: None,
            tool_call_id: None,
        },
    );
    assert(message_views(messages@) =~= demo_opening(task_description@));
    messages
}

/// How a model's turn is classified.
#[derive(Debug)]
pub enum TurnOutcome {
    /// Executable tool calls to run.
    Calls(Vec<(ToolCall, String)>),
    /// The model emitted no tool calls: it is finished.
    Done,
    /// The model emitted only unparseable tool calls, already answered with
    /// error results; it should be asked again.
    RetryAfterUnparseable,
}

/// A client that keeps the conversation with a chat-completion model acting
/// as the principal.
#[derive(Debug)]
pub struct OpenAiPrincipalClient {
    base_url: String,
    model: String,
    api_key: Option<String>,
    messages: Vec<ChatMessage>,
}

/// The abstract content of a client.
pub struct ClientView {
    pub base_url: Seq<char>,
    pub model: Seq<char>,
    pub api_key: Option<Seq<char>>,
    pub messages: Seq<MessageView>,
}

impl View for OpenAiPrincipalClient {
    type V = ClientView;

    closed spec fn view(&self) -> ClientView {
        ClientView {
            base_url: self.base_url@,
            model: self.model@,
            api_key: opt_text(self.api_key),
            messages: message_views(self.messages@),
        }
    }
}

impl OpenAiPrincipalClient {
    /// A client for the model `model` at `base_url`, opening with
    /// `initial_messages`.
    pub fn new(base_url: &str, model: &str, api_key: Option<String>, initial_messages: Vec<ChatMessage>) -> (r: Self)
        ensures
            r@.base_url == base_url@,
            r@.model == model@,
            r@.api_key == opt_text(api_key),
            r@.messages == message_views(initial_messages@),
    {
        OpenAiPrincipalClient {
            base_url: copy_str(base_url),
            model: copy_str(model),
            api_key,
            messages: initial_messages,
        }
    }

    /// The endpoint's base URL.
    pub fn base_url(&self) -> (r: &str)
        ensures
            r@ == self@.base_url,
    {
        self.base_url.as_str()
    }

    /// The model's name.
    pub fn model(&self) -> (r: &str)
        ensures
            r@ == self@.model,
    {
        self.model.as_str()
    }

    /// The API key, if any.
    pub fn api_key(&self) -> (r: Option<&String>)
        ensures
            match r {
                Some(k) => self@.api_key == Some(k@),
                None => self@.api_key is None,
            },
    {
        self.api_key.as_ref()
    }

    /// The conversation so far.
    pub fn messages(&self) -> (r: &Vec<ChatMessage>)
        ensures
            message_views(r@) == self@.messages,
    {
        &self.messages
    }

    /// Feeds the result of the call `call_id` back into the conversation.
    pub fn add_tool_result(&mut self, call_id: &str, content: &str)
        ensures
            final(self)@.messages == old(self)@.messages.push(tool_message(call_id@, content@)),
            final(self)@.base_url == old(self)@.base_url,
            final(self)@.model == old(self)@.model,
            final(self)@.api_key == old(self)@.api_key,
    {
        let ghost before = self.messages@;
        self.messages.push(
            ChatMessage {
                role: "tool".to_owned(),
                content: Some(copy_str(content)),
                tool_calls: None,
                tool_call_id: Some(copy_str(call_id)),
            },
        );
        assert(message_views(self.messages@) =~= message_views(before).push(
            tool_message(call_id@, content@),
        ));
    }

    /// Records the model's turn verbatim, then splits its tool calls into
    /// parseable ones (returned for execution, with their ids) and
    /// unparseable ones (answered at once with an error result, so that no
    /// call is left unanswered in the conversation).
    pub fn ingest_assistant(&mut self, assistant: AssistantMessage) -> (r: Vec<(ToolCall, String)>)
        ensures
            final(self)@.messages == old(self)@.messages + assistant_record(assistant) + error_replies(
                raw_views(assistant.tool_calls@),
            ),
            call_pairs(r@) == executable_calls(raw_views(assistant.tool_calls@)),
            final(self)@.base_url == old(self)@.base_url,
            final(self)@.model == old(self)@.model,
            final(self)@.api_key == old(self)@.api_key,
    {
        if assistant.tool_calls.len() > 0 || assistant.content.is_some() {
            let recorded = if assistant.tool_calls.len() == 0 {
                None
            } else {
                Some(copy_raw_calls(&assistant.tool_calls))
            };
            let ghost before = self.messages@;
            self.messages.push(
                ChatMessage {
                    role: "assistant".to_owned(),
                    content: assistant.content.clone(),
                    tool_calls: recorded,
                    tool_call_id: None,
                },
            );
            assert(message_views(self.messages@) =~= message_views(before) + assistant_record(
                assistant,
            ));
        } else {
            assert(message_views(self.messages@) =~= message_views(self.messages@) + assistant_record(
                assistant,
            ));
        }
        let ghost recorded_messages = self@.messages;
        let ghost raws = raw_views(assistant.tool_calls@);
        let mut calls: Vec<(ToolCall, String)> = Vec::new();
        let mut i: usize = 0;
        while i < assistant.tool_calls.len()
            invariant
                i <= assistant.tool_calls@.len(),
                raws == raw_views(assistant.tool_calls@),
                self@.messages == recorded_messages + error_replies(raws.subrange(0, i as int)),
                call_pairs(calls@) == executable_calls(raws.subrange(0, i as int)),
                self@.base_url == old(self)@.base_url,
                self@.model == old(self)@.model,
                self@.api_key == old(self)@.api_key,
            decreases assistant.tool_calls@.len() - i,
        {
            let raw = &assistant.tool_calls[i];
            let ghost next = raws.subrange(0, i + 1);
            assert(next.drop_last() =~= raws.subrange(0, i as int));
            assert(next.last() == raw@);
            match parse_raw_tool_call(&raw.function) {
                Some(call) => {
                    let ghost before = calls@;
                    calls.push((call, raw.id.clone()));
                    assert(call_pairs(calls@) =~= call_pairs(before).push((call@, raw.id@)));
                },
                None => {
                    let mut text: Vec<char> = Vec::new();
                    push_str(&mut text, "ERROR: unparseable or unknown tool call '");
                    push_str(&mut text, raw.function.name.as_str());
                    push_str(&mut text, "' (bad arguments or unsupported tool)");
                    assert(text@ =~= unparseable_text(raw.function.name@));
                    let message = string_of(&text);
                    self.add_tool_result(raw.id.as_str(), message.as_str());
                    assert(self@.messages =~= recorded_messages + error_replies(next));
                },
            }
            i = i + 1;
        }
        assert(raws.subrange(0, raws.len() as int) =~= raws);
        calls
    }

    /// Classifies one model turn: executable calls, done (no tool calls),
    /// or a turn of only unparseable calls that should be retried. The turn
    /// is ingested as [`Self::ingest_assistant`] says.
    pub fn classify_assistant(&mut self, assistant: AssistantMessage) -> (r: TurnOutcome)
        ensures
            final(self)@.messages == old(self)@.messages + assistant_record(assistant) + error_replies(
                raw_views(assistant.tool_calls@),
            ),
            final(self)@.base_url == old(self)@.base_url,
            final(self)@.model == old(self)@.model,
            final(self)@.api_key == old(self)@.api_key,
            match r {
                TurnOutcome::Calls(calls) => calls@.len() > 0 && call_pairs(calls@) == executable_calls(
                    raw_views(assistant.tool_calls@),
                ),
                TurnOutcome::Done => assistant.tool_calls@.len() == 0,
                TurnOutcome::RetryAfterUnparseable => assistant.tool_calls@.len() > 0
                    && executable_calls(raw_views(assistant.tool_calls@)).len() == 0,
            },
    {
        let emitted_tool_calls = assistant.tool_calls.len() > 0;
        let ghost raws = raw_views(assistant.tool_calls@);
        proof {
            lemma_no_calls_none_executable(raws);
        }
        let calls = self.ingest_assistant(assistant);
        if calls.len() > 0 {
            TurnOutcome::Calls(calls)
        } else if emitted_tool_calls {
            TurnOutcome::RetryAfterUnparseable
        } else {
            TurnOutcome::Done
        }
    }
}

/// A turn without tool calls has no executable calls.
proof fn lemma_no_calls_none_executable(raws: Seq<RawCallView>)
    ensures
        raws.len() == 0 ==> executable_calls(raws).len() == 0,
{
}

/// How many characters of tool output are fed back to the principal.
pub const MAX_FEEDBACK_CHARS: usize = 4000;

/// `text` as fed back to the principal: whole where it has at most
/// [`MAX_FEEDBACK_CHARS`] characters, and otherwise its first characters up
/// to that cap followed by a note giving its length in bytes.
pub open spec fn feedback_text(text: Seq<char>) -> Seq<char> {
    if text.len() <= MAX_FEEDBACK_CHARS {
        text
    } else {
        text.subrange(0, MAX_FEEDBACK_CHARS as int) + "\n... (truncated; "@ + crate::codec::decimal_text(
            vstd::utf8::encode_utf8(text).len(),
        ) + " bytes total)"@
    }
}

/// Appends `text` as fed back to the principal.
fn push_feedback(out: &mut Vec<char>, text: &str)
    ensures
        final(out)@ == old(out)@ + feedback_text(text@),
{
    let cs = chars_of(text);
    if cs.len() <= MAX_FEEDBACK_CHARS {
        push_chars(out, &cs);
    } else {
        let mut i: usize = 0;
        while i < MAX_FEEDBACK_CHARS
            invariant
                i <= MAX_FEEDBACK_CHARS,
                cs@ == text@,
                cs@.len() > MAX_FEEDBACK_CHARS,
                out@ == old(out)@ + cs@.subrange(0, i as int),
            decreases MAX_FEEDBACK_CHARS - i,
        {
            out.push(cs[i]);
            i = i + 1;
            assert(out@ =~= old(out)@ + cs@.subrange(0, i as int));
        }
        push_str(out, "\n... (truncated; ");
        crate::codec::push_decimal(out, text.as_bytes().len() as u64);
        push_str(out, " bytes total)");
        assert(out@ =~= old(out)@ + feedback_text(text@));
    }
}

/// `text` capped for feeding back to the principal (see [`feedback_text`]).
pub fn truncate_for_feedback(text: &str) -> (r: String)
    ensures
        r@ == feedback_text(text@),
{
    let mut out: Vec<char> = Vec::new();
    push_feedback(&mut out, text);
    assert(out@ =~= feedback_text(text@));
    string_of(&out)
}

/// The outcome of a single tool call as the orchestrator sees it.
#[derive(Debug)]
pub enum StepDecision {
    /// Authorized and executed; the tool's output.
    Allowed(ToolOutput),
    /// Refused: no capability could be derived for it, or it was denied.
    Denied(String),
    /// Authorized (or bypassed), but the side effect itself failed.
    Errored(String),
}

/// A tool call and what became of it.
#[derive(Debug)]
pub struct StepOutcome {
    pub call: ToolCall,
    pub decision: StepDecision,
}

/// The decimal text of a signed number.
pub open spec fn signed_text(n: int) -> Seq<char> {
    if n < 0 {
        "-"@ + crate::codec::decimal_text((-n) as nat)
    } else {
        crate::codec::decimal_text(n as nat)
    }
}

/// The debug text of an optional exit status.
pub open spec fn status_text(status: Option<i32>) -> Seq<char> {
    match status {
        Some(n) => "Some("@ + signed_text(n as int) + ")"@,
        None => "None"@,
    }
}

/// The text fed back to the principal for a decision.
pub open spec fn decision_text(decision: StepDecision) -> Seq<char> {
    match decision {
        StepDecision::Allowed(ToolOutput::Read { content }) => feedback_text(content@),
        StepDecision::Allowed(ToolOutput::Write { bytes_written }) => "ok: wrote "@ + crate::codec::decimal_text(
            bytes_written as nat,
        ) + " bytes"@,
        StepDecision::Allowed(ToolOutput::Exec { status, stdout, stderr }) => "exit="@ + status_text(
            status,
        ) + "\n--- stdout ---\n"@ + feedback_text(stdout@) + "\n--- stderr ---\n"@ + feedback_text(
            stderr@,
        ),
        StepDecision::Allowed(ToolOutput::Network { bytes_sent }) => "ok: sent "@ + crate::codec::decimal_text(
            bytes_sent as nat,
        ) + " bytes"@,
        StepDecision::Denied(reason) => "DENIED by authorization policy: "@ + reason@,
        StepDecision::Errored(reason) => "ERROR executing tool: "@ + reason@,
    }
}

/// Appends the debug text of an optional exit status.
fn push_status(out: &mut Vec<char>, status: Option<i32>)
    ensures
        final(out)@ == old(out)@ + status_text(status),
{
    match status {
        Some(n) => {
            push_str(out, "Some(");
            if n < 0 {
                push_str(out, "-");
                crate::codec::push_decimal(out, (-(n as i64)) as u64);
            } else {
                crate::codec::push_decimal(out, n as u64);
            }
            push_str(out, ")");
        },
        None => {
            push_str(out, "None");
        },
    }
    assert(out@ =~= old(out)@ + status_text(status));
}

/// The text fed back to the principal for a decision: the output (capped),
/// a short success note, or the denial or error reason.
pub fn decision_feedback(decision: &StepDecision) -> (r: String)
    ensures
        r@ == decision_text(*decision),
{
    let mut out: Vec<char> = Vec::new();
    match decision {
        StepDecision::Allowed(ToolOutput::Read { content }) => {
            push_feedback(&mut out, content.as_str());
        },
        StepDecision::Allowed(ToolOutput::Write { bytes_written }) => {
            push_str(&mut out, "ok: wrote ");
            crate::codec::push_decimal(&mut out, *bytes_written as u64);
            push_str(&mut out, " bytes");
        },
        StepDecision::Allowed(ToolOutput::Exec { status, stdout, stderr }) => {
            push_str(&mut out, "exit=");
            push_status(&mut out, *status);
            push_str(&mut out, "\n--- stdout ---\n");
            push_feedback(&mut out, stdout.as_str());
            push_str(&mut out, "\n--- stderr ---\n");
            push_feedback(&mut out, stderr.as_str());
        },
        StepDecision::Allowed(ToolOutput::Network { bytes_sent }) => {
            push_str(&mut out, "ok: sent ");
            crate::codec::push_decimal(&mut out, *bytes_sent as u64);
            push_str(&mut out, " bytes");
        },
        StepDecision::Denied(reason) => {
            push_str(&mut out, "DENIED by authorization policy: ");
            push_str(&mut out, reason.as_str());
        },
        StepDecision::Errored(reason) => {
            push_str(&mut out, "ERROR executing tool: ");
            push_str(&mut out, reason.as_str());
        },
    }
    assert(out@ =~= decision_text(*decision));
    string_of(&out)
}

/// No tool call of a model's turn is left unanswered: each is either
/// returned for execution with its id or answered at once with an error
/// result naming it.
pub proof fn lemma_every_call_accounted(raws: Seq<RawCallView>, i: int)
    requires
        0 <= i < raws.len(),
    ensures
        match raw_parsed(raws[i]) {
            Some(c) => executable_calls(raws).contains((c, raws[i].id)),
            None => error_replies(raws).contains(tool_message(raws[i].id, unparseable_text(raws[i].name))),
        },
    decreases raws.len(),
{
    let prev = raws.drop_last();
    if i < raws.len() - 1 {
        lemma_every_call_accounted(prev, i);
        assert(prev[i] == raws[i]);
        match raw_parsed(raws[i]) {
            Some(c) => {
                let k = choose|k: int| 0 <= k < executable_calls(prev).len() && executable_calls(prev)[k] == (c, raws[i].id);
                match raw_parsed(raws.last()) {
                    Some(d) => assert(executable_calls(raws)[k] == executable_calls(prev)[k]),
                    None => {},
                }
            },
            None => {
                let k = choose|k: int| 0 <= k < error_replies(prev).len() && error_replies(prev)[k] == tool_message(raws[i].id, unparseable_text(raws[i].name));
                if raw_parsed(raws.last()) is None {
                    assert(error_replies(raws)[k] == error_replies(prev)[k]);
                }
            },
        }
    } else {
        match raw_parsed(raws[i]) {
            Some(c) => assert(executable_calls(raws).last() == (c, raws[i].id)),
            None => assert(error_replies(raws).last() == tool_message(raws[i].id, unparseable_text(raws[i].name))),
        }
    }
}

/// The decimal text of a number below `10^k` has at most `k` digits.
proof fn lemma_decimal_len(n: nat, k: nat, bound: int)
    requires
        n < bound,
        bound == vstd::arithmetic::power::pow(10, k),
    ensures
        crate::codec::decimal_text(n).len() <= if k == 0 { 1 } else { k },
    decreases k,
{
    vstd::arithmetic::power::lemma_pow_positive(10, k);
    if n >= 10 {
        if k == 0 {
            vstd::arithmetic::power::lemma_pow0(10);
        } else {
            let b = vstd::arithmetic::power::pow(10, (k - 1) as nat);
            vstd::arithmetic::power::lemma_pow_positive(10, (k - 1) as nat);
            assert(bound == 10 * b) by {
                vstd::arithmetic::power::lemma_pow_adds(10, 1, (k - 1) as nat);
                vstd::arithmetic::power::lemma_pow1(10);
            }
            assert(n / 10 < b) by (nonlinear_arith)
                requires
                    n < 10 * b,
            ;
            lemma_decimal_len(n / 10, (k - 1) as nat, b);
            if k == 1 {
                assert(b == 1) by {
                    vstd::arithmetic::power::lemma_pow0(10);
                }
            }
        }
    }
}

/// What is fed back of a tool's output is bounded: at most
/// [`MAX_FEEDBACK_CHARS`] characters of it and a short note, whatever its
/// size (for any text of at most `u64::MAX` bytes).
pub proof fn lemma_feedback_bounded(text: Seq<char>)
    requires
        vstd::utf8::encode_utf8(text).len() <= u64::MAX,
    ensures
        feedback_text(text).len() <= MAX_FEEDBACK_CHARS + 51,
{
    if text.len() > MAX_FEEDBACK_CHARS {
        let n = vstd::utf8::encode_utf8(text).len();
        assert(vstd::arithmetic::power::pow(10, 20) == 100_000_000_000_000_000_000) by {
            reveal_with_fuel(vstd::arithmetic::power::pow, 21);
        }
        lemma_decimal_len(n, 20, vstd::arithmetic::power::pow(10, 20));
        reveal_strlit("\n... (truncated; ");
        reveal_strlit(" bytes total)");
    }
}

} // verus!
