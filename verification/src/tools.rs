//! Tool calls: the execution view a principal asks for, its projection to
//! the authorization view, the binding of a capability to one exact
//! invocation, and the authorization that must pass before any side effect.

use vstd::prelude::*;
use vstd::utf8::encode_utf8;
use crate::capability::{
    argument_preimage, hash_tool_arguments, BindingView, ChildCapability, RequestBinding,
};
use crate::digest::blake3_digest;
use crate::pdp::{decide, decision_ok, Decision, ToolRequest};
use crate::pep::{admits, token_state, verify, VerificationError};
use crate::text::{push_str, string_of};
use crate::time::{current_time, Timestamp};


verus! {

/// A concrete tool invocation requested by the (untrusted) principal: the
/// execution view, with the parameters needed to perform the action.
#[derive(Debug, PartialEq, Eq)]
pub enum ToolCall {
    FsRead { path: String },
    FsWrite { path: String, contents: String },
    Exec { binary: String, args: Vec<String> },
    Network { host: String, port: u16, payload: String },
}

/// The result of actually executing a tool.
#[derive(Debug, PartialEq, Eq)]
pub enum ToolOutput {
    Read { content: String },
    Write { bytes_written: usize },
    Exec { status: Option<i32>, stdout: String, stderr: String },
    Network { bytes_sent: usize },
}

/// Why a tool call was not performed.
#[derive(Debug, PartialEq, Eq)]
pub enum ToolError {
    /// The capability failed verification.
    Verification(VerificationError),
    /// The request arguments could not be serialized; the message says why.
    Serialize(String),
    /// The decision point denied the request; its reason.
    Denied(String),
    /// The side effect failed; the I/O error's message.
    Io(String),
}

/// The name of the tool a request is for.
pub open spec fn request_tool_name(request: ToolRequest) -> Seq<char> {
    match request {
        ToolRequest::Read { .. } => "fs_read"@,
        ToolRequest::Write { .. } => "fs_write"@,
        ToolRequest::Exec { .. } => "exec"@,
        ToolRequest::Network => "network"@,
    }
}

/// The name of the tool a request is for.
pub fn tool_name(request: &ToolRequest) -> (r: &'static str)
    ensures
        r@ == request_tool_name(*request),
{
    match request {
        ToolRequest::Read { .. } => "fs_read",
        ToolRequest::Write { .. } => "fs_write",
        ToolRequest::Exec { .. } => "exec",
        ToolRequest::Network => "network",
    }
}

/// The authorization view of a call: the path or binary it touches.
pub open spec fn request_of(call: ToolCall) -> ToolRequest {
    match call {
        ToolCall::FsRead { path } => ToolRequest::Read { path },
        ToolCall::FsWrite { path, .. } => ToolRequest::Write { path },
        ToolCall::Exec { binary, .. } => ToolRequest::Exec { binary },
        ToolCall::Network { .. } => ToolRequest::Network,
    }
}

/// The name of the tool a call is for.
pub open spec fn call_tool_name(call: ToolCall) -> Seq<char> {
    request_tool_name(request_of(call))
}

impl ToolCall {
    /// Projects the execution intent down to the authorization request the
    /// decision point reasons about.
    pub fn to_request(&self) -> (r: ToolRequest)
        ensures
            r == request_of(*self),
    {
        match self {
            ToolCall::FsRead { path } => ToolRequest::Read { path: path.clone() },
            ToolCall::FsWrite { path, .. } => ToolRequest::Write { path: path.clone() },
            ToolCall::Exec { binary, .. } => ToolRequest::Exec { binary: binary.clone() },
            ToolCall::Network { .. } => ToolRequest::Network,
        }
    }

    /// The name of the tool this call is for.
    pub fn tool_name(&self) -> (r: &'static str)
        ensures
            r@ == call_tool_name(*self),
    {
        match self {
            ToolCall::FsRead { .. } => "fs_read",
            ToolCall::FsWrite { .. } => "fs_write",
            ToolCall::Exec { .. } => "exec",
            ToolCall::Network { .. } => "network",
        }
    }
}

/// How a JSON string literal writes the character `c`: a quote and a
/// backslash behind a backslash; backspace, tab, line feed, form feed and
/// carriage return by their short escapes; any other character below
/// U+0020 as `\u00` and two lower-case hex digits; every other character
/// as it is.
pub open spec fn json_char_escape(c: char) -> Seq<char> {
    if c == '"' {
        seq!['\\', '"']
    } else if c == '\\' {
        seq!['\\', '\\']
    } else if c == '\u{08}' {
        seq!['\\', 'b']
    } else if c == '\t' {
        seq!['\\', 't']
    } else if c == '\n' {
        seq!['\\', 'n']
    } else if c == '\u{0c}' {
        seq!['\\', 'f']
    } else if c == '\r' {
        seq!['\\', 'r']
    } else if (c as u32) < 0x20 {
        seq!['\\', 'u', '0', '0', if (c as u32) < 0x10 { '0' } else { '1' }, lower_hex_digit((c as u32) % 16)]
    } else {
        seq![c]
    }
}

/// The lower-case hex digit for `n` (below sixteen).
pub open spec fn lower_hex_digit(n: u32) -> char {
    if n < 10 {
        (('0' as u32) + n) as char
    } else {
        (('a' as u32) + (n - 10)) as char
    }
}

/// The characters of `s`, each written as a JSON string literal writes it.
pub open spec fn json_escaped(s: Seq<char>) -> Seq<char>
    decreases s.len(),
{
    if s.len() == 0 {
        Seq::empty()
    } else {
        json_escaped(s.drop_last()) + json_char_escape(s.last())
    }
}

/// The JSON string literal that `serde_json::to_string` writes for `s`: the
/// escaped characters between double quotes.
pub open spec fn json_string(s: Seq<char>) -> Seq<char> {
    seq!['"'] + json_escaped(s) + seq!['"']
}

/// `serde_json::to_string` on a string: its JSON string literal, every
/// character escaped as [`json_char_escape`] says (writing into memory does
/// not fail).
#[verifier::external_body]
fn json_string_of(s: &str) -> (r: String)
    ensures
        r@ == json_string(s@),
{
    serde_json::to_string(s).unwrap_or_default()
}

/// The canonical JSON text of a request: the variant name as a key over an
/// object of its one field, or the bare variant name for a network request.
pub open spec fn request_json(request: ToolRequest) -> Seq<char> {
    match request {
        ToolRequest::Read { path } => "{\"Read\":{\"path\":"@ + json_string(path@) + "}}"@,
        ToolRequest::Write { path } => "{\"Write\":{\"path\":"@ + json_string(path@) + "}}"@,
        ToolRequest::Exec { binary } => "{\"Exec\":{\"binary\":"@ + json_string(binary@) + "}}"@,
        ToolRequest::Network => "\"Network\""@,
    }
}

/// Appends the JSON string literal for `s`.
fn push_json_string(out: &mut Vec<char>, s: &str)
    ensures
        final(out)@ == old(out)@ + json_string(s@),
{
    let literal = json_string_of(s);
    push_str(out, literal.as_str());
}

/// The canonical JSON text of a request.
pub fn request_json_text(request: &ToolRequest) -> (r: String)
    ensures
        r@ == request_json(*request),
{
    let mut out: Vec<char> = Vec::new();
    match request {
        ToolRequest::Read { path } => {
            push_str(&mut out, "{\"Read\":{\"path\":");
            push_json_string(&mut out, path.as_str());
            push_str(&mut out, "}}");
        },
        ToolRequest::Write { path } => {
            push_str(&mut out, "{\"Write\":{\"path\":");
            push_json_string(&mut out, path.as_str());
            push_str(&mut out, "}}");
        },
        ToolRequest::Exec { binary } => {
            push_str(&mut out, "{\"Exec\":{\"binary\":");
            push_json_string(&mut out, binary.as_str());
            push_str(&mut out, "}}");
        },
        ToolRequest::Network => {
            push_str(&mut out, "\"Network\"");
        },
    }
    assert(out@ =~= request_json(*request));
    string_of(&out)
}

/// The binding of a capability to the invocation `request` under `nonce`:
/// the tool's name, the digest of the name, the canonical JSON bytes of the
/// request and the nonce, and the nonce.
pub open spec fn binding_for(request: ToolRequest, nonce: u128) -> BindingView {
    BindingView {
        tool_name: request_tool_name(request),
        argument_hash: blake3_digest(
            argument_preimage(request_tool_name(request), encode_utf8(request_json(request)), nonce),
        ),
        nonce,
    }
}

/// The binding of a capability to the invocation `request` under `nonce`.
pub fn request_binding_for(request: &ToolRequest, nonce: u128) -> (r: RequestBinding)
    ensures
        r@ == binding_for(*request, nonce),
{
    let name = tool_name(request);
    let json = request_json_text(request);
    let argument_hash = hash_tool_arguments(name, json.as_str().as_bytes(), nonce);
    RequestBinding { tool_name: name.to_owned(), argument_hash, nonce }
}

/// A binding made for one nonce is not the binding for another: a
/// capability bound to one invocation does not admit a replay of the same
/// request under a different nonce.
pub proof fn lemma_replay_not_admitted(
    state: crate::token::DecodedView,
    now: Timestamp,
    request: ToolRequest,
    bound: u128,
    presented: u128,
)
    requires
        state.request_binding == Some(binding_for(request, bound)),
        bound != presented,
    ensures
        !admits(state, now, Some(binding_for(request, presented))),
{
    assert(binding_for(request, bound).nonce != binding_for(request, presented).nonce);
}

/// A capability bound to the invocation of `request` under one nonce is
/// never authorized, nor even decided on, under another nonce: whatever
/// authorization gives, it is a verification error.
pub proof fn lemma_rebound_nonce_refused(
    capability: crate::capability::ChildView,
    request: ToolRequest,
    bound: u128,
    presented: u128,
    now: Timestamp,
    r: Result<(), ToolError>,
)
    requires
        crate::capability::latest_binding(capability.caveats) == Some(binding_for(request, bound)),
        bound != presented,
        authorization_ok(capability, request, Some(presented), now, r),
    ensures
        r matches Err(ToolError::Verification(_)),
{
    assert(binding_for(request, bound).nonce != binding_for(request, presented).nonce);
}

/// A capability is authorized only while it lives: at a time no earlier
/// than its expiry, authorization neither passes nor reaches a decision,
/// and no binding is compared; the refusal is a verification error.
pub proof fn lemma_expired_never_authorized(
    capability: crate::capability::ChildView,
    request: ToolRequest,
    nonce: Option<u128>,
    now: Timestamp,
    r: Result<(), ToolError>,
)
    requires
        authorization_ok(capability, request, nonce, now, r),
        !capability.expires_at.after(now),
    ensures
        r matches Err(ToolError::Verification(e)) && !(e is RequestBindingMismatch),
{
}

/// The binding presented for `request`: the one under `nonce`, where there
/// is one.
pub open spec fn presented_binding(request: ToolRequest, nonce: Option<u128>) -> Option<BindingView> {
    match nonce {
        Some(n) => Some(binding_for(request, n)),
        None => None,
    }
}

/// What authorization owes: where it passes, a token state of the
/// capability that admits the presented binding at `now` and under whose
/// permissions the decision point allows the request; a denial carries the
/// decision point's reason for such a state; a verification error is the
/// enforcement point's.
pub open spec fn authorization_ok(
    capability: crate::capability::ChildView,
    request: ToolRequest,
    nonce: Option<u128>,
    now: Timestamp,
    r: Result<(), ToolError>,
) -> bool {
    let actual = presented_binding(request, nonce);
    match r {
        Ok(()) => exists|s: crate::token::DecodedView|
            #[trigger] token_state(capability, s) && admits(s, now, actual) && decision_ok(
                s.permissions,
                request,
                Decision::Allow,
            ),
        Err(ToolError::Denied(reason)) => exists|s: crate::token::DecodedView|
            #[trigger] token_state(capability, s) && admits(s, now, actual) && decision_ok(
                s.permissions,
                request,
                Decision::Deny { reason },
            ),
        Err(ToolError::Verification(VerificationError::Expired)) => exists|s: crate::token::DecodedView|
            #[trigger] token_state(capability, s) && !s.expires_at.after(now),
        Err(ToolError::Verification(VerificationError::RequestBindingMismatch)) => exists|
            s: crate::token::DecodedView,
        |
            #[trigger] token_state(capability, s) && s.expires_at.after(now) && !admits(s, now, actual),
        Err(ToolError::Verification(VerificationError::StateTampered)) => exists|s: crate::token::DecodedView|
            #[trigger] crate::token::token_records(capability.token, capability.root_public_key, s)
                && !crate::capability::mirrors(capability, s),
        Err(ToolError::Verification(VerificationError::SignatureChain(_))) => true,
        Err(_) => false,
    }
}

/// Authorizes `request` under `capability` at `now`, bound to the
/// invocation under `nonce` where there is one: the enforcement point
/// first, then the decision point. Nothing is executed.
pub fn authorize_at(capability: ChildCapability, request: ToolRequest, nonce: Option<u128>, now: Timestamp) -> (r: Result<
    (),
    ToolError,
>)
    ensures
        authorization_ok(capability@, request, nonce, now, r),
        !crate::token::token_accepted(capability@.token, capability@.root_public_key) ==> r matches Err(
            ToolError::Verification(VerificationError::SignatureChain(_)),
        ),
        crate::capability::faithful_child(capability@) ==> !(r matches Err(
            ToolError::Verification(VerificationError::StateTampered),
        )),
        !capability@.expires_at.after(now) ==> r matches Err(ToolError::Verification(_)),
{
    let ghost cap = capability@;
    let actual = match nonce {
        Some(n) => Some(request_binding_for(&request, n)),
        None => None,
    };
    assert(crate::capability::binding_view(actual) == presented_binding(request, nonce));
    let verified = match verify(capability, now, actual.as_ref()) {
        Ok(v) => v,
        Err(e) => return Err(ToolError::Verification(e)),
    };
    let ghost s = verified@;
    assert(token_state(cap, s));
    match decide(verified.permissions(), &request) {
        Decision::Allow => Ok(()),
        Decision::Deny { reason } => Err(ToolError::Denied(reason)),
    }
}

/// Authorizes `request` under `capability` at the current time (see
/// [`authorize_at`]).
pub fn authorize_only(capability: ChildCapability, request: ToolRequest, nonce: Option<u128>) -> (r: Result<
    (),
    ToolError,
>)
    ensures
        exists|now: Timestamp| #[trigger] now.wf() && authorization_ok(capability@, request, nonce, now, r),
        !crate::token::token_accepted(capability@.token, capability@.root_public_key) ==> r matches Err(
            ToolError::Verification(VerificationError::SignatureChain(_)),
        ),
        crate::capability::faithful_child(capability@) ==> !(r matches Err(
            ToolError::Verification(VerificationError::StateTampered),
        )),
{
    let now = current_time();
    authorize_at(capability, request, nonce, now)
}

/// The message that describes a tool error.
pub open spec fn tool_error_text(e: ToolError) -> Seq<char> {
    match e {
        ToolError::Verification(v) => "authorization failed: "@ + crate::pep::verification_error_text(v),
        ToolError::Serialize(m) => "failed to serialize tool request arguments: "@ + m@,
        ToolError::Denied(m) => "tool request denied: "@ + m@,
        ToolError::Io(m) => "tool execution io error: "@ + m@,
    }
}

impl ToolError {
    /// The message that describes this error.
    pub fn message(&self) -> (r: String)
        ensures
            r@ == tool_error_text(*self),
    {
        match self {
            ToolError::Verification(v) => {
                let inner = v.message();
                crate::text::concat("authorization failed: ", inner.as_str())
            },
            ToolError::Serialize(m) => crate::text::concat(
                "failed to serialize tool request arguments: ",
                m.as_str(),
            ),
            ToolError::Denied(m) => crate::text::concat("tool request denied: ", m.as_str()),
            ToolError::Io(m) => crate::text::concat("tool execution io error: ", m.as_str()),
        }
    }
}

} // verus!
