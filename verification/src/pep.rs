//! The policy enforcement point: before any tool runs, a capability's token
//! must verify, must agree with the capability's own record, must not have
//! expired, and must be bound to the very invocation presented.

use vstd::prelude::*;
use crate::capability::{faithful_child, lemma_faithful_child_mirrors, mirrors, ChildCapability, CapabilityError, PermissionSet,
    RequestBinding, VerifiedState,
};
use crate::time::Timestamp;
use crate::token::{ref_binding_view, token_accepted, token_records, DecodedView};

verus! {

/// Why a capability was refused at the enforcement point.
#[derive(Debug, PartialEq, Eq)]
pub enum VerificationError {
    /// The capability is expired.
    Expired,
    /// The capability is bound to another invocation than the one presented.
    RequestBindingMismatch,
    /// The token's signature chain failed to verify or its state could not
    /// be read; the message says why.
    SignatureChain(String),
    /// The capability's own record disagrees with its signed token.
    StateTampered,
}

/// The message that describes a verification error.
pub open spec fn verification_error_text(e: VerificationError) -> Seq<char> {
    match e {
        VerificationError::Expired => "capability is expired"@,
        VerificationError::RequestBindingMismatch => "request-bound capability does not match the actual tool invocation"@,
        VerificationError::SignatureChain(m) => "biscuit signature chain failed to verify: "@ + m@,
        VerificationError::StateTampered => "capability struct state disagrees with its signed token"@,
    }
}

impl VerificationError {
    /// The message that describes this error.
    pub fn message(&self) -> (r: String)
        ensures
            r@ == verification_error_text(*self),
    {
        match self {
            VerificationError::Expired => "capability is expired".to_owned(),
            VerificationError::RequestBindingMismatch => "request-bound capability does not match the actual tool invocation".to_owned(),
            VerificationError::SignatureChain(m) => crate::text::concat(
                "biscuit signature chain failed to verify: ",
                m.as_str(),
            ),
            VerificationError::StateTampered => "capability struct state disagrees with its signed token".to_owned(),
        }
    }
}

/// A capability that has passed verification. Its accessors expose the
/// state recovered from the signed token, never the capability's own record.
#[derive(Debug)]
pub struct VerifiedCapability {
    state: VerifiedState,
}

impl View for VerifiedCapability {
    type V = DecodedView;

    closed spec fn view(&self) -> DecodedView {
        self.state@
    }
}

impl VerifiedCapability {
    /// The token-derived permissions the decision point must decide over.
    pub fn permissions(&self) -> (r: &PermissionSet)
        ensures
            r@ == self@.permissions,
    {
        self.state.permissions()
    }

    /// The token-derived expiry.
    pub fn expires_at(&self) -> (r: Timestamp)
        ensures
            r == self@.expires_at,
    {
        self.state.expires_at()
    }

    /// The token-derived request binding.
    pub fn request_binding(&self) -> (r: Option<&RequestBinding>)
        ensures
            ref_binding_view(r) == self@.request_binding,
    {
        self.state.request_binding()
    }

    /// The whole token-derived state.
    pub fn state(&self) -> (r: &VerifiedState)
        ensures
            r@ == self@,
    {
        &self.state
    }
}

/// Whether a capability with token state `s` may be used at `now` for the
/// invocation bound by `actual`: it has not expired (its expiry lies after
/// `now`), and where it is bound to an invocation, `actual` is that one.
pub open spec fn admits(s: DecodedView, now: Timestamp, actual: Option<crate::capability::BindingView>) -> bool {
    &&& s.expires_at.after(now)
    &&& s.request_binding is Some ==> actual == s.request_binding
}

/// The checks on a verified token state: `Expired` where its expiry is not
/// after `now`, then `RequestBindingMismatch` where it is bound to another
/// invocation than `actual_binding`; the verified capability otherwise.
pub fn check_state(state: VerifiedState, now: Timestamp, actual_binding: Option<&RequestBinding>) -> (r: Result<
    VerifiedCapability,
    VerificationError,
>)
    ensures
        !state@.expires_at.after(now) ==> r == Err::<VerifiedCapability, VerificationError>(
            VerificationError::Expired,
        ),
        state@.expires_at.after(now) && !admits(state@, now, ref_binding_view(actual_binding)) ==> r
            == Err::<VerifiedCapability, VerificationError>(VerificationError::RequestBindingMismatch),
        admits(state@, now, ref_binding_view(actual_binding)) ==> (r matches Ok(v) && v@ == state@),
{
    if !state.expires_at().is_after(&now) {
        return Err(VerificationError::Expired);
    }
    match state.request_binding() {
        Some(expected) => {
            let matches = match actual_binding {
                Some(actual) => actual.same_as(expected),
                None => false,
            };
            if !matches {
                return Err(VerificationError::RequestBindingMismatch);
            }
        },
        None => {},
    }
    Ok(VerifiedCapability { state })
}

/// Whether `s` is the state that `capability`'s token records under the
/// capability's root key (see [`token_records`]) and it agrees with the
/// capability's own record.
pub open spec fn token_state(capability: crate::capability::ChildView, s: DecodedView) -> bool {
    &&& mirrors(capability, s)
    &&& token_records(capability.token, capability.root_public_key, s)
}

/// The enforcement point's verdict on `capability` at `now` for the
/// invocation bound by `actual_binding`. The token's signature chain and
/// state are checked first (`SignatureChain` where they cannot be read,
/// `StateTampered` where the capability's own record disagrees with them);
/// then expiry and binding, as [`check_state`] says. A capability that
/// passes carries the token's state, which agrees with the capability's own
/// record and admits the invocation at `now`.
pub fn verify(capability: ChildCapability, now: Timestamp, actual_binding: Option<&RequestBinding>) -> (r: Result<
    VerifiedCapability,
    VerificationError,
>)
    ensures
        r matches Ok(v) ==> token_state(capability@, v@) && admits(v@, now, ref_binding_view(actual_binding)),
        r matches Ok(v) ==> forall|b: Seq<char>|
            #[trigger] capability@.permissions.binaries.contains(b) <==> v@.permissions.binaries.contains(b),
        r matches Ok(v) ==> capability@.expires_at.after(now) && v@.expires_at == capability@.expires_at,
        r matches Err(VerificationError::Expired) ==> exists|s: DecodedView|
            #[trigger] token_state(capability@, s) && !s.expires_at.after(now),
        r matches Err(VerificationError::RequestBindingMismatch) ==> exists|s: DecodedView|
            #[trigger] token_state(capability@, s) && s.expires_at.after(now) && !admits(
                s,
                now,
                ref_binding_view(actual_binding),
            ),
        r matches Err(VerificationError::StateTampered) ==> exists|s: DecodedView|
            !mirrors(capability@, s) && #[trigger] token_records(capability@.token, capability@.root_public_key, s),
        !token_accepted(capability@.token, capability@.root_public_key) ==> r matches Err(
            VerificationError::SignatureChain(_),
        ),
        faithful_child(capability@) ==> !(r matches Err(VerificationError::StateTampered)),
{
    let state = match capability.verify_and_decode() {
        Ok(s) => s,
        Err(CapabilityError::TokenStateMismatch) => {
            proof {
                if faithful_child(capability@) {
                    let s = choose|s: DecodedView|
                        !mirrors(capability@, s) && #[trigger] token_records(capability@.token, capability@.root_public_key, s);
                    lemma_faithful_child_mirrors(capability@, s);
                }
            }
            return Err(VerificationError::StateTampered);
        },
        Err(other) => return Err(VerificationError::SignatureChain(other.message())),
    };
    let ghost s = state@;
    assert(token_state(capability@, s));
    proof {
        crate::capability::lemma_agreeing_state_grants_alike(capability@, s);
    }
    check_state(state, now, actual_binding)
}

} // verus!
