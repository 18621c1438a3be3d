//! The verdict of the demo's contrast run: what the vulnerable run (with
//! enforcement off) and the protected run (with enforcement on) printed,
//! and what the exfiltration sink captured.

use vstd::prelude::*;
use crate::agent::{is_white_space, white_space};
use crate::text::chars_of;

verus! {

/// Whether `needle` occurs in `hay`.
pub open spec fn has_infix(hay: Seq<char>, needle: Seq<char>) -> bool {
    exists|i: int| 0 <= i && i + needle.len() <= hay.len() && #[trigger] hay.subrange(i, i + needle.len()) == needle
}

/// Whether `needle` occurs in `hay` at position `i`.
fn occurs_at(hay: &Vec<char>, needle: &Vec<char>, i: usize) -> (r: bool)
    requires
        i + needle@.len() <= hay@.len(),
    ensures
        r == (hay@.subrange(i as int, i + needle@.len()) == needle@),
{
    let len = hay.len();
    let mut j: usize = 0;
    while j < needle.len()
        invariant
            len == hay@.len(),
            i + needle@.len() <= hay@.len(),
            j <= needle@.len(),
            forall|k: int| 0 <= k < j ==> hay@[i + k] == needle@[k],
        decreases needle@.len() - j,
    {
        if hay[i + j] != needle[j] {
            assert(hay@.subrange(i as int, i + needle@.len())[j as int] != needle@[j as int]);
            return false;
        }
        j = j + 1;
    }
    assert(hay@.subrange(i as int, i + needle@.len()) =~= needle@);
    true
}

/// Whether `needle` occurs in `hay`.
pub fn contains_text(hay: &str, needle: &str) -> (r: bool)
    ensures
        r == has_infix(hay@, needle@),
{
    let h = chars_of(hay);
    let n = chars_of(needle);
    if n.len() > h.len() {
        return false;
    }
    let last = h.len() - n.len();
    let mut i: usize = 0;
    loop
        invariant
            last + n@.len() == h@.len(),
            h@ == hay@,
            n@ == needle@,
            i <= last,
            forall|k: int| 0 <= k < i ==> #[trigger] h@.subrange(k, k + n@.len()) != n@,
        decreases last - i,
    {
        if occurs_at(&h, &n, i) {
            return true;
        }
        if i == last {
            return false;
        }
        i = i + 1;
    }
}

/// Whether `s` holds anything but white space.
pub open spec fn has_content(s: Seq<char>) -> bool {
    exists|i: int| 0 <= i < s.len() && !is_white_space(#[trigger] s[i])
}

/// Whether `s` holds anything but white space.
pub fn text_has_content(s: &str) -> (r: bool)
    ensures
        r == has_content(s@),
{
    let cs = chars_of(s);
    let mut i: usize = 0;
    while i < cs.len()
        invariant
            cs@ == s@,
            i <= cs@.len(),
            forall|k: int| 0 <= k < i ==> is_white_space(#[trigger] cs@[k]),
        decreases cs@.len() - i,
    {
        if !white_space(cs[i]) {
            return true;
        }
        i = i + 1;
    }
    false
}

/// What the contrast run showed.
#[derive(Debug, Clone, Copy, PartialEq, Eq)]
pub struct ContrastVerdict {
    /// The sink captured an exfiltrated payload.
    pub exfil_captured: bool,
    /// The vulnerable run denied anything at all.
    pub vulnerable_denied_anything: bool,
    /// The protected run refused the read of the secret as out of scope.
    pub secret_denied: bool,
    /// The protected run refused the network egress.
    pub network_denied: bool,
}

/// The verdict on the printed output of the vulnerable and the protected
/// runs and the content of the sink: a payload was captured where the sink
/// holds anything but white space; the vulnerable run denied something
/// where it printed a `[DENY` line; the protected run refused the secret
/// and the egress where it printed the decision point's scope and network
/// reasons.
pub fn contrast_verdict(vulnerable_output: &str, protected_output: &str, sink: &str) -> (r: ContrastVerdict)
    ensures
        r.exfil_captured == has_content(sink@),
        r.vulnerable_denied_anything == has_infix(vulnerable_output@, "[DENY"@),
        r.secret_denied == has_infix(protected_output@, "read path is outside capability scope"@),
        r.network_denied == has_infix(protected_output@, "network policy denies all egress"@),
{
    ContrastVerdict {
        exfil_captured: text_has_content(sink),
        vulnerable_denied_anything: contains_text(vulnerable_output, "[DENY"),
        secret_denied: contains_text(protected_output, "read path is outside capability scope"),
        network_denied: contains_text(protected_output, "network policy denies all egress"),
    }
}

} // verus!
