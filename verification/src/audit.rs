//! The hash-chained, append-only audit log: each entry's hash covers its
//! id, time, event and the previous entry's hash, so that any change to an
//! entry or to the order of entries is detected.

use vstd::prelude::*;
use vstd::utf8::encode_utf8;
use vstd::utf8::{encode_scalar, has_width_1_encoding, leading_byte_width_1};
use crate::digest::{be_bytes, be_bytes_of, blake3_digest, blake3_hash, push_bytes};
use crate::capability::{byte_range, lemma_be_bytes_injective};
use crate::time::Timestamp;
use crate::token::{uuid_text, uuid_to_text};

verus! {

/// An event worth recording.
#[derive(Debug, PartialEq, Eq)]
pub enum AuditEvent {
    RootMinted { task_id: u128 },
    CapabilityAttenuated { task_id: u128 },
    ToolAllowed { tool_name: String },
    ToolDenied { tool_name: String, reason: String },
}

/// One entry of the log.
#[derive(Debug, PartialEq, Eq)]
pub struct AuditEntry {
    pub id: u128,
    pub timestamp: Timestamp,
    pub event: AuditEvent,
    pub previous_hash: [u8; 32],
    pub entry_hash: [u8; 32],
}

/// Why a log failed verification.
#[derive(Debug, PartialEq, Eq, Structural)]
pub enum AuditError {
    /// The entry at `index` does not carry the previous entry's hash.
    BrokenChain { index: usize },
    /// The entry at `index` does not carry the hash of its own fields.
    HashMismatch { index: usize },
}

/// The bytes that frame a string: its length in bytes (eight bytes, most
/// significant first) and then its UTF-8 bytes.
pub open spec fn str_frame(s: Seq<char>) -> Seq<u8> {
    be_bytes(encode_utf8(s).len(), 8) + encode_utf8(s)
}

/// The bytes that record an event: a tag naming its kind, then its fields.
pub open spec fn event_bytes(event: AuditEvent) -> Seq<u8> {
    match event {
        AuditEvent::RootMinted { task_id } => encode_utf8("root_minted"@) + be_bytes(task_id as nat, 16),
        AuditEvent::CapabilityAttenuated { task_id } => encode_utf8("capability_attenuated"@) + be_bytes(
            task_id as nat,
            16,
        ),
        AuditEvent::ToolAllowed { tool_name } => encode_utf8("tool_allowed"@) + str_frame(tool_name@),
        AuditEvent::ToolDenied { tool_name, reason } => encode_utf8("tool_denied"@) + str_frame(
            tool_name@,
        ) + str_frame(reason@),
    }
}

/// The UTF-8 encoding of characters below U+0080 is one byte each, the
/// character's own code.
proof fn lemma_ascii_encoding(s: Seq<char>)
    requires
        forall|i: int| 0 <= i < s.len() ==> (#[trigger] s[i] as u32) < 128,
    ensures
        encode_utf8(s) == Seq::new(s.len(), |i: int| (s[i] as u32) as u8),
    decreases s.len(),
{
    if s.len() > 0 {
        let rest = s.drop_first();
        assert forall|i: int| 0 <= i < rest.len() implies (#[trigger] rest[i] as u32) < 128 by {
            assert(rest[i] == s[i + 1]);
        }
        lemma_ascii_encoding(rest);
        let c = s[0] as u32;
        assert(c < 128);
        assert(encode_scalar(c) == seq![c as u8]) by {
            assert(has_width_1_encoding(c));
            assert(leading_byte_width_1(c) == c as u8) by (bit_vector)
                requires
                    c < 128,
            ;
        }
        let whole = Seq::new(s.len(), |i: int| (s[i] as u32) as u8);
        let tail = Seq::new(rest.len(), |i: int| (rest[i] as u32) as u8);
        assert(whole =~= seq![c as u8] + tail) by {
            assert forall|i: int| 0 <= i < whole.len() implies whole[i] == (seq![c as u8] + tail)[i] by {
                if i > 0 {
                    assert(rest[i - 1] == s[i]);
                }
            }
        }
    }
}

/// The bytes of the tags that open the records of the four kinds of event.
proof fn lemma_event_tags()
    ensures
        encode_utf8("root_minted"@) == seq![114u8, 111, 111, 116, 95, 109, 105, 110, 116, 101, 100],
        encode_utf8("capability_attenuated"@) == seq![
            99u8, 97, 112, 97, 98, 105, 108, 105, 116, 121, 95, 97, 116, 116, 101, 110, 117, 97, 116, 101, 100,
        ],
        encode_utf8("tool_allowed"@) == seq![116u8, 111, 111, 108, 95, 97, 108, 108, 111, 119, 101, 100],
        encode_utf8("tool_denied"@) == seq![116u8, 111, 111, 108, 95, 100, 101, 110, 105, 101, 100],
{
    reveal_strlit("root_minted");
    reveal_strlit("capability_attenuated");
    reveal_strlit("tool_allowed");
    reveal_strlit("tool_denied");
    lemma_ascii_encoding("root_minted"@);
    lemma_ascii_encoding("capability_attenuated"@);
    lemma_ascii_encoding("tool_allowed"@);
    lemma_ascii_encoding("tool_denied"@);
    assert(Seq::new("root_minted"@.len(), |i: int| ("root_minted"@[i] as u32) as u8) =~= seq![
        114u8, 111, 111, 116, 95, 109, 105, 110, 116, 101, 100,
    ]);
    assert(Seq::new("capability_attenuated"@.len(), |i: int| ("capability_attenuated"@[i] as u32) as u8) =~= seq![
        99u8, 97, 112, 97, 98, 105, 108, 105, 116, 121, 95, 97, 116, 116, 101, 110, 117, 97, 116, 101, 100,
    ]);
    assert(Seq::new("tool_allowed"@.len(), |i: int| ("tool_allowed"@[i] as u32) as u8) =~= seq![
        116u8, 111, 111, 108, 95, 97, 108, 108, 111, 119, 101, 100,
    ]);
    assert(Seq::new("tool_denied"@.len(), |i: int| ("tool_denied"@[i] as u32) as u8) =~= seq![
        116u8, 111, 111, 108, 95, 100, 101, 110, 105, 101, 100,
    ]);
}

/// Whether each string an event records is short enough for the
/// eight-byte length of its frame (every string a program holds is).
pub open spec fn frames_fit(e: AuditEvent) -> bool {
    match e {
        AuditEvent::ToolAllowed { tool_name } => encode_utf8(tool_name@).len() < byte_range(8),
        AuditEvent::ToolDenied { tool_name, reason } => encode_utf8(tool_name@).len() < byte_range(8)
            && encode_utf8(reason@).len() < byte_range(8),
        _ => true,
    }
}

/// The ranges of four, eight and sixteen bytes.
proof fn lemma_byte_ranges()
    ensures
        byte_range(4) == 0x1_0000_0000,
        byte_range(8) == 0x1_0000_0000_0000_0000,
        byte_range(16) == 0x1_0000_0000_0000_0000_0000_0000_0000_0000,
{
    reveal_with_fuel(byte_range, 17);
}

/// `k` big-endian bytes are `k` bytes.
proof fn lemma_be_bytes_len(n: nat, k: nat)
    ensures
        be_bytes(n, k).len() == k,
    decreases k,
{
    if k > 0 {
        lemma_be_bytes_len(n / 256, (k - 1) as nat);
    }
}

/// A framed string followed by more bytes splits back into the string and
/// the bytes that follow it.
proof fn lemma_frame_split(a: Seq<char>, x: Seq<u8>, b: Seq<char>, y: Seq<u8>)
    requires
        str_frame(a) + x == str_frame(b) + y,
        encode_utf8(a).len() < byte_range(8),
        encode_utf8(b).len() < byte_range(8),
    ensures
        a == b,
        x == y,
{
    let ea = encode_utf8(a);
    let eb = encode_utf8(b);
    let w = str_frame(a) + x;
    lemma_be_bytes_len(ea.len(), 8);
    lemma_be_bytes_len(eb.len(), 8);
    assert(w.subrange(0, 8) =~= be_bytes(ea.len(), 8));
    assert(w.subrange(0, 8) =~= be_bytes(eb.len(), 8));
    lemma_be_bytes_injective(ea.len(), eb.len(), 8);
    assert(w.subrange(8, 8 + ea.len() as int) =~= ea);
    assert(w.subrange(8, 8 + eb.len() as int) =~= eb);
    vstd::utf8::encode_utf8_decode_utf8(a);
    vstd::utf8::encode_utf8_decode_utf8(b);
    assert(w.subrange(8 + ea.len() as int, w.len() as int) =~= x);
    assert(w.subrange(8 + eb.len() as int, w.len() as int) =~= y);
}

/// Every field of an event is recorded: two events recorded by the same
/// bytes are the same event (of the same kind, with the same task id, tool
/// name and reason).
pub proof fn lemma_event_bytes_injective(a: AuditEvent, b: AuditEvent)
    requires
        event_bytes(a) == event_bytes(b),
        frames_fit(a),
        frames_fit(b),
    ensures
        crate::orchestrator::event_view(a) == crate::orchestrator::event_view(b),
{
    lemma_event_tags();
    let w = event_bytes(a);
    lemma_byte_ranges();
    match (a, b) {
        (AuditEvent::RootMinted { task_id: x }, AuditEvent::RootMinted { task_id: y }) => {
            lemma_be_bytes_len(x as nat, 16);
            lemma_be_bytes_len(y as nat, 16);
            assert(w.subrange(11, 27) =~= be_bytes(x as nat, 16));
            assert(event_bytes(b).subrange(11, 27) =~= be_bytes(y as nat, 16));
            lemma_be_bytes_injective(x as nat, y as nat, 16);
        },
        (
            AuditEvent::CapabilityAttenuated { task_id: x },
            AuditEvent::CapabilityAttenuated { task_id: y },
        ) => {
            lemma_be_bytes_len(x as nat, 16);
            lemma_be_bytes_len(y as nat, 16);
            assert(w.subrange(21, 37) =~= be_bytes(x as nat, 16));
            assert(event_bytes(b).subrange(21, 37) =~= be_bytes(y as nat, 16));
            lemma_be_bytes_injective(x as nat, y as nat, 16);
        },
        (AuditEvent::ToolAllowed { tool_name: x }, AuditEvent::ToolAllowed { tool_name: y }) => {
            assert(w.subrange(12, w.len() as int) =~= str_frame(x@) + Seq::<u8>::empty());
            assert(event_bytes(b).subrange(12, w.len() as int) =~= str_frame(y@) + Seq::<u8>::empty());
            lemma_frame_split(x@, Seq::empty(), y@, Seq::empty());
        },
        (
            AuditEvent::ToolDenied { tool_name: x, reason: rx },
            AuditEvent::ToolDenied { tool_name: y, reason: ry },
        ) => {
            assert(w.subrange(11, w.len() as int) =~= str_frame(x@) + str_frame(rx@));
            assert(event_bytes(b).subrange(11, w.len() as int) =~= str_frame(y@) + str_frame(ry@));
            lemma_frame_split(x@, str_frame(rx@), y@, str_frame(ry@));
            assert(str_frame(rx@) =~= str_frame(rx@) + Seq::<u8>::empty());
            assert(str_frame(ry@) =~= str_frame(ry@) + Seq::<u8>::empty());
            lemma_frame_split(rx@, Seq::empty(), ry@, Seq::empty());
        },
        (AuditEvent::ToolAllowed { .. }, AuditEvent::ToolDenied { .. }) => {
            assert(w[5] == event_bytes(b)[5]);
        },
        (AuditEvent::ToolDenied { .. }, AuditEvent::ToolAllowed { .. }) => {
            assert(w[5] == event_bytes(b)[5]);
        },
        _ => {
            assert(w[0] == event_bytes(b)[0]);
        },
    }
}

/// An entry's hash covers every one of its fields: two entries whose
/// fields give the same bytes to hash (with previous hashes of one length)
/// have the same id, time, event and previous hash. Editing any field of a
/// sealed entry therefore changes what its hash must cover.
pub proof fn lemma_entry_preimage_injective(
    id1: u128,
    t1: Timestamp,
    e1: AuditEvent,
    h1: Seq<u8>,
    id2: u128,
    t2: Timestamp,
    e2: AuditEvent,
    h2: Seq<u8>,
)
    requires
        entry_preimage(id1, t1, e1, h1) == entry_preimage(id2, t2, e2, h2),
        h1.len() == h2.len(),
        frames_fit(e1),
        frames_fit(e2),
    ensures
        id1 == id2,
        t1 == t2,
        crate::orchestrator::event_view(e1) == crate::orchestrator::event_view(e2),
        h1 == h2,
{
    let w = entry_preimage(id1, t1, e1, h1);
    let w2 = entry_preimage(id2, t2, e2, h2);
    let s1 = (t1.secs as u64) as nat;
    let s2 = (t2.secs as u64) as nat;
    lemma_be_bytes_len(id1 as nat, 16);
    lemma_be_bytes_len(id2 as nat, 16);
    lemma_be_bytes_len(s1, 8);
    lemma_be_bytes_len(s2, 8);
    lemma_be_bytes_len(t1.nanos as nat, 4);
    lemma_be_bytes_len(t2.nanos as nat, 4);
    lemma_byte_ranges();
    assert(w.subrange(0, 16) =~= be_bytes(id1 as nat, 16));
    assert(w2.subrange(0, 16) =~= be_bytes(id2 as nat, 16));
    lemma_be_bytes_injective(id1 as nat, id2 as nat, 16);
    assert(w.subrange(16, 24) =~= be_bytes(s1, 8));
    assert(w2.subrange(16, 24) =~= be_bytes(s2, 8));
    lemma_be_bytes_injective(s1, s2, 8);
    let a = t1.secs;
    let b = t2.secs;
    assert((a as u64) == (b as u64) ==> a == b) by (bit_vector);
    assert(w.subrange(24, 28) =~= be_bytes(t1.nanos as nat, 4));
    assert(w2.subrange(24, 28) =~= be_bytes(t2.nanos as nat, 4));
    lemma_be_bytes_injective(t1.nanos as nat, t2.nanos as nat, 4);
    let rest1 = event_bytes(e1) + h1;
    let rest2 = event_bytes(e2) + h2;
    assert(w.subrange(28, w.len() as int) =~= rest1);
    assert(w2.subrange(28, w2.len() as int) =~= rest2);
    assert(event_bytes(e1).len() == event_bytes(e2).len());
    assert(rest1.subrange(0, event_bytes(e1).len() as int) =~= event_bytes(e1));
    assert(rest2.subrange(0, event_bytes(e2).len() as int) =~= event_bytes(e2));
    assert(rest1.subrange(event_bytes(e1).len() as int, rest1.len() as int) =~= h1);
    assert(rest2.subrange(event_bytes(e2).len() as int, rest2.len() as int) =~= h2);
    lemma_event_bytes_injective(e1, e2);
}

/// Editing the event of a sealed entry unseals it, barring a collision of
/// the hash: where the digest tells apart the bytes of the entry before and
/// after the edit (as it does unless they collide), an entry whose event
/// was replaced by a different one no longer carries the hash of its fields.
pub proof fn lemma_edited_event_unseals(e: AuditEntry, event: AuditEvent)
    requires
        sealed(e),
        frames_fit(e.event),
        frames_fit(event),
        crate::orchestrator::event_view(event) != crate::orchestrator::event_view(e.event),
        entry_preimage(e.id, e.timestamp, event, e.previous_hash@) != entry_preimage(
            e.id,
            e.timestamp,
            e.event,
            e.previous_hash@,
        ) ==> entry_digest(e.id, e.timestamp, event, e.previous_hash@) != entry_digest(
            e.id,
            e.timestamp,
            e.event,
            e.previous_hash@,
        ),
    ensures
        !sealed(AuditEntry { event, ..e }),
{
    if entry_preimage(e.id, e.timestamp, event, e.previous_hash@) == entry_preimage(
        e.id,
        e.timestamp,
        e.event,
        e.previous_hash@,
    ) {
        lemma_entry_preimage_injective(
            e.id,
            e.timestamp,
            event,
            e.previous_hash@,
            e.id,
            e.timestamp,
            e.event,
            e.previous_hash@,
        );
    }
}

/// The bytes an entry's hash covers: its id (sixteen bytes), its time
/// (the signed seconds in eight bytes, the nanoseconds in four, most
/// significant first), its event, and the previous entry's hash.
pub open spec fn entry_preimage(id: u128, timestamp: Timestamp, event: AuditEvent, previous_hash: Seq<u8>) -> Seq<u8> {
    be_bytes(id as nat, 16) + be_bytes((timestamp.secs as u64) as nat, 8) + be_bytes(
        timestamp.nanos as nat,
        4,
    ) + event_bytes(event) + previous_hash
}

/// The hash an entry with these fields must carry.
pub open spec fn entry_digest(id: u128, timestamp: Timestamp, event: AuditEvent, previous_hash: Seq<u8>) -> Seq<u8> {
    blake3_digest(entry_preimage(id, timestamp, event, previous_hash))
}

/// Appends the frame of the string `s`.
fn push_str_frame(out: &mut Vec<u8>, s: &str)
    ensures
        final(out)@ == old(out)@ + str_frame(s@),
{
    let bytes = s.as_bytes();
    let len = be_bytes_of(bytes.len() as u128, 8);
    push_bytes(out, len.as_slice());
    push_bytes(out, bytes);
    assert(final(out)@ =~= old(out)@ + str_frame(s@)) by {
        assert(out@ =~= old(out)@ + str_frame(s@));
    }
}

/// Appends the bytes that record `event`.
fn push_event(out: &mut Vec<u8>, event: &AuditEvent)
    ensures
        final(out)@ == old(out)@ + event_bytes(*event),
{
    let ghost start = out@;
    match event {
        AuditEvent::RootMinted { task_id } => {
            push_bytes(out, "root_minted".as_bytes());
            let id = be_bytes_of(*task_id, 16);
            push_bytes(out, id.as_slice());
        },
        AuditEvent::CapabilityAttenuated { task_id } => {
            push_bytes(out, "capability_attenuated".as_bytes());
            let id = be_bytes_of(*task_id, 16);
            push_bytes(out, id.as_slice());
        },
        AuditEvent::ToolAllowed { tool_name } => {
            push_bytes(out, "tool_allowed".as_bytes());
            push_str_frame(out, tool_name.as_str());
        },
        AuditEvent::ToolDenied { tool_name, reason } => {
            push_bytes(out, "tool_denied".as_bytes());
            push_str_frame(out, tool_name.as_str());
            push_str_frame(out, reason.as_str());
        },
    }
    assert(out@ =~= start + event_bytes(*event));
}

/// The hash of an entry's fields.
pub fn hash_entry_fields(id: u128, timestamp: Timestamp, event: &AuditEvent, previous_hash: &[u8; 32]) -> (r: [u8; 32])
    ensures
        r@ == entry_digest(id, timestamp, *event, previous_hash@),
{
    let mut preimage: Vec<u8> = Vec::new();
    let id_bytes = be_bytes_of(id, 16);
    push_bytes(&mut preimage, id_bytes.as_slice());
    let secs = be_bytes_of((timestamp.secs as u64) as u128, 8);
    push_bytes(&mut preimage, secs.as_slice());
    let nanos = be_bytes_of(timestamp.nanos as u128, 4);
    push_bytes(&mut preimage, nanos.as_slice());
    push_event(&mut preimage, event);
    push_bytes(&mut preimage, previous_hash.as_slice());
    assert(preimage@ =~= entry_preimage(id, timestamp, *event, previous_hash@));
    blake3_hash(preimage.as_slice())
}

/// `uuid::Uuid::new_v4`: a fresh random UUID, as a `u128`.
#[verifier::external_body]
pub(crate) fn random_uuid() -> u128 {
    uuid::Uuid::new_v4().as_u128()
}

/// Whether `e` is an entry sealed with the hash of its own fields.
pub open spec fn sealed(e: AuditEntry) -> bool {
    e.entry_hash@ == entry_digest(e.id, e.timestamp, e.event, e.previous_hash@)
}

/// The entry with id `id` recording `event` at `timestamp` after the entry
/// whose hash is `previous_hash`, sealed with the hash of these fields.
pub fn chain_entry_with_id(id: u128, previous_hash: [u8; 32], timestamp: Timestamp, event: AuditEvent) -> (r: AuditEntry)
    ensures
        r.id == id,
        r.timestamp == timestamp,
        r.event == event,
        r.previous_hash == previous_hash,
        sealed(r),
{
    let entry_hash = hash_entry_fields(id, timestamp, &event, &previous_hash);
    AuditEntry { id, timestamp, event, previous_hash, entry_hash }
}

/// A new entry with a fresh random id recording `event` at `timestamp`
/// after the entry whose hash is `previous_hash`, sealed with the hash of
/// its fields. It always succeeds.
pub fn chain_entry(previous_hash: [u8; 32], timestamp: Timestamp, event: AuditEvent) -> (r: Result<AuditEntry, AuditError>)
    ensures
        r matches Ok(e) && e.timestamp == timestamp && e.event == event && e.previous_hash == previous_hash
            && sealed(e),
{
    let id = random_uuid();
    Ok(chain_entry_with_id(id, previous_hash, timestamp, event))
}

/// Whether the entry at `i` carries the hash of the entry before it (the
/// first entry has none to carry).
pub open spec fn linked(entries: Seq<AuditEntry>, i: int) -> bool {
    i == 0 || entries[i].previous_hash == entries[i - 1].entry_hash
}

/// The verdict on the log from position `i` on: the first entry, in order,
/// whose hash is not the hash of its fields (`HashMismatch`) or, failing
/// that, that does not carry the previous entry's hash (`BrokenChain`).
pub open spec fn chain_verdict_from(entries: Seq<AuditEntry>, i: int) -> Result<(), AuditError>
    decreases entries.len() - i,
{
    if i < 0 || i >= entries.len() {
        Ok(())
    } else if !sealed(entries[i]) {
        Err(AuditError::HashMismatch { index: i as usize })
    } else if !linked(entries, i) {
        Err(AuditError::BrokenChain { index: i as usize })
    } else {
        chain_verdict_from(entries, i + 1)
    }
}

/// The verdict on a whole log.
pub open spec fn chain_verdict(entries: Seq<AuditEntry>) -> Result<(), AuditError> {
    chain_verdict_from(entries, 0)
}

/// Whether two hashes are equal.
fn same_digest(a: &[u8; 32], b: &[u8; 32]) -> (r: bool)
    ensures
        r == (*a == *b),
{
    let r = crate::capability::same_hash(a, b);
    proof {
        if r {
            assert(*a =~= *b);
        }
    }
    r
}

/// Verifies a log: every entry must carry the hash of its own fields and
/// the hash of the entry before it.
pub fn verify_chain(entries: &[AuditEntry]) -> (r: Result<(), AuditError>)
    ensures
        r == chain_verdict(entries@),
{
    let mut index: usize = 0;
    while index < entries.len()
        invariant
            index <= entries@.len(),
            chain_verdict(entries@) == chain_verdict_from(entries@, index as int),
        decreases entries@.len() - index,
    {
        let entry = &entries[index];
        let expected = hash_entry_fields(entry.id, entry.timestamp, &entry.event, &entry.previous_hash);
        if !same_digest(&entry.entry_hash, &expected) {
            proof {
                if sealed(*entry) {
                    assert(entry.entry_hash@ == expected@);
                    assert(entry.entry_hash =~= expected);
                }
            }
            return Err(AuditError::HashMismatch { index });
        }
        if index > 0 {
            if !same_digest(&entry.previous_hash, &entries[index - 1].entry_hash) {
                return Err(AuditError::BrokenChain { index });
            }
        }
        index = index + 1;
    }
    Ok(())
}

/// Appending an entry sealed after the last one keeps a valid log valid:
/// a log built by chaining each new entry to the last verifies.
pub proof fn lemma_append_keeps_chain(entries: Seq<AuditEntry>, e: AuditEntry)
    requires
        chain_verdict(entries) is Ok,
        sealed(e),
        entries.len() > 0 ==> e.previous_hash == entries.last().entry_hash,
    ensures
        chain_verdict(entries.push(e)) is Ok,
{
    let all = entries.push(e);
    assert forall|i: int| 0 <= i < entries.len() implies sealed(#[trigger] all[i]) && linked(all, i) by {
        lemma_verdict_ok_entry(entries, 0, i);
        assert(all[i] == entries[i]);
        if i > 0 {
            assert(all[i - 1] == entries[i - 1]);
        }
    }
    lemma_verdict_from_all_ok(all, 0);
}

/// Tampering is found where it happened: in a log that verified, an entry
/// changed so that it no longer carries the hash of its own fields (any
/// change to its fields or to its hash, barring a collision of the hash)
/// makes the check fail with a hash mismatch at that entry.
pub proof fn lemma_tampered_entry_found(entries: Seq<AuditEntry>, tampered: Seq<AuditEntry>, i: int)
    requires
        chain_verdict(entries) is Ok,
        tampered.len() == entries.len(),
        0 <= i < entries.len(),
        forall|j: int| 0 <= j < entries.len() && j != i ==> #[trigger] tampered[j] == entries[j],
        !sealed(tampered[i]),
    ensures
        chain_verdict(tampered) == Err::<(), AuditError>(AuditError::HashMismatch { index: i as usize }),
{
    lemma_tampered_found_from(entries, tampered, i, 0);
}

/// The verdict on a tampered log from `start` on, up to the tampered entry.
proof fn lemma_tampered_found_from(entries: Seq<AuditEntry>, tampered: Seq<AuditEntry>, i: int, start: int)
    requires
        chain_verdict(entries) is Ok,
        tampered.len() == entries.len(),
        0 <= start <= i < entries.len(),
        forall|j: int| 0 <= j < entries.len() && j != i ==> #[trigger] tampered[j] == entries[j],
        !sealed(tampered[i]),
    ensures
        chain_verdict_from(tampered, start) == Err::<(), AuditError>(AuditError::HashMismatch { index: i as usize }),
    decreases i - start,
{
    if start < i {
        lemma_verdict_ok_entry(entries, 0, start);
        assert(tampered[start] == entries[start]);
        if start > 0 {
            assert(tampered[start - 1] == entries[start - 1]);
        }
        lemma_tampered_found_from(entries, tampered, i, start + 1);
    }
}

/// Changing the hash of a sealed entry, and nothing else, unseals it.
pub proof fn lemma_rehashed_entry_unsealed(e: AuditEntry, entry_hash: [u8; 32])
    requires
        sealed(e),
        entry_hash@ != e.entry_hash@,
    ensures
        !sealed(AuditEntry { entry_hash, ..e }),
{
}

/// Each entry of a log whose verdict is `Ok` is sealed and linked.
proof fn lemma_verdict_ok_entry(entries: Seq<AuditEntry>, start: int, i: int)
    requires
        0 <= start <= i < entries.len(),
        chain_verdict_from(entries, start) is Ok,
    ensures
        sealed(entries[i]),
        linked(entries, i),
    decreases i - start,
{
    if start < i {
        lemma_verdict_ok_entry(entries, start + 1, i);
    }
}

/// A log whose entries from `start` on are all sealed and linked has an
/// `Ok` verdict from `start`.
proof fn lemma_verdict_from_all_ok(entries: Seq<AuditEntry>, start: int)
    requires
        0 <= start <= entries.len(),
        forall|i: int| start <= i < entries.len() ==> sealed(#[trigger] entries[i]) && linked(entries, i),
    ensures
        chain_verdict_from(entries, start) is Ok,
    decreases entries.len() - start,
{
    if start < entries.len() {
        assert(sealed(entries[start]));
        lemma_verdict_from_all_ok(entries, start + 1);
    }
}

/// The text that describes an event in a human-readable log.
pub open spec fn event_text(event: AuditEvent) -> Seq<char> {
    match event {
        AuditEvent::RootMinted { task_id } => "ROOT MINTED   task="@ + uuid_text(task_id),
        AuditEvent::CapabilityAttenuated { task_id } => "ATTENUATED    task="@ + uuid_text(task_id),
        AuditEvent::ToolAllowed { tool_name } => "ALLOWED       "@ + tool_name@,
        AuditEvent::ToolDenied { tool_name, reason } => "DENIED        "@ + tool_name@ + "  — "@
            + reason@,
    }
}

impl AuditEvent {
    /// The human-readable line for this event.
    pub fn describe(&self) -> (r: String)
        ensures
            r@ == event_text(*self),
    {
        match self {
            AuditEvent::RootMinted { task_id } => {
                let id = uuid_to_text(*task_id);
                crate::text::concat("ROOT MINTED   task=", id.as_str())
            },
            AuditEvent::CapabilityAttenuated { task_id } => {
                let id = uuid_to_text(*task_id);
                crate::text::concat("ATTENUATED    task=", id.as_str())
            },
            AuditEvent::ToolAllowed { tool_name } => crate::text::concat("ALLOWED       ", tool_name.as_str()),
            AuditEvent::ToolDenied { tool_name, reason } => {
                let head = crate::text::concat("DENIED        ", tool_name.as_str());
                let mid = crate::text::concat(head.as_str(), "  — ");
                crate::text::concat(mid.as_str(), reason.as_str())
            },
        }
    }
}

/// The message that describes an audit error.
pub open spec fn audit_error_text(e: AuditError) -> Seq<char> {
    match e {
        AuditError::BrokenChain { index } => "audit chain is broken at entry "@ + crate::codec::decimal_text(
            index as nat,
        ),
        AuditError::HashMismatch { index } => "audit entry hash mismatch at entry "@ + crate::codec::decimal_text(
            index as nat,
        ),
    }
}

impl AuditError {
    /// The message that describes this error.
    pub fn message(&self) -> (r: String)
        ensures
            r@ == audit_error_text(*self),
    {
        let mut out: Vec<char> = Vec::new();
        match self {
            AuditError::BrokenChain { index } => {
                crate::text::push_str(&mut out, "audit chain is broken at entry ");
                crate::codec::push_decimal(&mut out, *index as u64);
            },
            AuditError::HashMismatch { index } => {
                crate::text::push_str(&mut out, "audit entry hash mismatch at entry ");
                crate::codec::push_decimal(&mut out, *index as u64);
            },
        }
        assert(out@ =~= audit_error_text(*self));
        crate::text::string_of(&out)
    }
}

} // verus!
