//! The signed token behind a capability: the Datalog facts that record a
//! capability's state in a biscuit block, the calls that sign and append
//! blocks, and the decoding of the latest block's state back into values.

use vstd::prelude::*;
use biscuit_auth::builder::{BiscuitBuilder, BlockBuilder};
use biscuit_auth::{Biscuit, KeyPair, PublicKey};
use crate::capability::{
    lemma_path_dedup, lemma_text_dedup, names_member, path_dedup,
    same_path_sets, text_dedup, texts, BindingView, PermissionSet, PermissionView, RequestBinding,
};
use crate::codec::{
    decode_hex32, escaped, hex32_decoded, hex_text, network_parsed, network_text,
    network_to_str, parse_network, push_decimal, push_escaped, push_hex, decimal_text,
    CodecError, FactName,
};
use crate::digest::be_bytes;
use crate::text::{push_chars, push_str, string_of};
use crate::time::Timestamp;

verus! {

#[verifier::external_type_specification]
#[verifier::external_body]
pub struct ExKeyPair(KeyPair);

#[verifier::external_type_specification]
#[verifier::external_body]
pub struct ExBiscuit(Biscuit);

#[verifier::external_type_specification]
#[verifier::external_body]
pub struct ExBiscuitBuilder(BiscuitBuilder);

#[verifier::external_type_specification]
#[verifier::external_body]
pub struct ExBlockBuilder(BlockBuilder);

#[verifier::external_type_specification]
#[verifier::external_body]
pub struct ExTokenError(biscuit_auth::error::Token);

/// The hyphenated lowercase text of a UUID: its sixteen bytes in
/// hexadecimal, grouped 4-2-2-2-6 and joined by hyphens.
pub open spec fn uuid_text(n: u128) -> Seq<char> {
    let b = be_bytes(n as nat, 16);
    hex_text(b.subrange(0, 4)) + seq!['-'] + hex_text(b.subrange(4, 6)) + seq!['-'] + hex_text(
        b.subrange(6, 8),
    ) + seq!['-'] + hex_text(b.subrange(8, 10)) + seq!['-'] + hex_text(b.subrange(10, 16))
}

/// The UUID that `uuid::Uuid::parse_str` reads from a text, if any.
pub uninterp spec fn uuid_parsed(s: Seq<char>) -> Option<u128>;

/// The RFC 3339 text that `chrono` writes for a UTC point in time.
pub uninterp spec fn rfc3339_text(secs: i64, nanos: u32) -> Seq<char>;

/// The UTC point in time (seconds, nanoseconds) that `chrono` reads from an
/// RFC 3339 text, if any.
pub uninterp spec fn rfc3339_parsed(s: Seq<char>) -> Option<(i64, u32)>;

/// `uuid::Uuid::from_u128` shown by its `Display` impl: the hyphenated
/// lowercase form, which `uuid::Uuid::parse_str` reads back as the same
/// UUID.
#[verifier::external_body]
pub(crate) fn uuid_to_text(n: u128) -> (r: String)
    ensures
        r@ == uuid_text(n),
        uuid_parsed(r@) == Some(n),
{
    uuid::Uuid::from_u128(n).to_string()
}

/// `uuid::Uuid::parse_str`, the UUID taken as a `u128`.
#[verifier::external_body]
pub(crate) fn parse_uuid(s: &str) -> (r: Option<u128>)
    ensures
        r == uuid_parsed(s@),
{
    match uuid::Uuid::parse_str(s) {
        Ok(u) => Some(u.as_u128()),
        Err(_) => None,
    }
}

/// `chrono::DateTime::<Utc>::to_rfc3339` on the point in time `t`, which
/// `chrono` represents (`DateTime::from_timestamp` answers `Some`). For a
/// year from 0 to 9999 the year is written with four digits and the
/// fraction of the second with as many digits as it needs, so that
/// `DateTime::parse_from_rfc3339` reads back the same point in time; other
/// years are written with a sign, which that parser refuses.
#[verifier::external_body]
pub(crate) fn format_rfc3339(t: Timestamp) -> (r: String)
    requires
        t.wf(),
    ensures
        r@ == rfc3339_text(t.secs, t.nanos),
        four_digit_year(t) ==> rfc3339_parsed(r@) == Some((t.secs, t.nanos)),
{
    match chrono::DateTime::from_timestamp(t.secs, t.nanos) {
        Some(d) => d.to_rfc3339(),
        None => String::new(),
    }
}

/// Whether `t` falls in a year from 0 to 9999 (UTC).
pub open spec fn four_digit_year(t: Timestamp) -> bool {
    -62_167_219_200 <= t.secs <= 253_402_300_799
}

/// `chrono::DateTime::parse_from_rfc3339`, the result taken in UTC as whole
/// seconds and nanoseconds.
#[verifier::external_body]
pub(crate) fn parse_rfc3339(s: &str) -> (r: Option<Timestamp>)
    ensures
        r == match rfc3339_parsed(s@) {
            Some((secs, nanos)) => Some(Timestamp { secs, nanos }),
            None => None::<Timestamp>,
        },
{
    match chrono::DateTime::parse_from_rfc3339(s) {
        Ok(d) => Some(Timestamp { secs: d.timestamp(), nanos: d.timestamp_subsec_nanos() }),
        Err(_) => None,
    }
}

/// `biscuit_auth::KeyPair::new`: a fresh random key pair.
#[verifier::external_body]
pub(crate) fn new_keypair() -> KeyPair {
    KeyPair::new()
}

/// The 32-byte encoding of the public half of the key pair `k`.
pub uninterp spec fn keypair_public_key(k: KeyPair) -> Seq<u8>;

/// `biscuit_auth::KeyPair::public` and `biscuit_auth::PublicKey::to_bytes`:
/// the 32-byte encoding of the public half of `keypair`.
#[verifier::external_body]
pub(crate) fn keypair_public_bytes(keypair: &KeyPair) -> (r: [u8; 32])
    ensures
        r@ == keypair_public_key(*keypair),
{
    keypair.public().to_bytes()
}

/// The facts that a builder of a token's first block holds, in the order
/// they were added, where it holds nothing but facts of the shapes of
/// [`FactView`] (no rule, check, scope or context).
pub uninterp spec fn builder_facts(b: BiscuitBuilder) -> Option<Seq<FactView>>;

/// The facts that a builder of an appended block holds, in the order they
/// were added, where it holds nothing but facts of the shapes of
/// [`FactView`] (no rule, check, scope or context).
pub uninterp spec fn block_facts(b: BlockBuilder) -> Option<Seq<FactView>>;

/// The (integer, string) rows that `biscuit_auth::Authorizer::query_all`
/// answers for `rule` on the authorizer of the token `t`.
pub uninterp spec fn biscuit_pair_rows(t: Biscuit, rule: Seq<char>) -> Set<(i64, Seq<char>)>;

/// The string rows that `biscuit_auth::Authorizer::query_all` answers for
/// `rule` on the authorizer of the token `t`.
pub uninterp spec fn biscuit_string_rows(t: Biscuit, rule: Seq<char>) -> Set<Seq<char>>;

/// The 32-byte encoding of the root public key that the token `t` is
/// signed under.
pub uninterp spec fn biscuit_root_key(t: Biscuit) -> Seq<u8>;

/// The (block, value) rows of the facts `facts` of the state predicate `p`.
pub open spec fn pair_rows_of(facts: Seq<FactView>, p: StatePredicate) -> Set<(i64, Seq<char>)> {
    Set::new(|r: (i64, Seq<char>)| r.0 >= 0 && facts.contains(FactView::Pair(p, r.0 as nat, r.1)))
}

/// The task ids of the facts `facts`.
pub open spec fn task_rows_of(facts: Seq<FactView>) -> Set<Seq<char>> {
    Set::new(|v: Seq<char>| facts.contains(FactView::Task(v)))
}

/// Whether the token `t` answers each rule of [`state_rule_text`] with
/// exactly the rows of the facts `facts`.
pub open spec fn biscuit_answers(t: Biscuit, facts: Seq<FactView>) -> bool {
    &&& biscuit_string_rows(t, state_rule_text(StatePredicate::TaskId)) == task_rows_of(facts)
    &&& forall|p: StatePredicate|
        p != StatePredicate::TaskId ==> #[trigger] biscuit_pair_rows(t, state_rule_text(p)) == pair_rows_of(
            facts,
            p,
        )
}

/// Whether the token `t2` answers each rule of [`state_rule_text`] with the
/// rows `t` answers together with the rows of the facts `facts`.
pub open spec fn biscuit_extends(t2: Biscuit, t: Biscuit, facts: Seq<FactView>) -> bool {
    &&& biscuit_string_rows(t2, state_rule_text(StatePredicate::TaskId)) == biscuit_string_rows(
        t,
        state_rule_text(StatePredicate::TaskId),
    ).union(task_rows_of(facts))
    &&& forall|p: StatePredicate|
        p != StatePredicate::TaskId ==> #[trigger] biscuit_pair_rows(t2, state_rule_text(p)) == biscuit_pair_rows(
            t,
            state_rule_text(p),
        ).union(pair_rows_of(facts, p))
}

/// `biscuit_auth::Biscuit::builder`: an empty builder for a token's first
/// block.
#[verifier::external_body]
pub(crate) fn biscuit_builder() -> (r: BiscuitBuilder)
    ensures
        builder_facts(r) == Some(Seq::<FactView>::empty()),
{
    Biscuit::builder()
}

/// `biscuit_auth::builder::BiscuitBuilder::add_fact`: parses `fact` and adds
/// it to the first block. The text of a fact of [`FactView`]'s shapes (see
/// [`fact_view_text`]) parses as that fact: the predicate's name, the block
/// as an integer and the string with its escapes undone.
#[verifier::external_body]
pub(crate) fn builder_add_fact(builder: &mut BiscuitBuilder, fact: &str) -> (r: Result<(), biscuit_auth::error::Token>)
    ensures
        r is Ok ==> forall|f: FactView|
            #![trigger fact_view_text(f)]
            fact@ == fact_view_text(f) && fact_view_ok(f) ==> match builder_facts(*old(builder)) {
                Some(fs) => builder_facts(*final(builder)) == Some(fs.push(f)),
                None => true,
            },
{
    builder.add_fact(fact)
}

/// `biscuit_auth::builder::BiscuitBuilder::build`: signs the first block
/// with `root_key`. The token is signed under `root_key`'s public key, and
/// the authorizer of a token whose one block holds only facts answers the
/// state rules with exactly the rows of those facts.
#[verifier::external_body]
pub(crate) fn builder_build(builder: BiscuitBuilder, root_key: &KeyPair) -> (r: Result<Biscuit, biscuit_auth::error::Token>)
    ensures
        r matches Ok(t) ==> biscuit_root_key(t) == keypair_public_key(*root_key),
        r matches Ok(t) ==> match builder_facts(builder) {
            Some(fs) => biscuit_answers(t, fs),
            None => true,
        },
{
    builder.build(root_key)
}

/// `biscuit_auth::Biscuit::to_vec`: the serialized token, which
/// `Biscuit::from` accepts under the token's root key and whose authorizer
/// answers every rule as the token's own does.
#[verifier::external_body]
pub(crate) fn biscuit_to_vec(token: &Biscuit) -> (r: Result<Vec<u8>, biscuit_auth::error::Token>)
    ensures
        r matches Ok(bytes) ==> token_accepted(bytes@, biscuit_root_key(*token)),
        r matches Ok(bytes) ==> forall|rule: Seq<char>|
            #[trigger] token_pair_rows(bytes@, biscuit_root_key(*token), rule) == biscuit_pair_rows(*token, rule),
        r matches Ok(bytes) ==> forall|rule: Seq<char>|
            #[trigger] token_string_rows(bytes@, biscuit_root_key(*token), rule) == biscuit_string_rows(*token, rule),
{
    token.to_vec()
}

/// `biscuit_auth::builder::BlockBuilder::new`: an empty block.
#[verifier::external_body]
pub(crate) fn block_builder() -> (r: BlockBuilder)
    ensures
        block_facts(r) == Some(Seq::<FactView>::empty()),
{
    BlockBuilder::new()
}

/// `biscuit_auth::builder::BlockBuilder::add_fact`: parses `fact` and adds
/// it to the block (see [`builder_add_fact`] for how a fact's text parses).
#[verifier::external_body]
pub(crate) fn block_add_fact(block: &mut BlockBuilder, fact: &str) -> (r: Result<(), biscuit_auth::error::Token>)
    ensures
        r is Ok ==> forall|f: FactView|
            #![trigger fact_view_text(f)]
            fact@ == fact_view_text(f) && fact_view_ok(f) ==> match block_facts(*old(block)) {
                Some(fs) => block_facts(*final(block)) == Some(fs.push(f)),
                None => true,
            },
{
    block.add_fact(fact)
}

/// `biscuit_auth::Biscuit::append`: the token with `block` appended and
/// signed with a fresh key, under the same root key. A block that holds only
/// facts adds its facts' rows to what the authorizer answers for the state
/// rules; the rules of earlier blocks do not see a later block, so nothing
/// else changes.
#[verifier::external_body]
pub(crate) fn biscuit_append(token: &Biscuit, block: BlockBuilder) -> (r: Result<Biscuit, biscuit_auth::error::Token>)
    ensures
        r matches Ok(t) ==> biscuit_root_key(t) == biscuit_root_key(*token),
        r matches Ok(t) ==> match block_facts(block) {
            Some(fs) => biscuit_extends(t, *token, fs),
            None => true,
        },
{
    token.append(block)
}

/// Whether `biscuit_auth::Biscuit::from` accepts the serialized token
/// `token` under the root public key encoded by `key`: the key decodes, the
/// token deserializes, and its signature chain verifies against the key.
pub uninterp spec fn token_accepted(token: Seq<u8>, key: Seq<u8>) -> bool;

/// The rows that `biscuit_auth::Authorizer::query_all` answers, on the
/// authorizer of the token `token` accepted under `key`, for the rule `rule`
/// whose head holds an integer and a string: the set of (integer, string)
/// pairs, taken in no order.
pub uninterp spec fn token_pair_rows(token: Seq<u8>, key: Seq<u8>, rule: Seq<char>) -> Set<(i64, Seq<char>)>;

/// The rows that `biscuit_auth::Authorizer::query_all` answers, on the
/// authorizer of the token `token` accepted under `key`, for the rule `rule`
/// whose head holds one string: the set of strings, taken in no order.
pub uninterp spec fn token_string_rows(token: Seq<u8>, key: Seq<u8>, rule: Seq<char>) -> Set<Seq<char>>;

/// `biscuit_auth::Biscuit::from` with the root key decoded by
/// `biscuit_auth::PublicKey::from_bytes`: the token, accepted exactly where
/// [`token_accepted`] says (a key that does not decode is a format error).
#[verifier::external_body]
pub(crate) fn accept_token(token: &[u8], root_public_key: &[u8; 32]) -> (r: Result<Biscuit, biscuit_auth::error::Token>)
    ensures
        r is Ok <==> token_accepted(token@, root_public_key@),
        r matches Ok(t) ==> biscuit_root_key(t) == root_public_key@,
        r matches Ok(t) ==> forall|rule: Seq<char>|
            #[trigger] biscuit_pair_rows(t, rule) == token_pair_rows(token@, root_public_key@, rule),
        r matches Ok(t) ==> forall|rule: Seq<char>|
            #[trigger] biscuit_string_rows(t, rule) == token_string_rows(token@, root_public_key@, rule),
{
    let key = PublicKey::from_bytes(root_public_key).map_err(biscuit_auth::error::Token::Format)?;
    Biscuit::from(token, key)
}

/// `biscuit_auth::Authorizer::query_all`, on the authorizer of `token`
/// accepted under `root_public_key` (`Biscuit::from`, then
/// `Biscuit::authorizer`), for a rule with an integer and a string in its
/// head. Rows come back in no fixed order and the query may fail (a time
/// limit among others); rows that come back are the token's rows for the
/// rule, and only an accepted token has any.
#[verifier::external_body]
pub(crate) fn query_token_pairs(token: &[u8], root_public_key: &[u8; 32], rule: &str) -> (r: Result<
    Vec<(i64, String)>,
    biscuit_auth::error::Token,
>)
    ensures
        r is Ok ==> token_accepted(token@, root_public_key@),
        r matches Ok(v) ==> pair_texts(v@).to_set() == token_pair_rows(token@, root_public_key@, rule@),
{
    let key = PublicKey::from_bytes(root_public_key).map_err(biscuit_auth::error::Token::Format)?;
    let mut authorizer = Biscuit::from(token, key)?.authorizer()?;
    authorizer.query_all(rule)
}

/// `biscuit_auth::Authorizer::query_all`, on the authorizer of `token`
/// accepted under `root_public_key`, for a rule with one string in its
/// head (see [`query_token_pairs`]).
#[verifier::external_body]
pub(crate) fn query_token_strings(token: &[u8], root_public_key: &[u8; 32], rule: &str) -> (r: Result<
    Vec<String>,
    biscuit_auth::error::Token,
>)
    ensures
        r is Ok ==> token_accepted(token@, root_public_key@),
        r matches Ok(v) ==> texts(v@).to_set() == token_string_rows(token@, root_public_key@, rule@),
{
    let key = PublicKey::from_bytes(root_public_key).map_err(biscuit_auth::error::Token::Format)?;
    let mut authorizer = Biscuit::from(token, key)?.authorizer()?;
    let rows: Vec<(String,)> = authorizer.query_all(rule)?;
    Ok(rows.into_iter().map(|row| row.0).collect())
}

/// The message of a token error (its `Display` text).
#[verifier::external_body]
pub(crate) fn token_error_text(e: &biscuit_auth::error::Token) -> String {
    e.to_string()
}

/// A token error as a codec error carrying its message.
pub(crate) fn biscuit_error(e: biscuit_auth::error::Token) -> (r: CodecError)
    ensures
        r is Biscuit,
{
    CodecError::Biscuit(token_error_text(&e))
}

/// The text of the fact `pred(block_id, "value")`.
pub open spec fn fact_text(pred: Seq<char>, block_id: nat, value: Seq<char>) -> Seq<char> {
    pred + "("@ + decimal_text(block_id) + ", \""@ + value + "\")"@
}

/// The fact `pred(block_id, "value")`.
fn fact(pred: &str, block_id: u64, value: &Vec<char>) -> (r: String)
    ensures
        r@ == fact_text(pred@, block_id as nat, value@),
{
    let mut out: Vec<char> = Vec::new();
    push_str(&mut out, pred);
    push_str(&mut out, "(");
    push_decimal(&mut out, block_id);
    push_str(&mut out, ", \"");
    push_chars(&mut out, value);
    push_str(&mut out, "\")");
    assert(out@ =~= fact_text(pred@, block_id as nat, value@));
    string_of(&out)
}

/// The predicate name of the facts of `p`.
pub open spec fn pred_name(p: StatePredicate) -> Seq<char> {
    match p {
        StatePredicate::TaskId => "task_id"@,
        StatePredicate::ExpiresAt => "expires_at"@,
        StatePredicate::ReadRoot => "read_root"@,
        StatePredicate::WriteRoot => "write_root"@,
        StatePredicate::ExecBinary => "exec_binary"@,
        StatePredicate::Network => "network"@,
        StatePredicate::BindingTool => "binding_tool"@,
        StatePredicate::BindingArgHash => "binding_arg_hash"@,
        StatePredicate::BindingNonce => "binding_nonce"@,
    }
}

/// The predicate name of the facts of `p`.
fn predicate_name(p: StatePredicate) -> (r: &'static str)
    ensures
        r@ == pred_name(p),
{
    match p {
        StatePredicate::TaskId => "task_id",
        StatePredicate::ExpiresAt => "expires_at",
        StatePredicate::ReadRoot => "read_root",
        StatePredicate::WriteRoot => "write_root",
        StatePredicate::ExecBinary => "exec_binary",
        StatePredicate::Network => "network",
        StatePredicate::BindingTool => "binding_tool",
        StatePredicate::BindingArgHash => "binding_arg_hash",
        StatePredicate::BindingNonce => "binding_nonce",
    }
}

/// A fact of a token block as the token library holds it: a state fact
/// `pred(block, "value")`, or the task's fact `task_id("value")`.
pub enum FactView {
    Pair(StatePredicate, nat, Seq<char>),
    Task(Seq<char>),
}

/// The text that writes the fact `f`, its string escaped.
pub open spec fn fact_view_text(f: FactView) -> Seq<char> {
    match f {
        FactView::Pair(p, b, v) => fact_text(pred_name(p), b, escaped(v)),
        FactView::Task(v) => "task_id(\""@ + escaped(v) + "\")"@,
    }
}

/// Whether the text of `f` is one the token library reads back as `f`: a
/// state fact of a predicate other than the task's, with a block number
/// that fits in a signed 64-bit integer.
pub open spec fn fact_view_ok(f: FactView) -> bool {
    match f {
        FactView::Pair(p, b, _) => p != StatePredicate::TaskId && b <= i64::MAX,
        FactView::Task(_) => true,
    }
}

/// The texts of the facts `v`.
pub open spec fn fact_texts(v: Seq<FactView>) -> Seq<Seq<char>> {
    Seq::new(v.len(), |i: int| fact_view_text(v[i]))
}

/// One fact `pred(block_id, "v")` per value `v`.
pub open spec fn pair_views(p: StatePredicate, block_id: nat, values: Seq<Seq<char>>) -> Seq<FactView> {
    Seq::new(values.len(), |i: int| FactView::Pair(p, block_id, values[i]))
}

/// Appends the text of one fact of `p` in block `block_id` per value,
/// escaped.
fn push_pair_facts(facts: &mut Vec<String>, p: StatePredicate, block_id: u64, values: &Vec<String>)
    ensures
        texts(final(facts)@) == texts(old(facts)@) + fact_texts(pair_views(p, block_id as nat, texts(values@))),
{
    let pred = predicate_name(p);
    let mut i: usize = 0;
    while i < values.len()
        invariant
            i <= values@.len(),
            pred@ == pred_name(p),
            texts(facts@) == texts(old(facts)@) + fact_texts(
                pair_views(p, block_id as nat, texts(values@).subrange(0, i as int)),
            ),
        decreases values@.len() - i,
    {
        let mut value: Vec<char> = Vec::new();
        push_escaped(&mut value, values[i].as_str());
        assert(value@ =~= escaped(values@[i as int]@));
        let f = fact(pred, block_id, &value);
        let ghost before = facts@;
        facts.push(f);
        proof {
            assert(texts(facts@) =~= texts(before).push(f@));
            assert(fact_texts(pair_views(p, block_id as nat, texts(values@).subrange(0, i + 1)))
                =~= fact_texts(pair_views(p, block_id as nat, texts(values@).subrange(0, i as int))).push(
                f@,
            ));
        }
        i = i + 1;
    }
    assert(texts(values@).subrange(0, values@.len() as int) =~= texts(values@));
}

/// Appends the text of the fact `p(block_id, "value")`, the value escaped.
fn push_pair_fact(facts: &mut Vec<String>, p: StatePredicate, block_id: u64, value: &str)
    ensures
        texts(final(facts)@) == texts(old(facts)@).push(fact_view_text(FactView::Pair(p, block_id as nat, value@))),
{
    let mut escaped_value: Vec<char> = Vec::new();
    push_escaped(&mut escaped_value, value);
    assert(escaped_value@ =~= escaped(value@));
    let f = fact(predicate_name(p), block_id, &escaped_value);
    let ghost before = facts@;
    facts.push(f);
    assert(texts(facts@) =~= texts(before).push(f@));
}

/// The facts that record a request binding, if there is one.
pub open spec fn binding_fact_views(block_id: nat, binding: Option<BindingView>) -> Seq<FactView> {
    match binding {
        None => Seq::empty(),
        Some(b) => seq![
            FactView::Pair(StatePredicate::BindingTool, block_id, b.tool_name),
            FactView::Pair(StatePredicate::BindingArgHash, block_id, hex_text(b.argument_hash)),
            FactView::Pair(StatePredicate::BindingNonce, block_id, uuid_text(b.nonce)),
        ],
    }
}

/// The facts that record a capability's state in block `block_id`: its
/// expiry, its readable and writable roots, its binaries, its network
/// policy and its request binding.
pub open spec fn state_fact_views(
    block_id: nat,
    permissions: PermissionView,
    expires_at: Timestamp,
    binding: Option<BindingView>,
) -> Seq<FactView> {
    seq![FactView::Pair(StatePredicate::ExpiresAt, block_id, rfc3339_text(expires_at.secs, expires_at.nanos))]
        + pair_views(StatePredicate::ReadRoot, block_id, permissions.readable) + pair_views(
        StatePredicate::WriteRoot,
        block_id,
        permissions.writable,
    ) + pair_views(StatePredicate::ExecBinary, block_id, permissions.binaries) + seq![
        FactView::Pair(StatePredicate::Network, block_id, network_text(permissions.network)),
    ] + binding_fact_views(block_id, binding)
}

/// The texts of the facts that record a capability's state in block
/// `block_id` (see [`state_fact_views`]).
pub open spec fn state_fact_texts(
    block_id: nat,
    permissions: PermissionView,
    expires_at: Timestamp,
    binding: Option<BindingView>,
) -> Seq<Seq<char>> {
    fact_texts(state_fact_views(block_id, permissions, expires_at, binding))
}

/// The texts of a sequence of facts followed by more are the texts of each.
proof fn lemma_fact_texts_concat(a: Seq<FactView>, b: Seq<FactView>)
    ensures
        fact_texts(a + b) == fact_texts(a) + fact_texts(b),
{
    assert(fact_texts(a + b) =~= fact_texts(a) + fact_texts(b));
}

/// The view of an optional borrowed binding.
pub open spec fn ref_binding_view(b: Option<&RequestBinding>) -> Option<BindingView> {
    match b {
        Some(x) => Some(x@),
        None => None,
    }
}

/// The facts that record `permissions`, `expires_at` and `binding` in block
/// `block_id`; each expiry, nonce and task-id text that they hold reads back
/// as what it records where the year has four digits (see
/// [`format_rfc3339`] and [`uuid_to_text`]).
pub fn state_facts(
    block_id: u64,
    permissions: &PermissionSet,
    expires_at: Timestamp,
    binding: Option<&RequestBinding>,
) -> (r: Vec<String>)
    requires
        expires_at.wf(),
    ensures
        texts(r@) == state_fact_texts(block_id as nat, permissions@, expires_at, ref_binding_view(binding)),
        four_digit_year(expires_at) ==> rfc3339_parsed(rfc3339_text(expires_at.secs, expires_at.nanos)) == Some(
            (expires_at.secs, expires_at.nanos),
        ),
        ref_binding_view(binding) matches Some(b) ==> uuid_parsed(uuid_text(b.nonce)) == Some(b.nonce),
{
    let ghost views = state_fact_views(block_id as nat, permissions@, expires_at, ref_binding_view(binding));
    let mut facts: Vec<String> = Vec::new();
    let expiry_text = format_rfc3339(expires_at);
    push_pair_fact(&mut facts, StatePredicate::ExpiresAt, block_id, expiry_text.as_str());
    let ghost v0 = seq![FactView::Pair(StatePredicate::ExpiresAt, block_id as nat, rfc3339_text(expires_at.secs, expires_at.nanos))];
    assert(texts(facts@) =~= fact_texts(v0));
    push_pair_facts(&mut facts, StatePredicate::ReadRoot, block_id, permissions.readable_roots());
    push_pair_facts(&mut facts, StatePredicate::WriteRoot, block_id, permissions.writable_roots());
    push_pair_facts(&mut facts, StatePredicate::ExecBinary, block_id, permissions.exec_binaries());
    let network = network_to_str(permissions.network());
    assert(network@ == network_text(permissions@.network));
    push_pair_fact(&mut facts, StatePredicate::Network, block_id, network);
    let ghost v1 = v0 + pair_views(StatePredicate::ReadRoot, block_id as nat, permissions@.readable) + pair_views(
        StatePredicate::WriteRoot,
        block_id as nat,
        permissions@.writable,
    ) + pair_views(StatePredicate::ExecBinary, block_id as nat, permissions@.binaries) + seq![
        FactView::Pair(StatePredicate::Network, block_id as nat, network_text(permissions@.network)),
    ];
    proof {
        assert(fact_texts(v1) =~= fact_texts(v0) + fact_texts(pair_views(StatePredicate::ReadRoot, block_id as nat, permissions@.readable))
            + fact_texts(pair_views(StatePredicate::WriteRoot, block_id as nat, permissions@.writable))
            + fact_texts(pair_views(StatePredicate::ExecBinary, block_id as nat, permissions@.binaries))
            + seq![fact_view_text(FactView::Pair(StatePredicate::Network, block_id as nat, network_text(permissions@.network)))]);
    }
    assert(texts(facts@) =~= fact_texts(v1));
    match binding {
        Some(b) => {
            push_pair_fact(&mut facts, StatePredicate::BindingTool, block_id, b.tool_name.as_str());
            let mut hash: Vec<char> = Vec::new();
            push_hex(&mut hash, b.argument_hash.as_slice());
            assert(hash@ =~= hex_text(b.argument_hash@));
            let hash_text = string_of(&hash);
            push_pair_fact(&mut facts, StatePredicate::BindingArgHash, block_id, hash_text.as_str());
            let nonce_text = uuid_to_text(b.nonce);
            push_pair_fact(&mut facts, StatePredicate::BindingNonce, block_id, nonce_text.as_str());
            assert(fact_texts(views) =~= fact_texts(v1) + fact_texts(binding_fact_views(block_id as nat, ref_binding_view(binding))));
            assert(texts(facts@) =~= fact_texts(views));
        },
        None => {
            assert(views =~= v1);
        },
    }
    facts
}

/// The fact that names the task a token belongs to.
pub open spec fn task_fact_text(task_id: u128) -> Seq<char> {
    fact_view_text(FactView::Task(uuid_text(task_id)))
}

/// The fact `task_id("<uuid>")`; the id's text reads back as the id.
fn task_fact(task_id: u128) -> (r: String)
    ensures
        r@ == task_fact_text(task_id),
        uuid_parsed(uuid_text(task_id)) == Some(task_id),
{
    let mut out: Vec<char> = Vec::new();
    push_str(&mut out, "task_id(\"");
    let id = uuid_to_text(task_id);
    push_escaped(&mut out, id.as_str());
    push_str(&mut out, "\")");
    assert(out@ =~= task_fact_text(task_id));
    string_of(&out)
}

/// A sequence of facts followed by more holds what either holds.
proof fn lemma_contains_concat(a: Seq<FactView>, b: Seq<FactView>, x: FactView)
    ensures
        (a + b).contains(x) <==> a.contains(x) || b.contains(x),
{
    if (a + b).contains(x) {
        let i = choose|i: int| 0 <= i < (a + b).len() && (a + b)[i] == x;
        if i < a.len() {
            assert(a[i] == x);
        } else {
            assert(b[i - a.len()] == x);
        }
    }
    if a.contains(x) {
        let i = choose|i: int| 0 <= i < a.len() && a[i] == x;
        assert((a + b)[i] == x);
    }
    if b.contains(x) {
        let i = choose|i: int| 0 <= i < b.len() && b[i] == x;
        assert((a + b)[a.len() + i] == x);
    }
}

/// The facts of one predicate per value hold exactly those values.
proof fn lemma_pair_views_hold(q: StatePredicate, b: nat, values: Seq<Seq<char>>, x: FactView)
    ensures
        pair_views(q, b, values).contains(x) <==> (x matches FactView::Pair(p, n, v) && p == q && n == b
            && values.contains(v)),
{
    let vs = pair_views(q, b, values);
    if vs.contains(x) {
        let i = choose|i: int| 0 <= i < vs.len() && vs[i] == x;
        assert(values[i] == x->Pair_2);
    }
    match x {
        FactView::Pair(p, n, v) => {
            if p == q && n == b && values.contains(v) {
                let i = choose|i: int| 0 <= i < values.len() && values[i] == v;
                assert(vs[i] == x);
            }
        },
        FactView::Task(_) => {},
    }
}

/// The state facts of block `b` are facts of state predicates in block
/// `b`, and they hold a fact of a predicate exactly where the block's state
/// records its value.
proof fn lemma_state_views_hold(b: nat, st: BlockState, x: FactView)
    ensures
        state_fact_views(b, st.0, st.1, st.2).contains(x) <==> (x matches FactView::Pair(p, n, v) && p
            != StatePredicate::TaskId && n == b && records_value(st, p, v)),
{
    let s1 = seq![FactView::Pair(StatePredicate::ExpiresAt, b, rfc3339_text(st.1.secs, st.1.nanos))];
    let s2 = pair_views(StatePredicate::ReadRoot, b, st.0.readable);
    let s3 = pair_views(StatePredicate::WriteRoot, b, st.0.writable);
    let s4 = pair_views(StatePredicate::ExecBinary, b, st.0.binaries);
    let s5 = seq![FactView::Pair(StatePredicate::Network, b, network_text(st.0.network))];
    let s6 = binding_fact_views(b, st.2);
    lemma_contains_concat(s1 + s2 + s3 + s4 + s5, s6, x);
    lemma_contains_concat(s1 + s2 + s3 + s4, s5, x);
    lemma_contains_concat(s1 + s2 + s3, s4, x);
    lemma_contains_concat(s1 + s2, s3, x);
    lemma_contains_concat(s1, s2, x);
    lemma_pair_views_hold(StatePredicate::ReadRoot, b, st.0.readable, x);
    lemma_pair_views_hold(StatePredicate::WriteRoot, b, st.0.writable, x);
    lemma_pair_views_hold(StatePredicate::ExecBinary, b, st.0.binaries, x);
    assert(s1.contains(x) <==> x == s1[0]) by {
        if x == s1[0] {
            assert(s1[0] == x);
        }
    }
    assert(s5.contains(x) <==> x == s5[0]) by {
        if x == s5[0] {
            assert(s5[0] == x);
        }
    }
    match st.2 {
        None => {},
        Some(bd) => {
            assert(s6.contains(x) <==> (x == s6[0] || x == s6[1] || x == s6[2])) by {
                if x == s6[0] {
                    assert(s6[0] == x);
                }
                if x == s6[1] {
                    assert(s6[1] == x);
                }
                if x == s6[2] {
                    assert(s6[2] == x);
                }
            }
        },
    }
}

/// The rows of block `block_id` with the state `st`: its values for the
/// predicate `p`.
pub open spec fn block_rows(block_id: nat, st: BlockState, p: StatePredicate) -> Set<(i64, Seq<char>)> {
    Set::new(|r: (i64, Seq<char>)| r.0 == block_id && records_value(st, p, r.1))
}

/// The state facts of one block give exactly that block's rows, and no task.
proof fn lemma_state_views_rows(b: nat, st: BlockState, p: StatePredicate)
    requires
        p != StatePredicate::TaskId,
    ensures
        pair_rows_of(state_fact_views(b, st.0, st.1, st.2), p) == block_rows(b, st, p),
        task_rows_of(state_fact_views(b, st.0, st.1, st.2)) == Set::<Seq<char>>::empty(),
{
    let vs = state_fact_views(b, st.0, st.1, st.2);
    assert forall|r: (i64, Seq<char>)| #[trigger] pair_rows_of(vs, p).contains(r) == block_rows(b, st, p).contains(r) by {
        if r.0 >= 0 {
            lemma_state_views_hold(b, st, FactView::Pair(p, r.0 as nat, r.1));
        }
    }
    assert forall|v: Seq<char>| #[trigger] task_rows_of(vs).contains(v) == false by {
        lemma_state_views_hold(b, st, FactView::Task(v));
    }
    assert(pair_rows_of(vs, p) =~= block_rows(b, st, p));
    assert(task_rows_of(vs) =~= Set::<Seq<char>>::empty());
}

/// Every state fact of a block is one whose text the token library reads
/// back as that fact, where the block number fits.
proof fn lemma_state_views_ok(b: nat, st: BlockState, i: int)
    requires
        b <= i64::MAX,
        0 <= i < state_fact_views(b, st.0, st.1, st.2).len(),
    ensures
        fact_view_ok(state_fact_views(b, st.0, st.1, st.2)[i]),
{
    let vs = state_fact_views(b, st.0, st.1, st.2);
    assert(vs.contains(vs[i]));
    lemma_state_views_hold(b, st, vs[i]);
}

/// Whether the token `new_token` answers, under `key`, what `old_token`
/// answers together with the rows of block `block_id` with the state `st`.
pub open spec fn token_extends(new_token: Seq<u8>, old_token: Seq<u8>, key: Seq<u8>, block_id: nat, st: BlockState) -> bool {
    &&& token_string_rows(new_token, key, state_rule_text(StatePredicate::TaskId)) == token_string_rows(
        old_token,
        key,
        state_rule_text(StatePredicate::TaskId),
    )
    &&& forall|p: StatePredicate|
        p != StatePredicate::TaskId ==> #[trigger] token_pair_rows(new_token, key, state_rule_text(p))
            == token_pair_rows(old_token, key, state_rule_text(p)).union(block_rows(block_id, st, p))
}

/// Whether the texts of the task `task_id` and of each block's expiry and
/// binding nonce read back as what they record (expiries in a year of four
/// digits), and each binding's argument hash has 32 bytes.
pub open spec fn blocks_read_back(task_id: u128, blocks: Seq<BlockState>) -> bool {
    &&& uuid_parsed(uuid_text(task_id)) == Some(task_id)
    &&& forall|i: int|
        0 <= i < blocks.len() ==> block_reads_back(#[trigger] blocks[i])
}

/// Whether the expiry and binding nonce texts of a block read back as what
/// they record (the expiry in a year of four digits), and its binding's
/// argument hash has 32 bytes.
pub open spec fn block_reads_back(st: BlockState) -> bool {
    &&& four_digit_year(st.1) ==> rfc3339_parsed(rfc3339_text(st.1.secs, st.1.nanos)) == Some((st.1.secs, st.1.nanos))
    &&& st.2 matches Some(x) ==> x.argument_hash.len() == 32 && uuid_parsed(uuid_text(x.nonce)) == Some(x.nonce)
}

/// A token that answers what a token holding a task with blocks `blocks`
/// answers, extended by one more block with the state `st`, holds the task
/// with the blocks followed by `st`.
pub proof fn lemma_extended_token_holds(
    new_token: Seq<u8>,
    old_token: Seq<u8>,
    key: Seq<u8>,
    task_id: u128,
    blocks: Seq<BlockState>,
    st: BlockState,
)
    requires
        token_holds(old_token, key, task_id, blocks),
        token_extends(new_token, old_token, key, blocks.len(), st),
    ensures
        token_holds(new_token, key, task_id, blocks.push(st)),
{
    let nb = blocks.push(st);
    assert forall|p: StatePredicate| p != StatePredicate::TaskId implies #[trigger] token_pair_rows(
        new_token,
        key,
        state_rule_text(p),
    ) == written_rows(nb, p) by {
        assert(token_pair_rows(old_token, key, state_rule_text(p)) == written_rows(blocks, p));
        assert forall|r: (i64, Seq<char>)| #[trigger] written_rows(nb, p).contains(r) == written_rows(blocks, p).union(
            block_rows(blocks.len(), st, p),
        ).contains(r) by {
            if 0 <= r.0 < blocks.len() {
                assert(nb[r.0 as int] == blocks[r.0 as int]);
            }
        }
        assert(written_rows(nb, p) =~= written_rows(blocks, p).union(block_rows(blocks.len(), st, p)));
    }
}

/// A token whose first block, signed with `keypair`, holds the task fact
/// and the state facts of block 0 for `permissions` and `expires_at`. A
/// token that comes back is accepted under the key pair's public key and
/// answers each state rule with exactly the rows written (see
/// [`token_holds`]).
pub fn build_root_token(
    task_id: u128,
    permissions: &PermissionSet,
    expires_at: Timestamp,
    keypair: &KeyPair,
) -> (r: Result<Vec<u8>, CodecError>)
    requires
        expires_at.wf(),
    ensures
        r matches Err(e) ==> e is Biscuit,
        r matches Ok(t) ==> token_accepted(t@, keypair_public_key(*keypair)),
        r matches Ok(t) ==> token_holds(t@, keypair_public_key(*keypair), task_id, seq![(permissions@, expires_at, None::<BindingView>)]),
        blocks_read_back(task_id, seq![(permissions@, expires_at, None::<BindingView>)]),
{
    let ghost st: BlockState = (permissions@, expires_at, None::<BindingView>);
    let ghost blocks = seq![st];
    let facts = state_facts(0, permissions, expires_at, None);
    let task = task_fact(task_id);
    proof {
        assert(blocks[0] == st);
        assert(block_reads_back(st));
        assert forall|i: int| 0 <= i < blocks.len() implies block_reads_back(#[trigger] blocks[i]) by {
            assert(blocks[i] == st);
        }
        assert(blocks_read_back(task_id, blocks));
    }
    let mut builder = biscuit_builder();
    let ghost tf = FactView::Task(uuid_text(task_id));
    let ghost views = state_fact_views(0, permissions@, expires_at, None::<BindingView>);
    assert(task@ == fact_view_text(tf));
    match builder_add_fact(&mut builder, task.as_str()) {
        Ok(()) => {},
        Err(e) => return Err(biscuit_error(e)),
    }
    assert(builder_facts(builder) == Some(seq![tf]));
    assert(seq![tf] + views.subrange(0, 0) =~= seq![tf]);
    assert(texts(facts@).len() == facts@.len());
    assert(fact_texts(views).len() == views.len());
    let mut i: usize = 0;
    while i < facts.len()
        invariant
            i <= facts@.len(),
            facts@.len() == views.len(),
            blocks_read_back(task_id, seq![(permissions@, expires_at, None::<BindingView>)]),
            texts(facts@) == fact_texts(views),
            views == state_fact_views(0, permissions@, expires_at, None::<BindingView>),
            builder_facts(builder) == Some(seq![tf] + views.subrange(0, i as int)),
        decreases facts@.len() - i,
    {
        proof {
            assert(texts(facts@)[i as int] == facts@[i as int]@);
            lemma_state_views_ok(0, (permissions@, expires_at, None::<BindingView>), i as int);
        }
        assert(facts@[i as int]@ == fact_view_text(views[i as int]));
        match builder_add_fact(&mut builder, facts[i].as_str()) {
            Ok(()) => {},
            Err(e) => return Err(biscuit_error(e)),
        }
        assert(seq![tf] + views.subrange(0, i + 1) =~= (seq![tf] + views.subrange(0, i as int)).push(views[i as int]));
        i = i + 1;
    }
    let ghost all = seq![tf] + views;
    assert(views.subrange(0, facts@.len() as int) =~= views);
    let token = match builder_build(builder, keypair) {
        Ok(t) => t,
        Err(e) => return Err(biscuit_error(e)),
    };
    let bytes = match biscuit_to_vec(&token) {
        Ok(bytes) => bytes,
        Err(e) => return Err(biscuit_error(e)),
    };
    proof {
        let key = keypair_public_key(*keypair);
        assert(biscuit_answers(token, all));
        assert forall|v: Seq<char>| #[trigger] task_rows_of(all).contains(v) == set![uuid_text(task_id)].contains(v) by {
            lemma_contains_concat(seq![tf], views, FactView::Task(v));
            lemma_state_views_hold(0, st, FactView::Task(v));
            if v == uuid_text(task_id) {
                assert(seq![tf][0] == FactView::Task(v));
            }
        }
        assert(task_rows_of(all) =~= set![uuid_text(task_id)]);
        assert(token_string_rows(bytes@, key, state_rule_text(StatePredicate::TaskId)) == task_rows_of(all));
        assert forall|p: StatePredicate| p != StatePredicate::TaskId implies #[trigger] token_pair_rows(
            bytes@,
            key,
            state_rule_text(p),
        ) == written_rows(blocks, p) by {
            assert(biscuit_pair_rows(token, state_rule_text(p)) == pair_rows_of(all, p));
            assert forall|r: (i64, Seq<char>)| #[trigger] pair_rows_of(all, p).contains(r) == written_rows(blocks, p).contains(r) by {
                if r.0 >= 0 {
                    lemma_contains_concat(seq![tf], views, FactView::Pair(p, r.0 as nat, r.1));
                    lemma_state_views_hold(0, st, FactView::Pair(p, r.0 as nat, r.1));
                }
            }
            assert(pair_rows_of(all, p) =~= written_rows(blocks, p));
        }
    }
    Ok(bytes)
}

/// The token `token_bytes` (checked against `root_public_key`) with a block
/// appended that holds the state facts of block `block_id`. A token that
/// comes back is accepted under the same key and answers what the old one
/// answers together with the rows of the new block (see [`token_extends`]).
pub fn append_block(
    token_bytes: &[u8],
    root_public_key: &[u8; 32],
    block_id: u64,
    permissions: &PermissionSet,
    expires_at: Timestamp,
    binding: Option<&RequestBinding>,
) -> (r: Result<Vec<u8>, CodecError>)
    requires
        expires_at.wf(),
    ensures
        r matches Err(e) ==> e is Biscuit,
        r matches Ok(t) ==> token_accepted(t@, root_public_key@),
        r matches Ok(t) ==> (block_id <= i64::MAX ==> token_extends(
            t@,
            token_bytes@,
            root_public_key@,
            block_id as nat,
            (permissions@, expires_at, ref_binding_view(binding)),
        )),
        block_reads_back((permissions@, expires_at, ref_binding_view(binding))),
{
    let ghost st: BlockState = (permissions@, expires_at, ref_binding_view(binding));
    let facts = state_facts(block_id, permissions, expires_at, binding);
    proof {
        if let Some(x) = ref_binding_view(binding) {
            assert(x.argument_hash.len() == 32);
        }
        assert(block_reads_back(st));
    }
    let token = match accept_token(token_bytes, root_public_key) {
        Ok(t) => t,
        Err(e) => return Err(biscuit_error(e)),
    };
    let ghost views = state_fact_views(block_id as nat, permissions@, expires_at, ref_binding_view(binding));
    let mut block = block_builder();
    assert(views.subrange(0, 0) =~= Seq::<FactView>::empty());
    assert(texts(facts@).len() == facts@.len());
    assert(fact_texts(views).len() == views.len());
    let mut i: usize = 0;
    while i < facts.len()
        invariant
            i <= facts@.len(),
            facts@.len() == views.len(),
            texts(facts@) == fact_texts(views),
            views == state_fact_views(block_id as nat, permissions@, expires_at, ref_binding_view(binding)),
            block_reads_back((permissions@, expires_at, ref_binding_view(binding))),
            block_id <= i64::MAX ==> block_facts(block) == Some(views.subrange(0, i as int)),
        decreases facts@.len() - i,
    {
        proof {
            assert(texts(facts@)[i as int] == facts@[i as int]@);
            if block_id <= i64::MAX {
                lemma_state_views_ok(block_id as nat, (permissions@, expires_at, ref_binding_view(binding)), i as int);
            }
        }
        assert(facts@[i as int]@ == fact_view_text(views[i as int]));
        match block_add_fact(&mut block, facts[i].as_str()) {
            Ok(()) => {},
            Err(e) => return Err(biscuit_error(e)),
        }
        assert(views.subrange(0, i + 1) =~= views.subrange(0, i as int).push(views[i as int]));
        i = i + 1;
    }
    assert(views.subrange(0, facts@.len() as int) =~= views);
    let appended = match biscuit_append(&token, block) {
        Ok(t) => t,
        Err(e) => return Err(biscuit_error(e)),
    };
    let bytes = match biscuit_to_vec(&appended) {
        Ok(bytes) => bytes,
        Err(e) => return Err(biscuit_error(e)),
    };
    proof {
        if block_id <= i64::MAX {
            let key = root_public_key@;
            assert(biscuit_root_key(appended) == key);
            assert(biscuit_extends(appended, token, views));
            lemma_state_views_rows(block_id as nat, st, StatePredicate::ExpiresAt);
            assert(token_string_rows(bytes@, key, state_rule_text(StatePredicate::TaskId)) == biscuit_string_rows(appended, state_rule_text(StatePredicate::TaskId)));
            assert(biscuit_string_rows(token, state_rule_text(StatePredicate::TaskId)) == token_string_rows(token_bytes@, key, state_rule_text(StatePredicate::TaskId)));
            assert(biscuit_string_rows(token, state_rule_text(StatePredicate::TaskId)).union(Set::<Seq<char>>::empty())
                =~= biscuit_string_rows(token, state_rule_text(StatePredicate::TaskId)));
            assert forall|p: StatePredicate| p != StatePredicate::TaskId implies #[trigger] token_pair_rows(
                bytes@,
                key,
                state_rule_text(p),
            ) == token_pair_rows(token_bytes@, key, state_rule_text(p)).union(block_rows(block_id as nat, st, p)) by {
                lemma_state_views_rows(block_id as nat, st, p);
                assert(token_pair_rows(bytes@, key, state_rule_text(p)) == biscuit_pair_rows(appended, state_rule_text(p)));
                assert(biscuit_pair_rows(token, state_rule_text(p)) == token_pair_rows(token_bytes@, key, state_rule_text(p)));
            }
        }
    }
    Ok(bytes)
}

/// Checks the signature chain of `token_bytes` against `root_public_key`.
pub fn verify_signature(token_bytes: &[u8], root_public_key: &[u8; 32]) -> (r: Result<(), CodecError>)
    ensures
        r matches Err(e) ==> e is Biscuit,
        r is Ok <==> token_accepted(token_bytes@, root_public_key@),
{
    match accept_token(token_bytes, root_public_key) {
        Ok(_) => Ok(()),
        Err(e) => Err(biscuit_error(e)),
    }
}

/// The rows that a token's authorizer answers for each state fact: the task
/// ids, and (block, value) pairs for the others.
#[derive(Debug)]
pub struct StateRows {
    pub task: Vec<String>,
    pub expires: Vec<(i64, String)>,
    pub read: Vec<(i64, String)>,
    pub write: Vec<(i64, String)>,
    pub binaries: Vec<(i64, String)>,
    pub network: Vec<(i64, String)>,
    pub tool: Vec<(i64, String)>,
    pub hash: Vec<(i64, String)>,
    pub nonce: Vec<(i64, String)>,
}

/// The abstract content of the rows.
pub struct RowsView {
    pub task: Seq<Seq<char>>,
    pub expires: Seq<(i64, Seq<char>)>,
    pub read: Seq<(i64, Seq<char>)>,
    pub write: Seq<(i64, Seq<char>)>,
    pub binaries: Seq<(i64, Seq<char>)>,
    pub network: Seq<(i64, Seq<char>)>,
    pub tool: Seq<(i64, Seq<char>)>,
    pub hash: Seq<(i64, Seq<char>)>,
    pub nonce: Seq<(i64, Seq<char>)>,
}

/// The (block, text) content of (block, string) rows.
pub open spec fn pair_texts(v: Seq<(i64, String)>) -> Seq<(i64, Seq<char>)> {
    Seq::new(v.len(), |i: int| (v[i].0, v[i].1@))
}

impl View for StateRows {
    type V = RowsView;

    open spec fn view(&self) -> RowsView {
        RowsView {
            task: texts(self.task@),
            expires: pair_texts(self.expires@),
            read: pair_texts(self.read@),
            write: pair_texts(self.write@),
            binaries: pair_texts(self.binaries@),
            network: pair_texts(self.network@),
            tool: pair_texts(self.tool@),
            hash: pair_texts(self.hash@),
            nonce: pair_texts(self.nonce@),
        }
    }
}

/// The position of the row with the greatest block number, the last of
/// them where several share it.
pub open spec fn latest_index(rows: Seq<(i64, Seq<char>)>) -> int
    decreases rows.len(),
{
    if rows.len() <= 1 {
        0
    } else {
        let k = latest_index(rows.drop_last());
        if rows.last().0 >= rows[k].0 {
            rows.len() - 1
        } else {
            k
        }
    }
}

/// The values of the rows of block `id`, in order.
pub open spec fn values_in_block(rows: Seq<(i64, Seq<char>)>, id: i64) -> Seq<Seq<char>>
    decreases rows.len(),
{
    if rows.len() == 0 {
        Seq::empty()
    } else {
        let prev = values_in_block(rows.drop_last(), id);
        if rows.last().0 == id {
            prev.push(rows.last().1)
        } else {
            prev
        }
    }
}

/// A capability's state as decoded from its token.
#[derive(Debug)]
pub struct DecodedState {
    pub task_id: u128,
    pub permissions: PermissionSet,
    pub expires_at: Timestamp,
    pub request_binding: Option<RequestBinding>,
    pub block_id: i64,
}

/// The abstract content of a decoded state.
pub struct DecodedView {
    pub task_id: u128,
    pub permissions: PermissionView,
    pub expires_at: Timestamp,
    pub request_binding: Option<BindingView>,
    pub block_id: i64,
}

impl View for DecodedState {
    type V = DecodedView;

    open spec fn view(&self) -> DecodedView {
        DecodedView {
            task_id: self.task_id,
            permissions: self.permissions@,
            expires_at: self.expires_at,
            request_binding: crate::capability::binding_view(self.request_binding),
            block_id: self.block_id,
        }
    }
}

/// The request binding of the latest block: none without a tool fact;
/// otherwise the first tool, hash and nonce of the block, each of which must
/// be present and parse.
pub open spec fn decoded_binding(
    tools: Seq<Seq<char>>,
    hashes: Seq<Seq<char>>,
    nonces: Seq<Seq<char>>,
) -> Result<Option<BindingView>, CodecError> {
    if tools.len() == 0 {
        Ok(None)
    } else if hashes.len() == 0 {
        Err(CodecError::MissingFact(FactName::BindingArgHash))
    } else if hex32_decoded(hashes[0]) is None {
        Err(CodecError::InvalidValue(FactName::BindingArgHash))
    } else if nonces.len() == 0 {
        Err(CodecError::MissingFact(FactName::BindingNonce))
    } else if uuid_parsed(nonces[0]) is None {
        Err(CodecError::InvalidValue(FactName::BindingNonce))
    } else {
        Ok(
            Some(
                BindingView {
                    tool_name: tools[0],
                    argument_hash: hex32_decoded(hashes[0])->0,
                    nonce: uuid_parsed(nonces[0])->0,
                },
            ),
        )
    }
}

/// The state that the rows of a token record. The task id is the first one
/// found; the latest block is the one with the greatest number among the
/// expiry facts, and every other part of the state is read from that block
/// alone: all its roots and binaries, and the first of its network policies
/// and binding facts. A missing fact or one that does not parse is an error,
/// in the order task id, expiry, network, binding.
pub open spec fn decoded(rows: RowsView) -> Result<DecodedView, CodecError> {
    if rows.task.len() == 0 {
        Err(CodecError::MissingFact(FactName::TaskId))
    } else if uuid_parsed(rows.task[0]) is None {
        Err(CodecError::InvalidValue(FactName::TaskId))
    } else if rows.expires.len() == 0 {
        Err(CodecError::MissingFact(FactName::ExpiresAt))
    } else {
        let latest = rows.expires[latest_index(rows.expires)];
        let id = latest.0;
        let moment = rfc3339_parsed(latest.1)->0;
        let networks = values_in_block(rows.network, id);
        if rfc3339_parsed(latest.1) is None {
            Err(CodecError::InvalidValue(FactName::ExpiresAt))
        } else if networks.len() == 0 {
            Err(CodecError::MissingFact(FactName::Network))
        } else if network_parsed(networks[0]) is None {
            Err(CodecError::InvalidValue(FactName::Network))
        } else {
            match decoded_binding(
                values_in_block(rows.tool, id),
                values_in_block(rows.hash, id),
                values_in_block(rows.nonce, id),
            ) {
                Err(e) => Err(e),
                Ok(binding) => Ok(
                    DecodedView {
                        task_id: uuid_parsed(rows.task[0])->0,
                        permissions: PermissionView {
                            readable: path_dedup(values_in_block(rows.read, id)),
                            writable: path_dedup(values_in_block(rows.write, id)),
                            binaries: text_dedup(values_in_block(rows.binaries, id)),
                            network: network_parsed(networks[0])->0,
                        },
                        expires_at: Timestamp { secs: moment.0, nanos: moment.1 },
                        request_binding: binding,
                        block_id: id,
                    },
                ),
            }
        }
    }
}

/// The view of a decoding outcome.
pub open spec fn decoded_outcome(r: Result<DecodedState, CodecError>) -> Result<DecodedView, CodecError> {
    match r {
        Ok(s) => Ok(s@),
        Err(e) => Err(e),
    }
}

/// The position of the row with the greatest block number (the last of
/// equals).
fn latest_row(rows: &Vec<(i64, String)>) -> (r: usize)
    requires
        rows@.len() > 0,
    ensures
        r < rows@.len(),
        r == latest_index(pair_texts(rows@)),
{
    let mut best: usize = 0;
    let mut i: usize = 1;
    while i < rows.len()
        invariant
            1 <= i <= rows@.len(),
            best < i,
            best == latest_index(pair_texts(rows@).subrange(0, i as int)),
        decreases rows@.len() - i,
    {
        proof {
            let next = pair_texts(rows@).subrange(0, i + 1);
            assert(next.drop_last() =~= pair_texts(rows@).subrange(0, i as int));
            assert(next[best as int] == pair_texts(rows@)[best as int]);
        }
        if rows[i].0 >= rows[best].0 {
            best = i;
        }
        i = i + 1;
    }
    assert(pair_texts(rows@).subrange(0, rows@.len() as int) =~= pair_texts(rows@));
    best
}

/// The values of the rows of block `id`, in order.
fn values_in(rows: &Vec<(i64, String)>, id: i64) -> (r: Vec<String>)
    ensures
        texts(r@) == values_in_block(pair_texts(rows@), id),
{
    let mut out: Vec<String> = Vec::new();
    let mut i: usize = 0;
    while i < rows.len()
        invariant
            i <= rows@.len(),
            texts(out@) == values_in_block(pair_texts(rows@).subrange(0, i as int), id),
        decreases rows@.len() - i,
    {
        let ghost before = out@;
        proof {
            let next = pair_texts(rows@).subrange(0, i + 1);
            assert(next.drop_last() =~= pair_texts(rows@).subrange(0, i as int));
        }
        if rows[i].0 == id {
            out.push(rows[i].1.clone());
            assert(texts(out@) =~= texts(before).push(rows@[i as int].1@));
        }
        i = i + 1;
    }
    assert(pair_texts(rows@).subrange(0, rows@.len() as int) =~= pair_texts(rows@));
    out
}

/// The request binding recorded in block `id`, decoded.
fn decode_binding(rows: &StateRows, id: i64) -> (r: Result<Option<RequestBinding>, CodecError>)
    ensures
        match r {
            Ok(b) => decoded_binding(
                values_in_block(rows@.tool, id),
                values_in_block(rows@.hash, id),
                values_in_block(rows@.nonce, id),
            ) == Ok::<Option<BindingView>, CodecError>(crate::capability::binding_view(b)),
            Err(e) => decoded_binding(
                values_in_block(rows@.tool, id),
                values_in_block(rows@.hash, id),
                values_in_block(rows@.nonce, id),
            ) == Err::<Option<BindingView>, CodecError>(e),
        },
{
    let tools = values_in(&rows.tool, id);
    if tools.len() == 0 {
        return Ok(None);
    }
    let hashes = values_in(&rows.hash, id);
    if hashes.len() == 0 {
        return Err(CodecError::MissingFact(FactName::BindingArgHash));
    }
    let argument_hash = match decode_hex32(hashes[0].as_str()) {
        Some(h) => h,
        None => return Err(CodecError::InvalidValue(FactName::BindingArgHash)),
    };
    let nonces = values_in(&rows.nonce, id);
    if nonces.len() == 0 {
        return Err(CodecError::MissingFact(FactName::BindingNonce));
    }
    let nonce = match parse_uuid(nonces[0].as_str()) {
        Some(n) => n,
        None => return Err(CodecError::InvalidValue(FactName::BindingNonce)),
    };
    assert(texts(tools@)[0] == tools@[0]@);
    Ok(Some(RequestBinding { tool_name: tools[0].clone(), argument_hash, nonce }))
}

/// The state that the rows of a token record (see [`decoded`]).
pub fn decode_rows(rows: &StateRows) -> (r: Result<DecodedState, CodecError>)
    ensures
        decoded_outcome(r) == decoded(rows@),
{
    if rows.task.len() == 0 {
        return Err(CodecError::MissingFact(FactName::TaskId));
    }
    let task_id = match parse_uuid(rows.task[0].as_str()) {
        Some(t) => t,
        None => return Err(CodecError::InvalidValue(FactName::TaskId)),
    };
    if rows.expires.len() == 0 {
        return Err(CodecError::MissingFact(FactName::ExpiresAt));
    }
    let k = latest_row(&rows.expires);
    let id = rows.expires[k].0;
    let expires_at = match parse_rfc3339(rows.expires[k].1.as_str()) {
        Some(t) => t,
        None => return Err(CodecError::InvalidValue(FactName::ExpiresAt)),
    };
    let readable = values_in(&rows.read, id);
    let writable = values_in(&rows.write, id);
    let binaries = values_in(&rows.binaries, id);
    let networks = values_in(&rows.network, id);
    if networks.len() == 0 {
        return Err(CodecError::MissingFact(FactName::Network));
    }
    let network = match parse_network(networks[0].as_str()) {
        Ok(n) => n,
        Err(e) => return Err(e),
    };
    let request_binding = match decode_binding(rows, id) {
        Ok(b) => b,
        Err(e) => return Err(e),
    };
    let permissions = PermissionSet::from_parts(readable, writable, binaries, network);
    Ok(DecodedState { task_id, permissions, expires_at, request_binding, block_id: id })
}

/// The predicates whose facts record a capability's state.
#[derive(Debug, Clone, Copy, PartialEq, Eq, Structural)]
pub enum StatePredicate {
    TaskId,
    ExpiresAt,
    ReadRoot,
    WriteRoot,
    ExecBinary,
    Network,
    BindingTool,
    BindingArgHash,
    BindingNonce,
}

/// The rule that collects the facts of a predicate: the task's id alone,
/// and for every other predicate the block number with the value.
pub open spec fn state_rule_text(p: StatePredicate) -> Seq<char> {
    match p {
        StatePredicate::TaskId => "data($id) <- task_id($id)"@,
        StatePredicate::ExpiresAt => "data($id, $val) <- expires_at($id, $val)"@,
        StatePredicate::ReadRoot => "data($id, $val) <- read_root($id, $val)"@,
        StatePredicate::WriteRoot => "data($id, $val) <- write_root($id, $val)"@,
        StatePredicate::ExecBinary => "data($id, $val) <- exec_binary($id, $val)"@,
        StatePredicate::Network => "data($id, $val) <- network($id, $val)"@,
        StatePredicate::BindingTool => "data($id, $val) <- binding_tool($id, $val)"@,
        StatePredicate::BindingArgHash => "data($id, $val) <- binding_arg_hash($id, $val)"@,
        StatePredicate::BindingNonce => "data($id, $val) <- binding_nonce($id, $val)"@,
    }
}

/// The rule that collects the facts of `p` (see [`state_rule_text`]).
pub fn state_rule(p: StatePredicate) -> (r: &'static str)
    ensures
        r@ == state_rule_text(p),
{
    match p {
        StatePredicate::TaskId => "data($id) <- task_id($id)",
        StatePredicate::ExpiresAt => "data($id, $val) <- expires_at($id, $val)",
        StatePredicate::ReadRoot => "data($id, $val) <- read_root($id, $val)",
        StatePredicate::WriteRoot => "data($id, $val) <- write_root($id, $val)",
        StatePredicate::ExecBinary => "data($id, $val) <- exec_binary($id, $val)",
        StatePredicate::Network => "data($id, $val) <- network($id, $val)",
        StatePredicate::BindingTool => "data($id, $val) <- binding_tool($id, $val)",
        StatePredicate::BindingArgHash => "data($id, $val) <- binding_arg_hash($id, $val)",
        StatePredicate::BindingNonce => "data($id, $val) <- binding_nonce($id, $val)",
    }
}

/// The (block, value) rows of the facts of `p` that the token `token`,
/// accepted under `root_public_key`, holds (see [`token_pair_rows`]).
fn query_state_rows(token: &[u8], root_public_key: &[u8; 32], p: StatePredicate) -> (r: Result<
    Vec<(i64, String)>,
    CodecError,
>)
    ensures
        r matches Err(e) ==> e is Biscuit,
        r matches Ok(v) ==> pair_texts(v@).to_set() == token_pair_rows(token@, root_public_key@, state_rule_text(p)),
{
    match query_token_pairs(token, root_public_key, state_rule(p)) {
        Ok(v) => Ok(v),
        Err(e) => Err(biscuit_error(e)),
    }
}

/// The block of the latest expiry among `rows`.
pub open spec fn latest_block(rows: RowsView) -> i64 {
    rows.expires[latest_index(rows.expires)].0
}

/// Whether `rows` hold, each as a set, the rows that the token `token`
/// accepted under `key` answers for the rule of its predicate (see
/// [`state_rule_text`]); the binding's hash and nonce rows are asked for,
/// and so held, only where the latest block names a bound tool.
pub open spec fn rows_of_token(rows: RowsView, token: Seq<u8>, key: Seq<u8>) -> bool {
    &&& rows.task.to_set() == token_string_rows(token, key, state_rule_text(StatePredicate::TaskId))
    &&& rows.expires.to_set() == token_pair_rows(token, key, state_rule_text(StatePredicate::ExpiresAt))
    &&& rows.read.to_set() == token_pair_rows(token, key, state_rule_text(StatePredicate::ReadRoot))
    &&& rows.write.to_set() == token_pair_rows(token, key, state_rule_text(StatePredicate::WriteRoot))
    &&& rows.binaries.to_set() == token_pair_rows(token, key, state_rule_text(StatePredicate::ExecBinary))
    &&& rows.network.to_set() == token_pair_rows(token, key, state_rule_text(StatePredicate::Network))
    &&& rows.tool.to_set() == token_pair_rows(token, key, state_rule_text(StatePredicate::BindingTool))
    &&& rows.expires.len() > 0 && values_in_block(rows.tool, latest_block(rows)).len() > 0 ==> {
        &&& rows.hash.to_set() == token_pair_rows(token, key, state_rule_text(StatePredicate::BindingArgHash))
        &&& rows.nonce.to_set() == token_pair_rows(token, key, state_rule_text(StatePredicate::BindingNonce))
    }
}

/// Whether decoding `rows` gets past the task: a task id is found and parses.
pub open spec fn task_read(rows: RowsView) -> bool {
    rows.task.len() > 0 && uuid_parsed(rows.task[0]) is Some
}

/// Whether decoding `rows` gets past the expiry: one is found and the
/// latest parses.
pub open spec fn expiry_read(rows: RowsView) -> bool {
    rows.expires.len() > 0 && rfc3339_parsed(rows.expires[latest_index(rows.expires)].1) is Some
}

/// Whether decoding `rows` gets past the network policy of the latest block.
pub open spec fn network_read(rows: RowsView) -> bool {
    let networks = values_in_block(rows.network, latest_block(rows));
    networks.len() > 0 && network_parsed(networks[0]) is Some
}

/// Whether the latest block of `rows` names a bound tool.
pub open spec fn tool_named(rows: RowsView) -> bool {
    values_in_block(rows.tool, latest_block(rows)).len() > 0
}

/// Whether decoding `rows` gets past the binding's argument hash.
pub open spec fn hash_read(rows: RowsView) -> bool {
    let hashes = values_in_block(rows.hash, latest_block(rows));
    hashes.len() > 0 && hex32_decoded(hashes[0]) is Some
}

/// Whether `rows` hold, each as a set, the token's answers for every rule
/// that decoding them asks about before it stops: the task, then (past the
/// task) the expiries, then (past the expiry) the roots, binaries and network
/// policies, then (past the network policy) the bound tools, then (where the
/// latest block names one) the argument hashes, then (past the hash) the
/// nonces. Rules asked about after decoding stops hold nothing.
pub open spec fn rows_answered(rows: RowsView, token: Seq<u8>, key: Seq<u8>) -> bool {
    &&& rows.task.to_set() == token_string_rows(token, key, state_rule_text(StatePredicate::TaskId))
    &&& task_read(rows) ==> rows.expires.to_set() == token_pair_rows(
        token,
        key,
        state_rule_text(StatePredicate::ExpiresAt),
    )
    &&& task_read(rows) && expiry_read(rows) ==> {
        &&& rows.read.to_set() == token_pair_rows(token, key, state_rule_text(StatePredicate::ReadRoot))
        &&& rows.write.to_set() == token_pair_rows(token, key, state_rule_text(StatePredicate::WriteRoot))
        &&& rows.binaries.to_set() == token_pair_rows(token, key, state_rule_text(StatePredicate::ExecBinary))
        &&& rows.network.to_set() == token_pair_rows(token, key, state_rule_text(StatePredicate::Network))
    }
    &&& task_read(rows) && expiry_read(rows) && network_read(rows) ==> rows.tool.to_set() == token_pair_rows(
        token,
        key,
        state_rule_text(StatePredicate::BindingTool),
    )
    &&& task_read(rows) && expiry_read(rows) && network_read(rows) && tool_named(rows) ==> rows.hash.to_set()
        == token_pair_rows(token, key, state_rule_text(StatePredicate::BindingArgHash))
    &&& task_read(rows) && expiry_read(rows) && network_read(rows) && tool_named(rows) && hash_read(rows)
        ==> rows.nonce.to_set() == token_pair_rows(token, key, state_rule_text(StatePredicate::BindingNonce))
}

/// Whether `s` is the state that the token `token` records under `key`: the
/// token is accepted, and `s` is the decoding (see [`decoded`]) of rows that
/// hold the token's answers for each predicate, in the order they came.
pub open spec fn token_records(token: Seq<u8>, key: Seq<u8>, s: DecodedView) -> bool {
    &&& token_accepted(token, key)
    &&& exists|rows: RowsView| #[trigger] decoded(rows) == Ok::<DecodedView, CodecError>(s) && rows_of_token(rows, token, key)
}

/// The decoding of `rows` (see [`decoded`]).
fn decoded_from(rows: &StateRows) -> (r: Result<DecodedState, CodecError>)
    ensures
        decoded(rows@) == decoded_outcome(r),
        r matches Ok(s) ==> exists|v: RowsView| #[trigger] decoded(v) == Ok::<DecodedView, CodecError>(s@),
        exists|v: RowsView| #[trigger] decoded(v) == decoded_outcome(r),
{
    let r = decode_rows(rows);
    assert(decoded(rows@) == decoded_outcome(r));
    r
}

/// The state one block of a token records: its permissions, its expiry and
/// its request binding.
pub type BlockState = (PermissionView, Timestamp, Option<BindingView>);

/// Whether a block with state `b` holds a fact of `pred` with the value `v`
/// (the task's id aside, which is not recorded per block).
pub open spec fn records_value(b: BlockState, pred: StatePredicate, v: Seq<char>) -> bool {
    match pred {
        StatePredicate::TaskId => false,
        StatePredicate::ExpiresAt => v == rfc3339_text(b.1.secs, b.1.nanos),
        StatePredicate::ReadRoot => b.0.readable.contains(v),
        StatePredicate::WriteRoot => b.0.writable.contains(v),
        StatePredicate::ExecBinary => b.0.binaries.contains(v),
        StatePredicate::Network => v == network_text(b.0.network),
        StatePredicate::BindingTool => b.2 matches Some(x) && v == x.tool_name,
        StatePredicate::BindingArgHash => b.2 matches Some(x) && v == hex_text(x.argument_hash),
        StatePredicate::BindingNonce => b.2 matches Some(x) && v == uuid_text(x.nonce),
    }
}

/// The (block, value) rows of `pred` that blocks numbered from 0 with the
/// states `blocks` record (see [`state_fact_texts`] for the facts written).
pub open spec fn written_rows(blocks: Seq<BlockState>, pred: StatePredicate) -> Set<(i64, Seq<char>)> {
    Set::new(|r: (i64, Seq<char>)| 0 <= r.0 < blocks.len() && records_value(blocks[r.0 as int], pred, r.1))
}

/// Whether the token `token`, accepted under `key`, answers for each
/// predicate exactly the rows that a task `task_id` with blocks numbered
/// from 0 with the states `blocks` was written with.
pub open spec fn token_holds(token: Seq<u8>, key: Seq<u8>, task_id: u128, blocks: Seq<BlockState>) -> bool {
    &&& token_string_rows(token, key, state_rule_text(StatePredicate::TaskId)) == set![uuid_text(task_id)]
    &&& forall|p: StatePredicate|
        p != StatePredicate::TaskId ==> #[trigger] token_pair_rows(token, key, state_rule_text(p)) == written_rows(
            blocks,
            p,
        )
}

/// A value of the rows of block `id` is a row of that block.
proof fn lemma_block_values(rows: Seq<(i64, Seq<char>)>, id: i64, v: Seq<char>)
    ensures
        values_in_block(rows, id).contains(v) <==> rows.contains((id, v)),
    decreases rows.len(),
{
    if rows.len() > 0 {
        let init = rows.drop_last();
        lemma_block_values(init, id, v);
        let prev = values_in_block(init, id);
        assert(rows =~= init.push(rows.last()));
        if rows.contains((id, v)) {
            let i = choose|i: int| 0 <= i < rows.len() && rows[i] == (id, v);
            if i < rows.len() - 1 {
                assert(init[i] == rows[i]);
                assert(init.contains((id, v)));
                if rows.last().0 == id {
                    let j = choose|j: int| 0 <= j < prev.len() && prev[j] == v;
                    assert(prev.push(rows.last().1)[j] == v);
                }
            } else {
                assert(prev.push(rows.last().1)[prev.len() as int] == v);
            }
        }
        if values_in_block(rows, id).contains(v) {
            let vs = values_in_block(rows, id);
            let j = choose|j: int| 0 <= j < vs.len() && vs[j] == v;
            if rows.last().0 == id && j == prev.len() {
                assert(rows[rows.len() - 1] == (id, v));
            } else {
                assert(prev[j] == v);
                let i = choose|i: int| 0 <= i < init.len() && init[i] == (id, v);
                assert(rows[i] == (id, v));
            }
        }
    }
}

/// The latest row has the greatest block number.
proof fn lemma_latest_is_greatest(rows: Seq<(i64, Seq<char>)>)
    requires
        rows.len() > 0,
    ensures
        0 <= latest_index(rows) < rows.len(),
        forall|m: int| 0 <= m < rows.len() ==> (#[trigger] rows[m]).0 <= rows[latest_index(rows)].0,
    decreases rows.len(),
{
    if rows.len() > 1 {
        let init = rows.drop_last();
        lemma_latest_is_greatest(init);
        assert forall|m: int| 0 <= m < rows.len() implies (#[trigger] rows[m]).0 <= rows[latest_index(rows)].0 by {
            if m < rows.len() - 1 {
                assert(rows[m] == init[m]);
            }
        }
    }
}

/// Rows holding, as a set, exactly the written rows of one predicate of a
/// block: the values of that block are exactly the values it records.
proof fn lemma_block_members(rows: Seq<(i64, Seq<char>)>, blocks: Seq<BlockState>, pred: StatePredicate, k: int, v: Seq<char>)
    requires
        rows.to_set() == written_rows(blocks, pred),
        0 <= k < blocks.len() <= i64::MAX,
    ensures
        values_in_block(rows, k as i64).contains(v) <==> records_value(blocks[k], pred, v),
{
    lemma_block_values(rows, k as i64, v);
    assert(rows.to_set().contains((k as i64, v)) == rows.contains((k as i64, v)));
    assert(written_rows(blocks, pred).contains((k as i64, v)) == records_value(blocks[k], pred, v));
}

/// Values that are exactly the roots of a block, with repeated paths left
/// out, name the same paths as the block's roots.
proof fn lemma_dedup_names_block(values: Seq<Seq<char>>, roots: Seq<Seq<char>>)
    requires
        forall|v: Seq<char>| #[trigger] values.contains(v) == roots.contains(v),
    ensures
        same_path_sets(path_dedup(values), roots),
{
    lemma_path_dedup(values);
    let d = path_dedup(values);
    crate::path::lemma_same_path_reflexive_all();
    assert forall|i: int| 0 <= i < d.len() implies names_member(#[trigger] d[i], roots) by {
        assert(values.contains(d[i]));
        assert(roots.contains(d[i]));
        let j = choose|j: int| 0 <= j < roots.len() && roots[j] == d[i];
        assert(crate::path::same_path(roots[j], d[i]));
    }
    assert forall|j: int| 0 <= j < roots.len() implies names_member(#[trigger] roots[j], d) by {
        assert(roots.contains(roots[j]));
        assert(values.contains(roots[j]));
        let k = choose|k: int| 0 <= k < values.len() && values[k] == roots[j];
        assert(names_member(values[k], d));
    }
}

/// The state a token records is the one its latest block was written
/// with: where the token answers for each predicate exactly the rows that a
/// task with blocks `0..=k` was written with, any rows it answers decode to
/// the task, block `k`, and block `k`'s expiry, binding, network policy and
/// (as sets) roots and binaries. The texts of the task's id, the latest
/// expiry and the latest binding's nonce read back as what was written
/// (as [`uuid_to_text`] and [`format_rfc3339`] state for the texts they
/// write), and a binding's argument hash has 32 bytes.
pub proof fn lemma_token_decodes_latest_block(
    token: Seq<u8>,
    key: Seq<u8>,
    task_id: u128,
    blocks: Seq<BlockState>,
    rows: RowsView,
)
    requires
        0 < blocks.len() <= i64::MAX,
        token_holds(token, key, task_id, blocks),
        rows_of_token(rows, token, key),
        uuid_parsed(uuid_text(task_id)) == Some(task_id),
        rfc3339_parsed(rfc3339_text(blocks.last().1.secs, blocks.last().1.nanos)) == Some(
            (blocks.last().1.secs, blocks.last().1.nanos),
        ),
        blocks.last().2 matches Some(x) ==> x.argument_hash.len() == 32 && uuid_parsed(uuid_text(x.nonce))
            == Some(x.nonce),
    ensures
        decoded(rows) matches Ok(s) && {
            &&& s.task_id == task_id
            &&& s.block_id == blocks.len() - 1
            &&& s.expires_at == blocks.last().1
            &&& s.request_binding == blocks.last().2
            &&& s.permissions.network == blocks.last().0.network
            &&& same_path_sets(s.permissions.readable, blocks.last().0.readable)
            &&& same_path_sets(s.permissions.writable, blocks.last().0.writable)
            &&& s.permissions.binaries.to_set() == blocks.last().0.binaries.to_set()
        },
{
    let k = blocks.len() - 1;
    let id = k as i64;
    let last = blocks.last();
    assert(blocks[k] == last);
    // The task.
    let tid = uuid_text(task_id);
    assert(rows.task.to_set() == set![tid]);
    assert(set![tid].contains(tid));
    assert(rows.task.contains(tid));
    assert(rows.task.len() > 0);
    assert(rows.task.to_set().contains(rows.task[0]));
    assert(rows.task[0] == tid);
    // The latest expiry.
    let p_exp = StatePredicate::ExpiresAt;
    assert(token_pair_rows(token, key, state_rule_text(p_exp)) == written_rows(blocks, p_exp));
    let e = rows.expires;
    let ek = (id, rfc3339_text(last.1.secs, last.1.nanos));
    assert(written_rows(blocks, p_exp).contains(ek));
    assert(e.to_set().contains(ek));
    assert(e.len() > 0);
    lemma_latest_is_greatest(e);
    let li = latest_index(e);
    let mi = choose|m: int| 0 <= m < e.len() && e[m] == ek;
    assert(e[mi].0 <= e[li].0);
    assert(e.to_set().contains(e[li]));
    assert(written_rows(blocks, p_exp).contains(e[li]));
    assert(e[li].0 == id);
    assert(e[li].1 == rfc3339_text(last.1.secs, last.1.nanos));
    assert(latest_block(rows) == id);
    // The network policy.
    let p_net = StatePredicate::Network;
    assert(token_pair_rows(token, key, state_rule_text(p_net)) == written_rows(blocks, p_net));
    let nt = network_text(last.0.network);
    lemma_block_members(rows.network, blocks, p_net, k, nt);
    let networks = values_in_block(rows.network, id);
    assert(networks.contains(nt));
    assert(networks.len() > 0);
    assert(networks.contains(networks[0]));
    lemma_block_members(rows.network, blocks, p_net, k, networks[0]);
    assert(networks[0] == nt);
    crate::codec::lemma_network_round_trip(last.0.network);
    // The binding.
    let p_tool = StatePredicate::BindingTool;
    let p_hash = StatePredicate::BindingArgHash;
    let p_nonce = StatePredicate::BindingNonce;
    assert(token_pair_rows(token, key, state_rule_text(p_tool)) == written_rows(blocks, p_tool));
    let tools = values_in_block(rows.tool, id);
    match last.2 {
        None => {
            if tools.len() > 0 {
                assert(tools.contains(tools[0]));
                lemma_block_members(rows.tool, blocks, p_tool, k, tools[0]);
            }
            assert(tools.len() == 0);
        },
        Some(x) => {
            lemma_block_members(rows.tool, blocks, p_tool, k, x.tool_name);
            assert(tools.contains(x.tool_name));
            assert(tools.contains(tools[0]));
            lemma_block_members(rows.tool, blocks, p_tool, k, tools[0]);
            assert(tools[0] == x.tool_name);
            assert(token_pair_rows(token, key, state_rule_text(p_hash)) == written_rows(blocks, p_hash));
            assert(token_pair_rows(token, key, state_rule_text(p_nonce)) == written_rows(blocks, p_nonce));
            let hashes = values_in_block(rows.hash, id);
            let nonces = values_in_block(rows.nonce, id);
            lemma_block_members(rows.hash, blocks, p_hash, k, hex_text(x.argument_hash));
            assert(hashes.contains(hashes[0]));
            lemma_block_members(rows.hash, blocks, p_hash, k, hashes[0]);
            lemma_block_members(rows.nonce, blocks, p_nonce, k, uuid_text(x.nonce));
            assert(nonces.contains(nonces[0]));
            lemma_block_members(rows.nonce, blocks, p_nonce, k, nonces[0]);
            crate::codec::lemma_hex32_round_trip(x.argument_hash);
        },
    }
    // The roots and binaries.
    let p_read = StatePredicate::ReadRoot;
    let p_write = StatePredicate::WriteRoot;
    let p_bin = StatePredicate::ExecBinary;
    assert(token_pair_rows(token, key, state_rule_text(p_read)) == written_rows(blocks, p_read));
    assert(token_pair_rows(token, key, state_rule_text(p_write)) == written_rows(blocks, p_write));
    assert(token_pair_rows(token, key, state_rule_text(p_bin)) == written_rows(blocks, p_bin));
    assert forall|v: Seq<char>| #[trigger] values_in_block(rows.read, id).contains(v) == last.0.readable.contains(v) by {
        lemma_block_members(rows.read, blocks, p_read, k, v);
    }
    assert forall|v: Seq<char>| #[trigger] values_in_block(rows.write, id).contains(v) == last.0.writable.contains(v) by {
        lemma_block_members(rows.write, blocks, p_write, k, v);
    }
    assert forall|v: Seq<char>| #[trigger] values_in_block(rows.binaries, id).contains(v) == last.0.binaries.contains(v) by {
        lemma_block_members(rows.binaries, blocks, p_bin, k, v);
    }
    lemma_dedup_names_block(values_in_block(rows.read, id), last.0.readable);
    lemma_dedup_names_block(values_in_block(rows.write, id), last.0.writable);
    lemma_text_dedup(values_in_block(rows.binaries, id));
    assert(values_in_block(rows.binaries, id).to_set() =~= last.0.binaries.to_set());
}

/// A state that a token records (see [`token_records`], which
/// [`decode_state`] promises of the state it answers) is the state of the
/// token's latest block, under the conditions of
/// [`lemma_token_decodes_latest_block`].
pub proof fn lemma_recorded_state_is_latest_block(
    token: Seq<u8>,
    key: Seq<u8>,
    task_id: u128,
    blocks: Seq<BlockState>,
    s: DecodedView,
)
    requires
        0 < blocks.len() <= i64::MAX,
        token_holds(token, key, task_id, blocks),
        token_records(token, key, s),
        uuid_parsed(uuid_text(task_id)) == Some(task_id),
        rfc3339_parsed(rfc3339_text(blocks.last().1.secs, blocks.last().1.nanos)) == Some(
            (blocks.last().1.secs, blocks.last().1.nanos),
        ),
        blocks.last().2 matches Some(x) ==> x.argument_hash.len() == 32 && uuid_parsed(uuid_text(x.nonce))
            == Some(x.nonce),
    ensures
        s.task_id == task_id,
        s.block_id == blocks.len() - 1,
        s.expires_at == blocks.last().1,
        s.request_binding == blocks.last().2,
        s.permissions.network == blocks.last().0.network,
        same_path_sets(s.permissions.readable, blocks.last().0.readable),
        same_path_sets(s.permissions.writable, blocks.last().0.writable),
        s.permissions.binaries.to_set() == blocks.last().0.binaries.to_set(),
{
    let rows = choose|rows: RowsView| #[trigger] decoded(rows) == Ok::<DecodedView, CodecError>(s) && rows_of_token(rows, token, key);
    lemma_token_decodes_latest_block(token, key, task_id, blocks, rows);
}

/// The decoding of `rows`, which hold the token's answers for what decoding
/// them asks about (see [`rows_answered`]).
fn decoded_answered(rows: &StateRows, Ghost(token): Ghost<Seq<u8>>, Ghost(key): Ghost<Seq<u8>>) -> (r: Result<
    DecodedState,
    CodecError,
>)
    requires
        rows_answered(rows@, token, key),
    ensures
        decoded(rows@) == decoded_outcome(r),
        r matches Ok(s) ==> exists|v: RowsView| #[trigger] decoded(v) == Ok::<DecodedView, CodecError>(s@),
        exists|v: RowsView| #[trigger] decoded(v) == decoded_outcome(r) && rows_answered(v, token, key),
{
    decoded_from(rows)
}

/// The state recorded in the latest block of `token_bytes`, whose signature
/// chain is checked against `root_public_key`. The facts are collected
/// predicate by predicate (see [`state_rule`]) in the order in which the
/// decoding reads them, and no further once it has failed: the task, then
/// the expiries, then the roots, binaries and network policies, and the
/// binding's hash and nonce only where the latest block names a bound tool.
/// A token that is not accepted gives the token library's error; a state
/// that comes back is the one the token records (see [`token_records`]);
/// any other result is the decoding of the rows collected (see
/// [`decoded`]), or the token library's error.
pub fn decode_state(token_bytes: &[u8], root_public_key: &[u8; 32]) -> (r: Result<DecodedState, CodecError>)
    ensures
        !token_accepted(token_bytes@, root_public_key@) ==> r matches Err(CodecError::Biscuit(_)),
        r matches Ok(s) ==> token_records(token_bytes@, root_public_key@, s@),
        r matches Ok(s) ==> exists|rows: RowsView| #[trigger] decoded(rows) == Ok::<DecodedView, CodecError>(s@),
        !(r matches Err(CodecError::Biscuit(_))) ==> exists|rows: RowsView| #[trigger] decoded(rows)
            == decoded_outcome(r) && rows_answered(rows, token_bytes@, root_public_key@),
{
    match accept_token(token_bytes, root_public_key) {
        Ok(_) => {},
        Err(e) => return Err(biscuit_error(e)),
    }
    let task = match query_token_strings(token_bytes, root_public_key, state_rule(StatePredicate::TaskId)) {
        Ok(v) => v,
        Err(e) => return Err(biscuit_error(e)),
    };
    let mut rows = StateRows {
        task,
        expires: Vec::new(),
        read: Vec::new(),
        write: Vec::new(),
        binaries: Vec::new(),
        network: Vec::new(),
        tool: Vec::new(),
        hash: Vec::new(),
        nonce: Vec::new(),
    };
    if rows.task.len() == 0 {
        return decoded_answered(&rows, Ghost(token_bytes@), Ghost(root_public_key@));
    }
    match parse_uuid(rows.task[0].as_str()) {
        Some(_) => {},
        None => return decoded_answered(&rows, Ghost(token_bytes@), Ghost(root_public_key@)),
    }
    rows.expires = match query_state_rows(token_bytes, root_public_key, StatePredicate::ExpiresAt) {
        Ok(v) => v,
        Err(e) => return Err(e),
    };
    if rows.expires.len() == 0 {
        return decoded_answered(&rows, Ghost(token_bytes@), Ghost(root_public_key@));
    }
    let k = latest_row(&rows.expires);
    let id = rows.expires[k].0;
    match parse_rfc3339(rows.expires[k].1.as_str()) {
        Some(_) => {},
        None => return decoded_answered(&rows, Ghost(token_bytes@), Ghost(root_public_key@)),
    }
    rows.read = match query_state_rows(token_bytes, root_public_key, StatePredicate::ReadRoot) {
        Ok(v) => v,
        Err(e) => return Err(e),
    };
    rows.write = match query_state_rows(token_bytes, root_public_key, StatePredicate::WriteRoot) {
        Ok(v) => v,
        Err(e) => return Err(e),
    };
    rows.binaries = match query_state_rows(token_bytes, root_public_key, StatePredicate::ExecBinary) {
        Ok(v) => v,
        Err(e) => return Err(e),
    };
    rows.network = match query_state_rows(token_bytes, root_public_key, StatePredicate::Network) {
        Ok(v) => v,
        Err(e) => return Err(e),
    };
    let networks = values_in(&rows.network, id);
    if networks.len() == 0 {
        return decoded_answered(&rows, Ghost(token_bytes@), Ghost(root_public_key@));
    }
    match parse_network(networks[0].as_str()) {
        Ok(_) => {},
        Err(_) => return decoded_answered(&rows, Ghost(token_bytes@), Ghost(root_public_key@)),
    }
    rows.tool = match query_state_rows(token_bytes, root_public_key, StatePredicate::BindingTool) {
        Ok(v) => v,
        Err(e) => return Err(e),
    };
    let tools = values_in(&rows.tool, id);
    if tools.len() > 0 {
        rows.hash = match query_state_rows(token_bytes, root_public_key, StatePredicate::BindingArgHash) {
            Ok(v) => v,
            Err(e) => return Err(e),
        };
        let hashes = values_in(&rows.hash, id);
        if hashes.len() == 0 {
            return decoded_answered(&rows, Ghost(token_bytes@), Ghost(root_public_key@));
        }
        match decode_hex32(hashes[0].as_str()) {
            Some(_) => {},
            None => return decoded_answered(&rows, Ghost(token_bytes@), Ghost(root_public_key@)),
        }
        rows.nonce = match query_state_rows(token_bytes, root_public_key, StatePredicate::BindingNonce) {
            Ok(v) => v,
            Err(e) => return Err(e),
        };
    }
    assert(latest_block(rows@) == id);
    let r = decoded_answered(&rows, Ghost(token_bytes@), Ghost(root_public_key@));
    proof {
        if r is Ok {
            assert(decoded(rows@) == decoded_outcome(r));
            assert(latest_block(rows@) == id);
            assert(rows_of_token(rows@, token_bytes@, root_public_key@));
        }
    }
    r
}

} // verus!
