# warden

Capability-based authorization for tool calls, verified with Verus.

A trusted task manifest mints a root capability backed by a signed biscuit
token. Child capabilities are derived only by attenuation, which can narrow
but never widen the readable and writable roots, the executable binaries and
the lifetime, and can bind a child to one exact tool invocation. Before any
tool runs, the enforcement point verifies the token, checks that the
capability's own record agrees with it, checks expiry and binding, and the
default-deny decision point decides over the token's state. Every decision is
recorded in a hash-chained audit log.

The contracts state the decision over the token's own state: a passing
capability carries a state that its token records under its root key
(`token_records`, over the rows the token library answers for the token's
bytes), and an authorized request is one the decision point allows under
that state (`authorization_ok`). Answers about paths depend on the
filesystem at the time of the call; what is done with the filesystem's
answers is stated exactly (`resolution_given`, `attenuation_verdict_given`).

A token the library builds or extends answers each state query with exactly
the rows written into its blocks (`token_holds`), and decoding such rows
gives back the latest block's state (`lemma_token_decodes_latest_block`), so
a capability minted or attenuated by the library is never found tampered
(`lemma_faithful_child_mirrors`). A permission set holds each root and each
binary once.

## Layout

- `src/` — the verified library:
  - `path.rs` — Unix path texts: components, containment, safe absolute
    paths, and resolution against the filesystem.
  - `manifest.rs` — the task manifest and its checks.
  - `time.rs` — points in time and lifetime arithmetic.
  - `capability.rs` — permission sets, minting, attenuation, request
    bindings, and the check of a capability against its token.
  - `codec.rs`, `token.rs` — the Datalog facts that record a capability's
    state in a token block, and their decoding.
  - `digest.rs` — byte framing and the BLAKE3 digest.
  - `pep.rs`, `pdp.rs` — the enforcement and decision points and the linter.
  - `audit.rs` — the hash-chained audit log.
  - `tools.rs` — tool calls, canonical request JSON, authorization.
  - `agent.rs`, `orchestrator.rs` — the reference agent: mode switch, model
    conversation, tool-call parsing, feedback, and the orchestrator's
    per-call decisions.
  - `agent_loop.rs` — the agentic loop's decisions (turn budget, batches,
    feedback order, the live principal's retries), as a state machine that
    the caller drives.
  - `contrast.rs` — the verdict of the demo's contrast run.
  - `sandbox.rs` — the OS containment stub, which never reports success.
- `tests/` — tests of the library.
- `app/` — the command-line orchestrator and demo harness: file and network
  I/O, process execution, the HTTP model client, and the serialized forms of
  the library's types.
