# optchain

The block, chain and data-availability logic of an OptChain node, verified
with Verus: the proposer, availability and ordering chains, the pools of
transaction blocks and coded symbols, and what a node decides on each
message it receives.

## Layout

- `src/` — the verified library.
  - `hash`, `hex`, `merkle`, `transaction`, `block/` — hashes, Merkle trees
    with inclusion proofs, and the five kinds of block.
  - `tree`, `store`, `blockchain` — a block tree with heights and a longest
    chain, a key-value store, and a chain built on both.
  - `multichain` — the chains of a node and the commitments along them.
  - `mempool`, `symbolpool` — pending transaction blocks (first in, first
    out) and requested or received symbols.
  - `worker` — the node's answer to each network message, as a function
    from state and message to new state and messages to send. Queries are
    answered exactly. For incoming blocks the contracts state which blocks
    are taken and held, which are refused (an availability block whose
    symbols are not all in waits, with its symbols asked for; an ordering
    block that confirms again is left out), which parents are asked for and
    what is announced; for incoming symbols, which are kept and announced,
    and which waiting blocks a completed commitment releases.
  - `validator`, `setup`, `api` — block checks, node configuration and
    genesis, and the routing of API requests.
- `tests/` — tests of the library on concrete values.
- `app/` — the program around the library: command line, TCP peers, the
  HTTP API, serialisation and reports.
