# Ondris

The core of a proof-of-work blockchain, written in Rust and verified with Verus: the
functions of the library carry contracts (only of the system clock nothing is said), and
the laws that the chain as a whole obeys are stated and proved next to them.

Experimental testnet software. OndrisHash has not been looked at by independent
cryptographers; do not use it with anything of value.

## The library (`src/`)

| module | what it holds |
|---|---|
| `pow` | OndrisHash: epochs, the dataset, FNV mixing, targets |
| `blake3_ref`, `ondris_hash_ref` | BLAKE3 and OndrisHash written out, which a GPU kernel is held to |
| `xoshiro_ref` | xoshiro256** |
| `primitives`, `crypto` | hashes, addresses, keys; BLAKE3 and Ed25519 from outside crates |
| `header`, `transaction`, `block` | what a chain is made of, and how it is hashed |
| `difficulty`, `genesis` | targets, retargeting, rewards, the network's parameters |
| `table`, `state` | the state in memory, with a journal of its changes |
| `ledger`, `fork`, `reorg` | accounts, branches, and moving from one branch to another |
| `chain`, `error` | judging and storing blocks, choosing the heaviest branch |
| `laws` | what holds whichever blocks are submitted |
| `mining`, `wallet`, `rpc_types` | what miners and wallets decide, and what they exchange |
| `bytes`, `text`, `hex` | numbers and byte strings |

Each call into an outside crate stands behind a small function whose contract says
what is relied on: `blake3`, `ed25519-dalek` and `serde_json`, and the system clock.

## The laws

The tip only ever moves to strictly more cumulative work, and on a tie the branch seen
first stays. A block that is not accepted moves neither the tip nor an account. As long
as no balance meets the largest that 64 bits hold, a reorganisation leaves the accounts
as if only the winning branch had ever been applied, moving back restores everything,
and a block creates its reward and burns its fees and nothing else. A reorganisation
hands back exactly the transactions that are not on the winning branch. The index by
height holds exactly the branch of the tip, and the recorded work of a block is the sum
of the difficulties back to the genesis block. The difficulty is readjusted once per
retarget window. What was stored and handed out comes back when the chain is opened
again. OndrisHash by the `blake3` crate and OndrisHash written out are the same function.

These hold of a chain that is consistent: one tree of blocks, with their work and an index
of the tip's branch. A new chain is, and stays so whatever is submitted. A store that was
damaged is opened all the same, and what is missing is reported where it is needed.

## The tools (`app/`)

Ordinary Rust around the library: a CPU miner, an OpenCL miner, a wallet with an
encrypted key file, and the state on disk in `sled`.
