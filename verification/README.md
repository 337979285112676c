# ferrous

The consensus, script, wallet and peer-to-peer decision logic of the Ferrous
proof-of-work chain, written in Verus: every function of the library carries
a contract, and Verus proves the code against it.

## Layout

- `src/primitives` — little-endian byte helpers, CompactSize, hashing
  (SHA-256, BLAKE3, RIPEMD-160 through their crates).
- `src/consensus` — block headers and 256-bit targets, difficulty
  retargeting, transactions and their encodings, the unspent-output set,
  the chain-level rules (median time past, block locators, what a block does
  to the unspent outputs) and the in-memory chain index (best tip, forks).
- `src/script` — the script interpreter, the P2DL spend check (the
  Dilithium signature check itself is a parameter) and signature hashes.
- `src/crypto` — Pedersen commitments, range proofs and amount encryption
  over `curve25519-dalek-ng` and `bulletproofs`.
- `src/wallet` — bech32m addresses, coin selection, transparent and
  confidential payments, signing (the signer is a parameter), the wallet's
  outputs and confidential-output scans.
- `src/mining` — block templates, timestamps, transaction selection and the
  nonce search.
- `src/network` — the address table, the mempool, the peer table and
  inbound and outbound admission, the version handshake, relay,
  headers-first sync (checking a batch of headers, timestamps included,
  the fork height and where block download starts), applying the awaited
  block and the buffered run after it, and partition recovery.
- `src/rpc`, `src/storage` — request-body clean-up and the order of its
  repairs, what is done with each parse attempt, request and batch answers, response records, and the byte
  layouts of stored records and keys.
- `tests/` — tests run against the compiled library.
- `app/` — what stays outside the verified library: JSON types with serde,
  the wallet's key file, socket addresses, the clock, the mining threads
  and the channel that reports solved blocks.

The public proof functions (`lemma_*`) state the library's laws, such as the
round trip of header encoding, that a stored record reads back as written,
that the chain index's tip has the most work, where two chains fork, the
compact target's round trip, that a later timestamp never lowers the
target, that a header stamped with the called-for target passes the
difficulty check, and that a confidential output built for a view key is
recorded by that key's scan with its value and blinding factor.
