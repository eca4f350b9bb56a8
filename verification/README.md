# bal_daemon

Access lists of the next block, in advance. A node traces each pending
transaction; the storage slots that the transactions read and write are merged
into one list, which is written as a BEP-592 payload and as an EIP-7928 list.

- `src/` is the library. Its functions are verified with Verus: the contract of
  each says what it returns, and the modules whose names end in `_laws` state
  what the functions promise together. Not verified but trusted are the small
  functions marked `external_body`, which call the crates named below.
- `tests/` runs the library on concrete values.
- `app/` holds the programs: `bal-daemon` follows the chain and publishes a
  payload for each head, `server` answers requests on port 7337, and
  `load_test`, `mainnet_test`, `integration_test` and `test_tools` measure and
  check them. The first argument selects the program. The endpoints of the node
  are read from the environment: `WS_URL` and `HTTP_URL`, and for
  `mainnet_test` `MAINNET_WS_URL` and `MAINNET_HTTP_URL`.

The library calls the crates `rlp`, `hex` and `serde_json`. What it relies on of
them is the contracts of the trusted functions in `rlp_stream`, `rlp_read`,
`hex_text` and `json`, each of which makes one such call.
