# distributed_legder

A distributed ledger node: a Kademlia-style distributed hash table over UDP,
a proof-of-work blockchain, and the bookkeeping of sealed-bid auctions.

The library under `src/` holds the logic, each function with a contract that
Verus proves:

- `network`: keys and their XOR distance, nodes and their addresses, the
  datagrams peers exchange and how the receiving service sorts them.
- `dht`: the routing table (k-buckets kept least-recently-seen first, with
  interaction counts per peer), the store of values, the answers a node gives
  to requests, and the state of an iterative lookup.
- `blockchain`: block headers and their hash, proof-of-work mining, the chain
  and its validity, and what a node does with a block it receives;
  `blockchain.rs` also holds a simpler chain of text blocks.
- `auctions`: auctions and bids, identified by hashes of their fields, and
  what a node tracks of active auctions, bids, payments that bids wait for,
  and payments that wait for confirmations.
- `constants`: sizes, timeouts and the hashing helpers.

Hashing, hex encoding and the clock are calls into `sha2`, `sha1`, `sha3`,
`crypto-hash`, `hex` and `std`, each behind a small trusted function whose
contract names what it returns.

Not here: the sealed amount of a bid (its encryption and decryption, and the
choice of the winning bid by amount), the signature of an auction, and the
payment messages sent to bidders. They rest on key pairs, ciphers and
message types that this project does not have, and on floating-point
amounts.

`app/` is the program around the library: sockets, threads, the lookup
drivers that query peers, JSON on the wire and state dumps, and the terminal
menu of the auctions. `tests/` runs the library on concrete values.
