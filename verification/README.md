# onion_routing

An onion-routing echo system in three programs: a directory authority that
records the nodes and their keys, nodes that announce themselves, and a client
that wraps each message in one AES-256-GCM layer per node of a random path.

`src/` is the verified library:

- `text` — byte-level search and splitting on ASCII patterns, and cutting
  `str`s at proved character boundaries;
- `directory` — the client's reading of the authority's answer, and the proof
  that it reads back what the authority writes;
- `keys` — node keys as text, zero-padded to 32 bytes;
- `onion` — wrapping and unwrapping a message, layer by layer, over aes-gcm;
- `authority` — the authority's records, random paths and answers;
- `node` — a node's random key;
- `mock_stream` — an in-memory stream, usable wherever `std::io::Read` and
  `std::io::Write` are expected.

A node announces its key as raw bytes; the authority records an announcement
that is UTF-8 text as that text, and any other as its lowercase hexadecimal
digits.

`app/` holds the three programs (`dir_auth`, `node`, `client`): sockets, TLS,
threads and the terminal.
