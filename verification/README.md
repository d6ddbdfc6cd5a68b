# learnkit

Small data structures and codecs, each with its behaviour stated in Verus
contracts and proved:

- `packet`: IPv4 and TCP header parsing and building, and the Internet
  checksum, with laws that a built header parses back to the same fields and
  that a header carrying its checksum validates.
- `ring_buffer`: a fixed-capacity FIFO queue with `retain`.
- `double_linked_list`: a linked list used as a stack.
- `fibonacci`: memoised, iterative and folding Fibonacci, all equal to the
  mathematical definition.
- `hashmap`: a bucketed hash map from strings with load-factor resizing.
- `lru_cache`: a linked list with stable handles and an LRU cache built on it
  and on `hashmap`.
- `json`: a tokenizer and a recursive-descent parser, each equal to a
  character-by-character (token-by-token) specification.

`src/` is the verified library, `tests/` its tests, and `app/` a small program
that reads packets from a TUN device (through the `tun` crate) and prints the
headers that `packet` parses.
