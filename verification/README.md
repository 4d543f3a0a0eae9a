# asmap

IP to ASN lookup over Bitcoin Core's asmap format, verified with Verus.

An asmap is bytecode for a binary trie over 128-bit addresses (IPv4 addresses are
looked up as `::ffff:a.b.c.d`). `Asmap::from_bytes` validates it by simulating every
execution path; lookups then run the bytecode on the address.

- `src/format.rs`: the bit stream and the class-prefixed integers of the format, and
  the agreement of bulk and bit-by-bit decoding.
- `src/validate.rs`: the validator, its specification, and the proofs that no accepted
  asmap is a proper prefix of another and that a larger address budget keeps an asmap
  accepted.
- `src/grammar.rs`: well-formed asmaps as a grammar of subtrees, proved equal to what
  the validator accepts.
- `src/interpret.rs`: the interpreter (bulk bit reads) and its specification.
- `src/totality.rs`: the proofs that every address gets an answer from a valid asmap,
  after decoding at most 2 * 128 + 3 instructions.
- `src/addr.rs`: IPv4/IPv6 addresses as octets.
- `src/lib.rs`: `Asmap` and `AsmapError`.
- `app/`: reading files, `std::net` addresses, `Display` for errors.
