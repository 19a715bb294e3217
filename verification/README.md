# il2p

IL2P (Improved Layer 2 Protocol) framing for packet radio, Layer 2 only, written in Verus
with its behaviour stated in contracts and proved.

- Type 0 transparent and typed Type 1 (AX.25 translated) frames
- scrambling
- GF(256) Reed–Solomon encoding and correction, 16 parity symbols per payload block
- optional CRC-16/X-25 carried in four Hamming (7,4) codewords
- a bit-serial, MSB-first receiver with one-bit sync-word tolerance

## Layout

- `src/gf.rs`, `src/poly.rs`: the field GF(2^8), its exponential and logarithm tables, and
  polynomials over it, with the field laws and the primitivity of 2.
- `src/rs.rs`: Reed–Solomon encoding (proved linear and to produce codewords) and correction
  (proved to restore the codeword whenever it lies within `nsym / 2` symbols, reporting
  exactly the number of symbols changed, and to give up otherwise): Berlekamp–Massey proved
  to find a shortest generating connection polynomial, Chien search to find its roots, and
  the Gaussian elimination to solve the Vandermonde system of the error values.
- `src/scramble.rs`: the scrambler and descrambler, proved inverse to each other, with
  descrambling depending only on the bytes received so far.
- `src/crc.rs`: CRC-16/X-25 (linear register update, good-frame residue) and its Hamming
  (7,4) carriage, a perfect code with single-bit correction.
- `src/packet.rs`, `src/ax25.rs`: station addresses, PIDs, control fields and the Type 1
  header, with the header round trip.
- `src/frame.rs`: packet encoding and decoding, whose outcome is determined by the stream
  (so that the `Receiver`, `decode` with trailing bytes and `decode` without the CRC check
  agree), and the streaming `Receiver`.
- `src/roundtrip.rs`, `src/receive.rs`: what `decode` and the `Receiver` give back of what
  `encode` and `encode_burst` wrote, after a preamble joined at any bit, also with one
  symbol error in the header codeword, eight in each payload block and one bit error in the
  sync word.
- `app/`: `Display` and `std::error::Error` for the error type.
- `tests/`: scenario tests, including published IL2P example packets.
