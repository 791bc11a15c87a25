# yespower

The yespower proof-of-work hash (versions 0.5 and 1.0), written in Verus:
every function of the algorithm carries a contract, and Verus proves the
code against it. The top-level contract states, for every input and
parameter set, that `yespower` returns `Err(InvalidParams)` exactly when the
parameters are out of range, and otherwise the 32 bytes of the spec
function `yespower_hash`, in which SHA-256 stands as a named function (its
code comes from the `sha2` crate), HMAC-SHA256 and PBKDF2 are written out
over it (their code comes from the `hmac` and `pbkdf2` crates), and
everything else (SMix, pwxform, Salsa20, the data-dependent indexing, the
byte/word layout) is written out too.

Layout:

- `src/lib.rs`: `Version`, `Params`, `Error`, and the public entry points.
- `src/sha256.rs`: the calls into `sha2`, `hmac` and `pbkdf2`, and the
  host-order / little-endian word helpers with their round-trip laws.
- `src/yespower/`: `block` (block copy and XOR), `salsa` (Salsa20 core and
  its BlockMix), `index` (`integerify`, `p2floor`, `wrap`), `pwxform`
  (pwxform and its BlockMix), `smix` (S-box initialization, SMix1, SMix2),
  `mod.rs` (`yespower`, its stages and its laws).
- `tests/`: known-answer tests for the primitives, parameter validation,
  and behavioural properties of the hash.
- `app/`: the error type with `Display` and `std::error::Error`.
