# ferrosift_operations

Text and byte transformations with machine-checked contracts: quoted-printable,
TEA and XTEA with their block modes, RC4, ROT13, Punycode, Unicode escapes and
NetBIOS names, octal, set operations, edit and Hamming distances, table
rendering, HTTP framing, permission strings, object identifiers, PEM framing,
integer-as-text conversion, the decisions of a recipe-suggestion search, and
streaming sessions.

- `src/` is the library, verified with Verus. Each operation states what it
  returns as a specification over sequences and integers, and the library
  proves the laws that tie operations together: decoding undoes encoding
  (quoted-printable gives the bytes back with every line ending written as
  CR LF; Punycode gives the label back unless a number overflows 32 bits on
  the way back), decrypting undoes encrypting, a cipher applied twice is the
  identity, a stream session answers chunk by chunk what one pass would.
- `app/` holds what stays outside: digests over `digest::DynDigest`, the
  measures and parsers that compute in floating point, and the runner of the
  suggestion search, which needs operations from a whole catalog.
- `tests/` runs the library on concrete inputs.
