# Red5Sorcery

Hides a Zip archive (Base64-encoded, behind a 400-byte header) in the least
significant bits of a cover image. The cover is doubled into a composite
(color on the left, grayscale on the right), the bits are scattered over its
pixels in an order seeded by an anchor pixel, and the composite is handed out
as two PNG fragments. Both fragments are needed to recover the archive.

- `src/` — the verified library (Verus): rasters, the composite and its
  split, the header format, the seeded pixel order, LSB embedding and
  extraction, cloak/decloak, tiers, file names and text reports. The laws
  (`law_*` proof functions) state what one operation undoes of another.
- `tests/` — tests on concrete values.
- `app/` — the browser front end (Sycamore, web-sys): file pickers, downloads,
  and the two computations done in floating point (gray levels, anchor pixel).
