# everythingx

Conversion capsules verified with Verus: each capsule is a function from input
bytes to output bytes with a contract. The audio rewrites, the UTF-16
transcoder, the BMP, TGA, PPM, QOI and ICO-bitmap readers, the GIF LZW decoder
and the stored and fixed-Huffman zlib writers have contracts that fix their
output and the inputs they refuse; the PNG and GIF file decoders have contracts
that state the checks on their headers and first chunks and the shape of what
they return, not every decoded pixel.

- `src/` — the verified library: audio container rewrites (WAVE, AIFF, raw
  PCM, CAF/RF64/AU to Wave64), UTF-16 to UTF-8, PNG/QOI/BMP/TGA/Netpbm/GIF/ICO
  codecs and validators, the adapter protocol types, adapter option parsing and
  the kernel's registration and routing decisions.
- `tests/` — executable tests of the library.
- `app/` — the host program: adapter trait objects over byte streams, the
  kernel registry and the capability benchmark.
