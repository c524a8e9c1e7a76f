# phomemo_filters

A verified library for driving Phomemo thermal label printers from CUPS:
it parses CUPS RaS3 raster streams, packs, resizes and rotates grayscale
pages, and encodes them as the ESC/POS byte streams of the M110, M02 and
D30 printer families. Every function in `src/` is proved against its
contract with Verus.

- `src/raster.rs`: the RaS3 parser (8-bit grayscale pages), its
  specification and the laws that a parsed stream is its magic followed by
  its pages with nothing left over, and that joined streams parse to joined
  page lists.
- `src/image.rs`: 1-bit packing, nearest-neighbour resizing, quarter-turn
  rotation, with the laws of bit polarity, rotation and same-width resizing.
- `src/escpos.rs`: the page encodings and the M110 layout (stock
  right-aligned on the print head, raster centred in the stock).
- `src/transport.rs`: the decisions of the serial and Bluetooth LE senders.
- `src/text.rs`: the error messages and discovery lines the programs print.
- `src/grid.rs`: the row-major raster shape the others are stated over.
- `app/`: the CUPS filter and backend programs, which read, write and talk
  to devices; one binary chosen by the name it is installed under.
