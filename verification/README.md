# handheld

A handheld game console whose games are WebAssembly modules drawing into a
320x240 indexed-color framebuffer. The library is written in Verus, and
Verus proves the contract of each of its functions, except a few thin
wrappers around standard-library string functions (UTF-8 decoding,
trimming, splitting at a character, `{:?}` rendering, `String::push` and
`String::pop`), whose contracts are trusted as their documentation states
them.

## Layout

- `src/cart.rs`: the `.cart` container (header, section table, payloads),
  its reader and writer, and the metadata fields.
- `src/sdk.rs`: a game's memory map and the SDK over it: drawing (pixels,
  Bresenham lines, rectangles, midpoint circles, text, sprites, tilemap),
  palette, buttons, tones and the frame counter.
- `src/runtime.rs`: what a runtime does around a game each frame: input
  registers, palette and frame read-back, the list of game names, tone
  requests, cart titles and launch requests.
- `src/input.rs`: the VirtIO keyboard: finding and setting up the device, key
  codes to buttons and the event ring.
- `src/ramfb.rs`: the RAM framebuffer: configuration bytes, fw_cfg
  directory lookup, the setup DMA buffer, blitting.
- `src/shell.rs`: the kernel's debugging shell: command tables, argument
  parsing, error messages, line editing.
- `src/snake.rs`, `src/launcher.rs`, `src/hello.rs`: the games.
- `src/laws.rs`: properties across modules and calls, such as what a game
  reads back of what the runtime wrote, what a cart read back holds of what
  was written, and what the keyboard holds after any events.
- `app/main.rs`: the desktop runner (wasmtime, minifb, cpal) and the cart
  packer.
