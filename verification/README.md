# cce-notifier

A desktop notification daemon: it serves `org.freedesktop.Notifications` and
shows each notification as a card on a layer surface at the top right.

`src/` is the daemon's core, written and proved in Verus:

- `notifier`: the stack of live notifications. New ones go below the others, a
  repeat of a live id refreshes its card in place, only displayed cards age, and
  every preview image is handed back once.
- `server`: ids, durations, preview paths and bell sounds of what clients ask
  for.
- `card`, `plate`, `surface`: what is painted for each card, the style of its
  backplate, and where the cards sit.
- `thumbnail`, `scaling`: decoding a PNG image and scaling it to its box.
- `preamble`: what a PNG file says before its image data, and whether the image
  can be decoded in memory at all.
- `single`, `rounding`: single-precision arithmetic on bit patterns, correctly
  rounded.

The one thing taken on trust is the `png` crate's decoder, behind
`thumbnail::decode_png`.

`app/` is the daemon around it: the D-Bus service, the engine's callbacks, and
the files and settings that they read.
