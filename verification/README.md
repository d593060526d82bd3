# ImageGuide

Audit a folder of images on your own machine: what each file weighs for the pixels it
shows, which ones are not what their extension claims, and what the folder would weigh
converted to WebP or AVIF. Nothing is uploaded unless you pair the folder with one on
Sirv and push it.

    imageguide <folder> [--convert] [--quality N | --lossless] [--avif | --webp]
               [--max-edge N] [--grid]

## Layout

- `src/` is the library, written in Verus. It holds the rules: scanning, ordering and
  filtering, planning and projecting conversions, the state of the window and what it
  shows, the Sirv requests and transfers, and the stored files. Every function states in
  its contract what it returns or changes. Proof functions named `law_..` relate several
  of them, such as what reading a stored file gives back.
- `app/` is ordinary Rust around it: files, network, threads and the window's drawing.
- `tests/` runs the library on concrete values with the real image codecs.

## What is trusted

Decoding, resizing and encoding are done by `image`, `webp` and `ravif`. Those calls stand
in `src/picture.rs` and `src/scan.rs`, each behind a small function whose contract says
what is relied on. Results that depend on the machine are stated as one of the outcomes
the arguments allow. `str::to_lowercase` in `src/rows.rs` and `String::push` in
`src/text.rs` are the only other trusted functions.

A panic inside a codec is not excluded. AVIF files are written but not decoded: that takes
`image`'s `avif-native` feature and the system library dav1d behind it. Without it an AVIF
file on disk counts as unreadable, and a comparison with AVIF shows no preview. Scaling
works on sides of up to 4 194 304 pixels, past which its filter runs out of precision; a
longer picture is not scaled, and asking for that gives no file.

## Paths

The library reads paths as text with slashes. `app/` writes them so on Windows, which
takes slashes as well; network shares that begin with two separators are not kept apart
from the root. A path that is not UTF-8 is read with replacement characters, and what it
names is not found again.

## Numbers

Sizes and shares are shown as single- and double-precision arithmetic would round them;
`src/number.rs` computes that rounding on whole numbers. Lengths on screen are counted in
65 536ths of a pixel, and scales are ratios of whole numbers.
