//! What a folder of images actually contains.
//!
//! The walk and the header reads happen outside; this holds what they found, and
//! what follows from it: which files count, in what order, and how each one reads.

use crate::number;
use crate::number::{Number, Precision};
use crate::order;
use crate::order::Ranking;
use crate::paths;
use crate::text;
use image::{ImageFormat as Known, ImageReader};
use std::io::Cursor;
use vstd::prelude::*;

verus! {

/// The folder conversions are written to, inside the folder they came from.
pub const OUTPUT_DIR: &'static str = "optimized";

/// The container a file holds, by its content.
#[derive(Clone, Copy, Debug, PartialEq, Eq, Structural)]
pub enum ImageFormat {
    Png,
    Jpeg,
    Gif,
    WebP,
    Pnm,
    Tiff,
    Tga,
    Dds,
    Bmp,
    Ico,
    Hdr,
    OpenExr,
    Farbfeld,
    Avif,
    Qoi,
}

/// One image in the folder.
#[derive(Debug)]
pub struct Entry {
    pub path: String,
    pub format: ImageFormat,
    pub width: u32,
    pub height: u32,
    /// Bytes on disk, not decoded size.
    pub bytes: u64,
}

impl Clone for Entry {
    fn clone(&self) -> (out: Self)
        ensures
            out == *self,
    {
        Entry {
            path: self.path.clone(),
            format: self.format,
            width: self.width,
            height: self.height,
            bytes: self.bytes,
        }
    }
}

/// `c` with the capital letters of ASCII made small.
pub open spec fn small(c: char) -> char {
    if 'A' <= c && c <= 'Z' {
        (c as u32 + 32) as char
    } else {
        c
    }
}

/// The format an extension stands for, in any mix of capitals.
pub open spec fn format_named(extension: Seq<char>) -> Option<ImageFormat> {
    let name = extension.map_values(|c: char| small(c));
    if name == "avif"@ {
        Some(ImageFormat::Avif)
    } else if name == "jpg"@ || name == "jpeg"@ || name == "jfif"@ {
        Some(ImageFormat::Jpeg)
    } else if name == "png"@ || name == "apng"@ {
        Some(ImageFormat::Png)
    } else if name == "gif"@ {
        Some(ImageFormat::Gif)
    } else if name == "webp"@ {
        Some(ImageFormat::WebP)
    } else if name == "tif"@ || name == "tiff"@ {
        Some(ImageFormat::Tiff)
    } else if name == "tga"@ {
        Some(ImageFormat::Tga)
    } else if name == "dds"@ {
        Some(ImageFormat::Dds)
    } else if name == "bmp"@ {
        Some(ImageFormat::Bmp)
    } else if name == "ico"@ {
        Some(ImageFormat::Ico)
    } else if name == "hdr"@ {
        Some(ImageFormat::Hdr)
    } else if name == "exr"@ {
        Some(ImageFormat::OpenExr)
    } else if name == "pbm"@ || name == "pam"@ || name == "ppm"@ || name == "pgm"@ || name
        == "pnm"@ {
        Some(ImageFormat::Pnm)
    } else if name == "ff"@ {
        Some(ImageFormat::Farbfeld)
    } else if name == "qoi"@ {
        Some(ImageFormat::Qoi)
    } else {
        None
    }
}

/// `image::ImageFormat::from_extension` knows an extension in any mix of capitals and
/// gives the format it stands for, or nothing for one it does not know.
#[verifier::external_body]
fn known_format(extension: &str) -> (out: Option<ImageFormat>)
    ensures
        out == format_named(extension@),
{
    Some(match Known::from_extension(extension)? {
        Known::Png => ImageFormat::Png,
        Known::Jpeg => ImageFormat::Jpeg,
        Known::Gif => ImageFormat::Gif,
        Known::WebP => ImageFormat::WebP,
        Known::Pnm => ImageFormat::Pnm,
        Known::Tiff => ImageFormat::Tiff,
        Known::Tga => ImageFormat::Tga,
        Known::Dds => ImageFormat::Dds,
        Known::Bmp => ImageFormat::Bmp,
        Known::Ico => ImageFormat::Ico,
        Known::Hdr => ImageFormat::Hdr, Known::OpenExr => ImageFormat::OpenExr,
        Known::Farbfeld => ImageFormat::Farbfeld, Known::Avif => ImageFormat::Avif,
        Known::Qoi => ImageFormat::Qoi, _ => return None,
    })
}

/// The first extension a format goes by.
pub open spec fn first_extension(format: ImageFormat) -> Seq<char> {
    match format {
        ImageFormat::Png => "png"@,
        ImageFormat::Jpeg => "jpg"@,
        ImageFormat::Gif => "gif"@,
        ImageFormat::WebP => "webp"@,
        ImageFormat::Pnm => "pbm"@,
        ImageFormat::Tiff => "tiff"@,
        ImageFormat::Tga => "tga"@,
        ImageFormat::Dds => "dds"@,
        ImageFormat::Bmp => "bmp"@,
        ImageFormat::Ico => "ico"@,
        ImageFormat::Hdr => "hdr"@,
        ImageFormat::OpenExr => "exr"@,
        ImageFormat::Farbfeld => "ff"@,
        ImageFormat::Avif => "avif"@,
        ImageFormat::Qoi => "qoi"@,
    }
}

/// `image::ImageFormat::extensions_str` lists the extensions a format goes by, at
/// least one for each of these formats; this gives the first.
#[verifier::external_body]
fn listed_extension(format: ImageFormat) -> (out: Option<&'static str>)
    ensures
        out is Some,
        out->0@ == first_extension(format),
{
    let known = match format {
        ImageFormat::Png => Known::Png,
        ImageFormat::Jpeg => Known::Jpeg,
        ImageFormat::Gif => Known::Gif,
        ImageFormat::WebP => Known::WebP,
        ImageFormat::Pnm => Known::Pnm,
        ImageFormat::Tiff => Known::Tiff,
        ImageFormat::Tga => Known::Tga,
        ImageFormat::Dds => Known::Dds, ImageFormat::Bmp => Known::Bmp,
        ImageFormat::Ico => Known::Ico, ImageFormat::Hdr => Known::Hdr,
        ImageFormat::OpenExr => Known::OpenExr, ImageFormat::Farbfeld => Known::Farbfeld,
        ImageFormat::Avif => Known::Avif, ImageFormat::Qoi => Known::Qoi,
    };
    known.extensions_str().first().copied()
}

/// The short name shown in the format column.
pub open spec fn short_name(format: ImageFormat) -> Seq<char> {
    match format {
        ImageFormat::Jpeg => "JPEG"@,
        ImageFormat::Png => "PNG"@,
        ImageFormat::WebP => "WebP"@,
        ImageFormat::Avif => "AVIF"@,
        ImageFormat::Gif => "GIF"@,
        ImageFormat::Tiff => "TIFF"@,
        ImageFormat::Bmp => "BMP"@,
        _ => first_extension(format),
    }
}

/// The short name shown in the format column.
pub fn format_name(format: ImageFormat) -> (out: &'static str)
    ensures
        out@ == short_name(format),
{
    match format {
        ImageFormat::Jpeg => "JPEG",
        ImageFormat::Png => "PNG",
        ImageFormat::WebP => "WebP",
        ImageFormat::Avif => "AVIF",
        ImageFormat::Gif => "GIF",
        ImageFormat::Tiff => "TIFF",
        ImageFormat::Bmp => "BMP",
        _ => match listed_extension(format) {
            Some(extension) => extension,
            None => "?",
        },
    }
}

/// The largest of the units that `bytes` reaches, and its name.
pub open spec fn unit_of(bytes: nat) -> Option<(nat, Seq<char>)> {
    if bytes >= 0x4000_0000 {
        Some((0x4000_0000, "GB"@))
    } else if bytes >= 0x10_0000 {
        Some((0x10_0000, "MB"@))
    } else if bytes >= 0x400 {
        Some((0x400, "KB"@))
    } else {
        None
    }
}

/// `a / b` for two counts, each and the quotient to the nearest number.
pub open spec fn ratio(a: nat, b: nat, precision: Precision) -> (nat, int) {
    number::quotient(
        number::nearest(a, 1, precision),
        number::nearest(b, 1, precision),
        precision,
    )
}

/// A file size as people read it: one decimal place in the largest unit it reaches.
pub open spec fn size_text(bytes: nat) -> Seq<char> {
    match unit_of(bytes) {
        Some((scale, unit)) => number::fixed(ratio(bytes, scale, Precision::Double), 1) + " "@
            + unit,
        None => text::decimal(bytes) + " B"@,
    }
}

/// Human-readable file size. Deliberately not exact: the point is comparison.
pub fn format_bytes(bytes: u64) -> (out: String)
    ensures
        out@ == size_text(bytes as nat),
{
    let (scale, unit): (u64, &str) = if bytes >= 0x4000_0000 {
        (0x4000_0000, "GB")
    } else if bytes >= 0x10_0000 {
        (0x10_0000, "MB")
    } else if bytes >= 0x400 {
        (0x400, "KB")
    } else {
        return text::glued(text::decimal_of(bytes as u128).as_str(), " B");
    };
    let top = number::whole(bytes, Precision::Double);
    let bottom = number::whole(scale, Precision::Double);
    let value = number::divide(top, bottom, Precision::Double);
    let mut out = number::fixed_of(value, 1, Precision::Double);
    out.append(" ");
    out.append(unit);
    out
}

/// The file's own name, or nothing where the path does not end in one.
pub open spec fn title(path: Seq<char>) -> Seq<char> {
    match paths::last_name(path) {
        Some(name) => name,
        None => seq![],
    }
}

/// How many pixels the image has.
pub open spec fn area(entry: Entry) -> nat {
    (entry.width * entry.height) as nat
}

/// Bytes per pixel, in single precision. An image without pixels has none.
pub open spec fn density(entry: Entry) -> (nat, int) {
    if area(entry) == 0 {
        (0, 0)
    } else {
        ratio(entry.bytes as nat, area(entry), Precision::Single)
    }
}

/// The format a path's extension stands for.
pub open spec fn claimed_format(path: Seq<char>) -> Option<ImageFormat> {
    match paths::last_name(path) {
        Some(name) => match paths::suffix(name) {
            Some(extension) => format_named(extension),
            None => None,
        },
        None => None,
    }
}

/// The extension stands for a format, and not for the one inside the file.
pub open spec fn mislabelled(entry: Entry) -> bool {
    match claimed_format(entry.path@) {
        Some(format) => format != entry.format,
        None => false,
    }
}

/// The format a path's extension stands for.
pub fn claimed(path: &str) -> (out: Option<ImageFormat>)
    ensures
        out == claimed_format(path@),
{
    match paths::file_name(path) {
        Some(name) => match paths::suffix_of(name.as_str()) {
            Some(extension) => known_format(extension.as_str()),
            None => None,
        },
        None => None,
    }
}

impl Entry {
    /// The file's own name.
    pub fn name(&self) -> (out: String)
        ensures
            out@ == title(self.path@),
    {
        match paths::file_name(self.path.as_str()) {
            Some(name) => name,
            None => {
                let out = String::new();
                assert(out@ =~= seq![]);
                out
            },
        }
    }

    /// How many pixels the image has.
    pub fn pixels(&self) -> (out: u64)
        ensures
            out == area(*self),
    {
        let (width, height): (u64, u64) = (self.width as u64, self.height as u64);
        assert(width * height <= 0xffff_ffff * 0xffff_ffff) by (nonlinear_arith)
            requires
                width <= 0xffff_ffff,
                height <= 0xffff_ffff,
        ;
        width * height
    }

    /// Bytes per pixel of output. The number that says whether a file is carrying
    /// weight it does not need: a photographic JPEG lands near 0.2, a screenshot
    /// saved as PNG can be ten times that.
    pub fn bytes_per_pixel(&self) -> (out: Number)
        ensures
            out.parts() == density(*self),
            out.fills(Precision::Single),
            -90 <= out.exponent <= 44,
    {
        let pixels = self.pixels();
        if pixels == 0 {
            return Number { significand: 0, exponent: 0 };
        }
        let top = number::whole(self.bytes, Precision::Single);
        let bottom = number::whole(pixels, Precision::Single);
        number::divide(top, bottom, Precision::Single)
    }

    /// Whether the extension disagrees with the bytes inside the file.
    pub fn extension_lies(&self) -> (out: bool)
        ensures
            out == mislabelled(*self),
    {
        match claimed(self.path.as_str()) {
            Some(format) => format != self.format,
            None => false,
        }
    }
}

/// One file the walk came across, and what its header said.
#[derive(Debug)]
pub struct Found {
    pub path: String,
    /// Bytes on disk.
    pub bytes: u64,
    /// Format, width and height, where the header could be read.
    pub header: Option<(ImageFormat, u32, u32)>,
}

/// What a walk came to.
#[derive(Debug)]
pub struct Scan {
    pub entries: Vec<Entry>,
    /// Camera raw files, counted and not listed.
    pub skipped_raw: usize,
    /// Files that claim to be images and could not be read, by path.
    pub unreadable: Vec<String>,
    /// Files already sitting in the output folder.
    pub existing_output: usize,
}

/// What a file in the folder counts as.
#[derive(Clone, Copy, Debug, PartialEq, Eq, Structural)]
pub enum Kind {
    /// Something a conversion wrote earlier.
    Output,
    /// Camera raw: a header read would report its embedded preview.
    Raw,
    Image,
    /// Claims to be an image by its extension, and is not readable as one.
    Unreadable,
    Other,
}

/// The extension is one that camera raw files carry, in any mix of capitals.
pub open spec fn is_raw(extension: Seq<char>) -> bool {
    let name = extension.map_values(|c: char| small(c));
    ||| name == "nef"@
    ||| name == "nrw"@
    ||| name == "cr2"@
    ||| name == "cr3"@
    ||| name == "arw"@
    ||| name == "dng"@
    ||| name == "orf"@
    ||| name == "pef"@
    ||| name == "raf"@
    ||| name == "rw2"@
    ||| name == "srw"@
}

/// The extension of the file at `path`.
pub open spec fn extension_of(path: Seq<char>) -> Option<Seq<char>> {
    match paths::last_name(path) {
        Some(name) => paths::suffix(name),
        None => None,
    }
}

/// The file lies in the output folder of `root`.
pub open spec fn is_output(root: Seq<char>, path: Seq<char>) -> bool {
    match paths::below(paths::components(path), paths::components(root)) {
        Some(rest) => rest.len() > 1 && rest[0] == OUTPUT_DIR@,
        None => false,
    }
}

/// What a file found under `root` counts as.
pub open spec fn kind(root: Seq<char>, found: Found) -> Kind {
    if is_output(root, found.path@) {
        Kind::Output
    } else if extension_of(found.path@) is Some && is_raw(extension_of(found.path@)->0) {
        Kind::Raw
    } else if found.header is Some {
        Kind::Image
    } else if claimed_format(found.path@) is Some {
        Kind::Unreadable
    } else {
        Kind::Other
    }
}

/// The files of one kind among `found`, in the order they were found.
pub open spec fn of_kind(root: Seq<char>, found: Seq<Found>, wanted: Kind) -> Seq<Found> {
    found.filter(|f: Found| kind(root, f) == wanted)
}

/// The entry a file with a readable header makes.
pub open spec fn probed(found: Found, entry: Entry) -> bool {
    &&& found.header == Some((entry.format, entry.width, entry.height))
    &&& entry.path@ == found.path@
    &&& entry.bytes == found.bytes
}

/// `out` is `entries` with the heaviest first, and equal weights in the order they
/// had.
pub open spec fn is_heaviest_first(entries: Seq<Entry>, out: Seq<Entry>) -> bool {
    exists|order: Seq<usize>|
        {
            &&& #[trigger] order.len() == entries.len()
            &&& out.len() == entries.len()
            &&& order.no_duplicates()
            &&& forall|i: int| 0 <= i < order.len() ==> (#[trigger] order[i]) < entries.len()
            &&& forall|i: int| 0 <= i < order.len() ==> out[i] == entries[#[trigger] order[i] as int]
            &&& forall|i: int, j: int|
                0 <= i < j < order.len() ==> heavier(
                    entries,
                    (#[trigger] order[i]) as int,
                    (#[trigger] order[j]) as int,
                )
        }
}

/// `x` is heavier than `y`, or as heavy and earlier.
pub open spec fn heavier(entries: Seq<Entry>, x: int, y: int) -> bool {
    entries[x].bytes > entries[y].bytes || (entries[x].bytes == entries[y].bytes && x < y)
}

/// Entries by weight, the heaviest first.
struct ByWeight<'a> {
    entries: &'a Vec<Entry>,
}

impl<'a> Ranking for ByWeight<'a> {
    closed spec fn count(&self) -> nat {
        self.entries@.len()
    }

    closed spec fn before(&self, x: int, y: int) -> bool {
        heavier(self.entries@, x, y)
    }

    proof fn irreflexive(&self, x: int) {
    }

    proof fn total(&self, x: int, y: int) {
    }

    proof fn transitive(&self, x: int, y: int, z: int) {
    }

    fn precedes(&self, x: usize, y: usize) -> (out: bool) {
        let (a, b) = (self.entries[x].bytes, self.entries[y].bytes);
        a > b || (a == b && x < y)
    }
}

/// The whole numbers below `count`, ascending.
pub fn upto(count: usize) -> (out: Vec<usize>)
    ensures
        out@.len() == count,
        forall|i: int| 0 <= i < count ==> out@[i] == i,
        out@.no_duplicates(),
{
    let mut out: Vec<usize> = Vec::new();
    let mut i: usize = 0;
    while i < count
        invariant
            i <= count,
            out@.len() == i,
            forall|j: int| 0 <= j < i ==> out@[j] == j,
        decreases count - i,
    {
        out.push(i);
        i += 1;
    }
    out
}

/// A list without repeats that holds just the numbers below `count` is `count` long.
proof fn lemma_full_length(order: Seq<usize>, count: nat)
    requires
        order.no_duplicates(),
        count <= usize::MAX,
        forall|k: usize| #[trigger] order.contains(k) <==> k < count,
    ensures
        order.len() == count,
{
    order.unique_seq_to_set();
    let all = vstd::set_lib::set_int_range(0, count as int);
    vstd::set_lib::lemma_int_range(0, count as int);
    let f = |k: usize| k as int;
    assert(order.to_set().map(f) =~= all) by {
        assert forall|i: int| all.contains(i) implies order.to_set().map(f).contains(i) by {
            assert(order.contains(i as usize));
            assert(order.to_set().contains(i as usize));
            assert(f(i as usize) == i);
        }
        assert forall|i: int| order.to_set().map(f).contains(i) implies all.contains(i) by {
            let k = choose|k: usize| order.to_set().contains(k) && f(k) == i;
            assert(order.contains(k));
        }
    }
    vstd::set_lib::lemma_map_size(order.to_set(), all, f);
}

/// `entries` with the heaviest first: the top of the list is the work worth doing.
pub fn heaviest_first(entries: Vec<Entry>) -> (out: Vec<Entry>)
    ensures
        is_heaviest_first(entries@, out@),
{
    let items = upto(entries.len());
    let ranking = ByWeight { entries: &entries };
    let order = order::sorted(&ranking, items);
    let mut out: Vec<Entry> = Vec::new();
    proof {
        order::lemma_order_keeps_ranked(&ranking, items@, order@);
        assert forall|k: usize| #[trigger] order@.contains(k) <==> k < entries@.len() by {
            assert(order@.contains(k) <==> items@.contains(k));
            if k < entries@.len() {
                assert(items@[k as int] == k);
            }
        }
        lemma_full_length(order@, entries@.len());
    }
    let mut i: usize = 0;
    while i < order.len()
        invariant
            i <= order@.len(),
            out@.len() == i,
            forall|j: int| 0 <= j < order@.len() ==> (#[trigger] order@[j]) < entries@.len(),
            forall|j: int| 0 <= j < i ==> out@[j] == entries@[#[trigger] order@[j] as int],
        decreases order@.len() - i,
    {
        out.push(entries[order[i]].clone());
        i += 1;
    }
    proof {
        assert forall|a: int, b: int| 0 <= a < b < order@.len() implies heavier(
            entries@,
            (#[trigger] order@[a]) as int,
            (#[trigger] order@[b]) as int,
        ) by {
            assert(ranking.before(order@[a] as int, order@[b] as int));
        }
        assert(order@.len() == entries@.len());
    }
    out
}

/// Whether the extension is one that camera raw files carry.
fn raw(extension: &str) -> (out: bool)
    ensures
        out == is_raw(extension@),
{
    let name = small_of(extension);
    let name = name.as_str();
    text::same(name, "nef") || text::same(name, "nrw") || text::same(name, "cr2") || text::same(
        name,
        "cr3",
    ) || text::same(name, "arw") || text::same(name, "dng") || text::same(name, "orf")
        || text::same(name, "pef") || text::same(name, "raf") || text::same(name, "rw2")
        || text::same(name, "srw")
}

/// `value` with the capital letters of ASCII made small.
fn small_of(value: &str) -> (out: String)
    ensures
        out@ == value@.map_values(|c: char| small(c)),
{
    let chars = text::chars_of(value);
    let mut out = String::new();
    let mut i: usize = 0;
    assert(out@ =~= value@.take(0).map_values(|c: char| small(c)));
    while i < chars.len()
        invariant
            i <= chars@.len(),
            chars@ == value@,
            out@ == value@.take(i as int).map_values(|c: char| small(c)),
        decreases chars@.len() - i,
    {
        let c = chars[i];
        if 'A' <= c && c <= 'Z' {
            let code: u8 = c as u8 + 32;
            out.push(code as char);
        } else {
            out.push(c);
        }
        i += 1;
        assert(out@ =~= value@.take(i as int).map_values(|c: char| small(c)));
    }
    assert(value@.take(i as int) =~= value@);
    out
}

/// What a file found under the root with these components counts as.
fn kind_of(root: &Vec<String>, found: &Found, Ghost(root_path): Ghost<Seq<char>>) -> (out: Kind)
    requires
        text::views(root@) == paths::components(root_path),
    ensures
        out == kind(root_path, *found),
{
    let parts = paths::components_of(found.path.as_str());
    match paths::strip_root(&parts, root) {
        Some(rest) => {
            if rest.len() > 1 {
                assert(text::views(rest@)[0] == rest@[0]@);
                if text::same(rest[0].as_str(), OUTPUT_DIR) {
                    return Kind::Output;
                }
            }
        },
        None => {},
    }
    match paths::file_name(found.path.as_str()) {
        Some(name) => match paths::suffix_of(name.as_str()) {
            Some(extension) => {
                if raw(extension.as_str()) {
                    return Kind::Raw;
                }
            },
            None => {},
        },
        None => {},
    }
    if found.header.is_some() {
        Kind::Image
    } else if claimed(found.path.as_str()).is_some() {
        Kind::Unreadable
    } else {
        Kind::Other
    }
}

/// The contents begin with `mark`.
pub open spec fn begins(contents: Seq<u8>, mark: Seq<u8>) -> bool {
    mark.is_prefix_of(contents)
}

/// The contents hold `mark` from `from` on.
pub open spec fn holds(contents: Seq<u8>, from: int, mark: Seq<u8>) -> bool {
    from + mark.len() <= contents.len() && contents.subrange(from, from + mark.len()) == mark
}

/// The format that the bytes at the beginning of a file mark it as.
pub open spec fn marked_format(contents: Seq<u8>) -> Option<ImageFormat> {
    if begins(contents, seq![0x89u8, 0x50, 0x4e, 0x47, 0x0d, 0x0a, 0x1a, 0x0a]) {
        Some(ImageFormat::Png)
    } else if begins(contents, seq![0xffu8, 0xd8, 0xff]) {
        Some(ImageFormat::Jpeg)
    } else if begins(contents, seq![0x47u8, 0x49, 0x46, 0x38, 0x39, 0x61]) || begins(
        contents,
        seq![0x47u8, 0x49, 0x46, 0x38, 0x37, 0x61],
    ) {
        Some(ImageFormat::Gif)
    } else if begins(contents, seq![0x52u8, 0x49, 0x46, 0x46]) && holds(
        contents,
        8,
        seq![0x57u8, 0x45, 0x42, 0x50],
    ) {
        Some(ImageFormat::WebP)
    } else if begins(contents, seq![0x4du8, 0x4d, 0x00, 0x2a]) || begins(
        contents,
        seq![0x49u8, 0x49, 0x2a, 0x00],
    ) {
        Some(ImageFormat::Tiff)
    } else if begins(contents, seq![0x44u8, 0x44, 0x53, 0x20]) {
        Some(ImageFormat::Dds)
    } else if begins(contents, seq![0x42u8, 0x4d]) {
        Some(ImageFormat::Bmp)
    } else if begins(contents, seq![0x00u8, 0x00, 0x01, 0x00]) {
        Some(ImageFormat::Ico)
    } else if begins(
        contents,
        seq![0x23u8, 0x3f, 0x52, 0x41, 0x44, 0x49, 0x41, 0x4e, 0x43, 0x45],
    ) {
        Some(ImageFormat::Hdr)
    } else if begins(contents, seq![0x00u8, 0x00]) && holds(
        contents,
        4,
        seq![0x66u8, 0x74, 0x79, 0x70, 0x61, 0x76, 0x69, 0x66],
    ) {
        Some(ImageFormat::Avif)
    } else if begins(contents, seq![0x76u8, 0x2f, 0x31, 0x01]) {
        Some(ImageFormat::OpenExr)
    } else if begins(contents, seq![0x71u8, 0x6f, 0x69, 0x66]) {
        Some(ImageFormat::Qoi)
    } else if contents.len() >= 2 && contents[0] == 0x50 && 0x31 <= contents[1] <= 0x37 {
        Some(ImageFormat::Pnm)
    } else if begins(contents, seq![0x66u8, 0x61, 0x72, 0x62, 0x66, 0x65, 0x6c, 0x64]) {
        Some(ImageFormat::Farbfeld)
    } else {
        None
    }
}

/// `image::guess_format` knows a format by the bytes a file begins with: the first of its
/// signatures that fits, or nothing where none does. TGA has none.
#[verifier::external_body]
fn guessed_format(contents: &Vec<u8>) -> (out: Option<ImageFormat>)
    ensures
        out == marked_format(contents@),
{
    Some(match image::guess_format(contents).ok()? {
        Known::Png => ImageFormat::Png,
        Known::Jpeg => ImageFormat::Jpeg,
        Known::Gif => ImageFormat::Gif,
        Known::WebP => ImageFormat::WebP,
        Known::Pnm => ImageFormat::Pnm,
        Known::Tiff => ImageFormat::Tiff,
        Known::Tga => ImageFormat::Tga,
        Known::Dds => ImageFormat::Dds,
        Known::Bmp => ImageFormat::Bmp,
        Known::Ico => ImageFormat::Ico,
        Known::Hdr => ImageFormat::Hdr, Known::OpenExr => ImageFormat::OpenExr,
        Known::Farbfeld => ImageFormat::Farbfeld, Known::Avif => ImageFormat::Avif,
        Known::Qoi => ImageFormat::Qoi, _ => return None,
    })
}

/// The size that `image::ImageReader` reads off the header of a file with these contents,
/// taken as the format that goes by `extension`, on a machine with addresses of so many
/// bits; or nothing.
pub uninterp spec fn measured(contents: Seq<u8>, extension: Seq<char>, bits: u32) -> Option<
    (u32, u32),
>;

/// `image::ImageReader::into_dimensions` reads the header of a file and decodes nothing.
/// Here it is told the format, by an extension it goes by, so neither the path nor a hook
/// has a say. A panic inside a codec is not excluded.
#[verifier::external_body]
fn measure(contents: &Vec<u8>, extension: &str) -> (out: Option<(u32, u32)>)
    ensures
        out == measured(contents@, extension@, usize::BITS),
{
    let known = Known::from_extension(extension)?;
    ImageReader::with_format(Cursor::new(contents), known).into_dimensions().ok()
}

/// The format a file is read as: the one its content marks it as, and where that says
/// nothing the one its extension stands for.
pub open spec fn format_in(path: Seq<char>, contents: Seq<u8>) -> Option<ImageFormat> {
    match marked_format(contents) {
        Some(format) => Some(format),
        None => claimed_format(path),
    }
}

/// The format and size a file's header gives, where it is an image we can read.
pub open spec fn header_of(path: Seq<char>, contents: Seq<u8>) -> Option<(ImageFormat, u32, u32)> {
    match format_in(path, contents) {
        Some(format) => match measured(contents, first_extension(format), usize::BITS) {
            Some((width, height)) => Some((format, width, height)),
            None => None,
        },
        None => None,
    }
}

/// The format is read from the content: files that hold the same bytes, marked as a
/// format, read as that format and as the same size, whatever they are called.
pub proof fn law_the_content_decides_the_format(p: Seq<char>, q: Seq<char>, contents: Seq<u8>)
    requires
        marked_format(contents) is Some,
    ensures
        header_of(p, contents) == header_of(q, contents),
        header_of(p, contents) matches Some((format, _, _)) ==> marked_format(contents) == Some(
            format,
        ),
        header_of(p, contents) is Some == measured(
            contents,
            first_extension(marked_format(contents)->0),
            usize::BITS,
        ) is Some,
{
}

impl Found {
    /// A file of the walk: where it is, what it weighs on disk, and what it holds. The
    /// beginning of the file is enough where its header stands there.
    pub fn read(path: String, bytes: u64, contents: &Vec<u8>) -> (out: Self)
        ensures
            out.path == path,
            out.bytes == bytes,
            out.header == header_of(path@, contents@),
    {
        let format = match guessed_format(contents) {
            Some(format) => Some(format),
            None => claimed(path.as_str()),
        };
        let header = match format {
            Some(format) => match listed_extension(format) {
                Some(extension) => match measure(contents, extension) {
                    Some((width, height)) => Some((format, width, height)),
                    None => None,
                },
                None => None,
            },
            None => None,
        };
        Found { path, bytes, header }
    }
}

/// Read one file's header. `None` when it is not an image we can read.
pub fn probe(path: &str, bytes: u64, contents: &Vec<u8>) -> (out: Option<Entry>)
    ensures
        out is Some == header_of(path@, contents@) is Some,
        out matches Some(entry) ==> {
            &&& entry.path@ == path@
            &&& entry.bytes == bytes
            &&& header_of(path@, contents@) == Some((entry.format, entry.width, entry.height))
        },
{
    entry_of(&Found::read(path.to_string(), bytes, contents))
}

/// The entry for a file of the walk. `None` when it is not an image we can read.
pub fn entry_of(found: &Found) -> (out: Option<Entry>)
    ensures
        out is Some == found.header is Some,
        out matches Some(entry) ==> probed(*found, entry),
{
    match found.header {
        Some((format, width, height)) => Some(
            Entry { path: found.path.clone(), format, width, height, bytes: found.bytes },
        ),
        None => None,
    }
}

/// One more file at the end of a list adds itself to its own kind and to no other.
proof fn lemma_next_of_kind(root: Seq<char>, found: Seq<Found>, i: int, wanted: Kind)
    requires
        0 <= i < found.len(),
    ensures
        of_kind(root, found.take(i + 1), wanted) == if kind(root, found[i]) == wanted {
            of_kind(root, found.take(i), wanted).push(found[i])
        } else {
            of_kind(root, found.take(i), wanted)
        },
        of_kind(root, found.take(i), wanted).len() <= i,
{
    reveal(Seq::filter);
    assert(found.take(i + 1).drop_last() =~= found.take(i));
    assert(found.take(i + 1).last() == found[i]);
    found.take(i).lemma_filter_len(|f: Found| kind(root, f) == wanted);
}

/// The entries are the images among what was found, heaviest first.
pub open spec fn are_images(root: Seq<char>, found: Seq<Found>, entries: Seq<Entry>) -> bool {
    exists|images: Seq<Entry>|
        {
            &&& #[trigger] is_heaviest_first(images, entries)
            &&& images.len() == of_kind(root, found, Kind::Image).len()
            &&& forall|i: int|
                0 <= i < images.len() ==> probed(
                    of_kind(root, found, Kind::Image)[i],
                    #[trigger] images[i],
                )
        }
}

/// The scan sorts out what was found: images heaviest first, camera raw and earlier output
/// counted, files that would not read named.
pub open spec fn is_scan_of(root: Seq<char>, found: Seq<Found>, scan: Scan) -> bool {
    &&& scan.skipped_raw == of_kind(root, found, Kind::Raw).len()
    &&& scan.existing_output == of_kind(root, found, Kind::Output).len()
    &&& text::views(scan.unreadable@) == of_kind(root, found, Kind::Unreadable).map_values(
        |f: Found| f.path@,
    )
    &&& are_images(root, found, scan.entries@)
}

/// Sort out what the walk under `root` found: images heaviest first, camera raw and
/// earlier output counted, files that would not read named.
pub fn scan(root: &str, found: &Vec<Found>) -> (out: Scan)
    ensures
        is_scan_of(root@, found@, out),
{
    let parts = paths::components_of(root);
    let mut images: Vec<Entry> = Vec::new();
    let mut unreadable: Vec<String> = Vec::new();
    let mut skipped_raw: usize = 0;
    let mut existing_output: usize = 0;
    let mut i: usize = 0;
    proof {
        reveal(Seq::filter);
        assert(found@.take(0).len() == 0);
        assert(text::views(unreadable@) =~= of_kind(
            root@,
            found@.take(0),
            Kind::Unreadable,
        ).map_values(|f: Found| f.path@));
    }
    while i < found.len()
        invariant
            i <= found@.len(),
            text::views(parts@) == paths::components(root@),
            skipped_raw == of_kind(root@, found@.take(i as int), Kind::Raw).len() <= i,
            existing_output == of_kind(root@, found@.take(i as int), Kind::Output).len() <= i,
            text::views(unreadable@) == of_kind(
                root@,
                found@.take(i as int),
                Kind::Unreadable,
            ).map_values(|f: Found| f.path@),
            images@.len() == of_kind(root@, found@.take(i as int), Kind::Image).len(),
            forall|j: int|
                0 <= j < images@.len() ==> probed(
                    of_kind(root@, found@.take(i as int), Kind::Image)[j],
                    #[trigger] images@[j],
                ),
        decreases found@.len() - i,
    {
        proof {
            lemma_next_of_kind(root@, found@, i as int, Kind::Raw);
            lemma_next_of_kind(root@, found@, i as int, Kind::Output);
            lemma_next_of_kind(root@, found@, i as int, Kind::Unreadable);
            lemma_next_of_kind(root@, found@, i as int, Kind::Image);
        }
        let ghost (had, named) = (unreadable@, of_kind(
            root@,
            found@.take(i as int),
            Kind::Unreadable,
        ));
        match kind_of(&parts, &found[i], Ghost(root@)) {
            Kind::Output => {
                existing_output += 1;
            },
            Kind::Raw => {
                skipped_raw += 1;
            },
            Kind::Image => {
                match entry_of(&found[i]) {
                    Some(entry) => {
                        images.push(entry);
                    },
                    None => {},
                }
            },
            Kind::Unreadable => {
                unreadable.push(found[i].path.clone());
                assert(text::views(unreadable@) =~= text::views(had).push(found@[i as int].path@));
                assert(named.push(found@[i as int]).map_values(|f: Found| f.path@)
                    =~= named.map_values(|f: Found| f.path@).push(found@[i as int].path@));
            },
            Kind::Other => {},
        }
        i += 1;
    }
    assert(found@.take(i as int) =~= found@);
    let ghost all = images@;
    let entries = heaviest_first(images);
    let out = Scan { entries, skipped_raw, unreadable, existing_output };
    proof {
        assert(is_heaviest_first(all, out.entries@));
        assert(all.len() == of_kind(root@, found@, Kind::Image).len());
        assert forall|j: int| 0 <= j < all.len() implies probed(
            of_kind(root@, found@, Kind::Image)[j],
            #[trigger] all[j],
        ) by {
        }
    }
    out
}

/// The folder a single file is opened under.
pub open spec fn folder_of(path: Seq<char>) -> Seq<char> {
    match paths::parent_text(path) {
        Some(parent) => parent,
        None => "."@,
    }
}

/// Open one file on its own: a scan of nothing but it, under its folder. `None` when it
/// is not an image we can read.
pub fn scan_single(found: &Found) -> (out: Option<(Scan, String)>)
    ensures
        out is Some == found.header is Some,
        out matches Some((scan, root)) ==> {
            &&& scan.entries@.len() == 1
            &&& probed(*found, scan.entries@[0])
            &&& scan.skipped_raw == 0
            &&& scan.unreadable@.len() == 0
            &&& scan.existing_output == 0
            &&& root@ == folder_of(found.path@)
        },
{
    match entry_of(found) {
        Some(entry) => {
            let mut entries: Vec<Entry> = Vec::new();
            entries.push(entry);
            let root = match paths::parent(found.path.as_str()) {
                Some(parent) => parent,
                None => ".".to_string(),
            };
            Some(
                (Scan { entries, skipped_raw: 0, unreadable: Vec::new(), existing_output: 0 }, root),
            )
        },
        None => None,
    }
}

/// Every entry of a scan is a file that was found, and none lies in the output folder.
pub proof fn law_a_scan_leaves_out_earlier_output(
    root: Seq<char>,
    found: Seq<Found>,
    entries: Seq<Entry>,
    k: int,
)
    requires
        are_images(root, found, entries),
        0 <= k < entries.len(),
    ensures
        !is_output(root, entries[k].path@),
        exists|j: int| 0 <= j < found.len() && (#[trigger] found[j]).path@ == entries[k].path@,
{
    let kept = of_kind(root, found, Kind::Image);
    let images = choose|images: Seq<Entry>|
        {
            &&& #[trigger] is_heaviest_first(images, entries)
            &&& images.len() == kept.len()
            &&& forall|i: int| 0 <= i < images.len() ==> probed(kept[i], #[trigger] images[i])
        };
    let order = choose|order: Seq<usize>|
        {
            &&& #[trigger] order.len() == images.len()
            &&& entries.len() == images.len()
            &&& forall|i: int| 0 <= i < order.len() ==> (#[trigger] order[i]) < images.len()
            &&& forall|i: int|
                0 <= i < order.len() ==> entries[i] == images[#[trigger] order[i] as int]
        };
    let at = order[k] as int;
    assert(entries[k] == images[at]);
    assert(probed(kept[at], images[at]));
    found.lemma_filter_contains_rev(|f: Found| kind(root, f) == Kind::Image, kept[at]);
    found.lemma_filter_pred(|f: Found| kind(root, f) == Kind::Image, at);
}

/// A file opened on its own does not lie in the output folder of the folder it is opened
/// under.
pub proof fn law_a_file_alone_is_no_output(path: Seq<char>)
    ensures
        !is_output(folder_of(path), path),
{
    let parts = paths::components(path);
    let front = parts.drop_last();
    paths::lemma_components_are_spelled(path);
    if parts.len() > 0 && parts.last() != seq!['/'] {
        assert(paths::is_spelled(front)) by {
            assert forall|i: int| 0 <= i < front.len() implies {
                ||| i == 0 && front[0] == seq!['/']
                ||| {
                    &&& (#[trigger] front[i]).len() > 0
                    &&& !front[i].contains('/')
                    &&& front[i] == seq!['.'] ==> i == 0
                }
            } by {
                assert(front[i] == parts[i]);
            }
        }
        paths::law_written_path_reads_back(front);
    } else if parts.len() > 0 {
        assert(parts.len() == 1) by {
            let last = parts.len() - 1;
            assert(parts[last] == seq!['/']);
            assert(seq!['/'].contains('/')) by {
                assert(seq!['/'][0] == '/');
            }
        }
    }
}

/// `word` is spelled with these letters, each of them small or a capital.
pub open spec fn is_spelled_with(word: Seq<char>, smalls: Seq<char>, capitals: Seq<char>) -> bool {
    &&& word.len() == smalls.len()
    &&& forall|i: int|
        0 <= i < word.len() ==> (#[trigger] word[i]) == smalls[i] || word[i] == capitals[i]
}

/// The extensions camera raw files go by, in any capitals.
pub open spec fn is_camera_raw(extension: Seq<char>) -> bool {
    ||| is_spelled_with(extension, seq!['n', 'e', 'f'], seq!['N', 'E', 'F'])
    ||| is_spelled_with(extension, seq!['n', 'r', 'w'], seq!['N', 'R', 'W'])
    ||| is_spelled_with(extension, seq!['c', 'r', '2'], seq!['C', 'R', '2'])
    ||| is_spelled_with(extension, seq!['c', 'r', '3'], seq!['C', 'R', '3'])
    ||| is_spelled_with(extension, seq!['a', 'r', 'w'], seq!['A', 'R', 'W'])
    ||| is_spelled_with(extension, seq!['d', 'n', 'g'], seq!['D', 'N', 'G'])
    ||| is_spelled_with(extension, seq!['o', 'r', 'f'], seq!['O', 'R', 'F'])
    ||| is_spelled_with(extension, seq!['p', 'e', 'f'], seq!['P', 'E', 'F'])
    ||| is_spelled_with(extension, seq!['r', 'a', 'f'], seq!['R', 'A', 'F'])
    ||| is_spelled_with(extension, seq!['r', 'w', '2'], seq!['R', 'W', '2'])
    ||| is_spelled_with(extension, seq!['s', 'r', 'w'], seq!['S', 'R', 'W'])
}

proof fn lemma_spelled_small(word: Seq<char>, smalls: Seq<char>, capitals: Seq<char>)
    requires
        smalls.len() == capitals.len(),
        forall|i: int|
            0 <= i < smalls.len() ==> {
                ||| {
                    &&& 'A' <= capitals[i] && capitals[i] <= 'Z'
                    &&& 'a' <= (#[trigger] smalls[i]) && smalls[i] <= 'z'
                    &&& capitals[i] as u32 + 32 == smalls[i] as u32
                }
                ||| '0' <= smalls[i] && smalls[i] <= '9' && capitals[i] == smalls[i]
            },
    ensures
        word.map_values(|c: char| small(c)) == smalls <==> is_spelled_with(word, smalls, capitals),
{
    let made = word.map_values(|c: char| small(c));
    if made == smalls {
        assert forall|i: int| 0 <= i < word.len() implies (#[trigger] word[i]) == smalls[i]
            || word[i] == capitals[i] by {
            let c = word[i];
            assert(made[i] == small(c));
            assert(made[i] == smalls[i]);
            if 'A' <= c && c <= 'Z' {
                assert(small(c) as u32 == c as u32 + 32);
                assert(c as u32 == capitals[i] as u32);
            }
        }
    }
    if is_spelled_with(word, smalls, capitals) {
        assert forall|i: int| 0 <= i < word.len() implies #[trigger] made[i] == smalls[i] by {
            assert(word[i] == smalls[i] || word[i] == capitals[i]);
        }
        assert(made =~= smalls);
    }
}

/// The list of extensions that count as camera raw is just the one spelled out.
proof fn lemma_raw_is_camera_raw(extension: Seq<char>)
    ensures
        is_raw(extension) <==> is_camera_raw(extension),
{
    reveal_strlit("nef");
    reveal_strlit("nrw");
    reveal_strlit("cr2");
    reveal_strlit("cr3");
    reveal_strlit("arw");
    reveal_strlit("dng");
    reveal_strlit("orf");
    reveal_strlit("pef");
    reveal_strlit("raf");
    reveal_strlit("rw2");
    reveal_strlit("srw");
    assert("nef"@ =~= seq!['n', 'e', 'f']);
    assert("nrw"@ =~= seq!['n', 'r', 'w']);
    assert("cr2"@ =~= seq!['c', 'r', '2']);
    assert("cr3"@ =~= seq!['c', 'r', '3']);
    assert("arw"@ =~= seq!['a', 'r', 'w']);
    assert("dng"@ =~= seq!['d', 'n', 'g']);
    assert("orf"@ =~= seq!['o', 'r', 'f']);
    assert("pef"@ =~= seq!['p', 'e', 'f']);
    assert("raf"@ =~= seq!['r', 'a', 'f']);
    assert("rw2"@ =~= seq!['r', 'w', '2']);
    assert("srw"@ =~= seq!['s', 'r', 'w']);
    lemma_spelled_small(extension, seq!['n', 'e', 'f'], seq!['N', 'E', 'F']);
    lemma_spelled_small(extension, seq!['n', 'r', 'w'], seq!['N', 'R', 'W']);
    lemma_spelled_small(extension, seq!['c', 'r', '2'], seq!['C', 'R', '2']);
    lemma_spelled_small(extension, seq!['c', 'r', '3'], seq!['C', 'R', '3']);
    lemma_spelled_small(extension, seq!['a', 'r', 'w'], seq!['A', 'R', 'W']);
    lemma_spelled_small(extension, seq!['d', 'n', 'g'], seq!['D', 'N', 'G']);
    lemma_spelled_small(extension, seq!['o', 'r', 'f'], seq!['O', 'R', 'F']);
    lemma_spelled_small(extension, seq!['p', 'e', 'f'], seq!['P', 'E', 'F']);
    lemma_spelled_small(extension, seq!['r', 'a', 'f'], seq!['R', 'A', 'F']);
    lemma_spelled_small(extension, seq!['r', 'w', '2'], seq!['R', 'W', '2']);
    lemma_spelled_small(extension, seq!['s', 'r', 'w'], seq!['S', 'R', 'W']);
}

/// The path is a folder, or nothing, and the name of a file in it.
pub open spec fn is_file_in(path: Seq<char>, folder: Seq<char>, name: Seq<char>) -> bool {
    &&& path == folder + name
    &&& folder.len() == 0 || folder.last() == '/'
    &&& name.len() > 0
    &&& !name.contains('/')
    &&& name != seq!['.']
    &&& name != seq!['.', '.']
}

/// The path lies below the output folder of the root, at any depth.
pub open spec fn is_below_output(root: Seq<char>, path: Seq<char>) -> bool {
    let (parts, base) = (paths::components(path), paths::components(root));
    &&& parts.len() > base.len() + 1
    &&& parts.take(base.len() as int + 1) == base.push(
        seq!['o', 'p', 't', 'i', 'm', 'i', 'z', 'e', 'd'],
    )
}

/// What lies in the output folder is what lies below the folder `optimized` of the root.
pub proof fn law_the_output_folder_is_optimized(root: Seq<char>, path: Seq<char>)
    ensures
        is_output(root, path) <==> is_below_output(root, path),
{
    reveal_strlit("optimized");
    let name = seq!['o', 'p', 't', 'i', 'm', 'i', 'z', 'e', 'd'];
    assert(OUTPUT_DIR@ =~= name);
    let (parts, base) = (paths::components(path), paths::components(root));
    let n = base.len() as int;
    if is_output(root, path) {
        assert(base =~= parts.subrange(0, n));
        assert(parts.skip(n)[0] == parts[n]);
        assert(parts.take(n + 1) =~= base.push(name));
    }
    if is_below_output(root, path) {
        assert(base =~= parts.subrange(0, n)) by {
            assert forall|i: int| 0 <= i < n implies base[i] == parts[i] by {
                assert(parts.take(n + 1)[i] == base.push(name)[i]);
            }
        }
        assert(parts.take(n + 1)[n] == name);
        assert(parts.skip(n)[0] == name);
    }
}

/// A name of a stem and an extension.
pub open spec fn dotted(stem: Seq<char>, extension: Seq<char>) -> Seq<char> {
    stem + seq!['.'] + extension
}

/// What a file's name says decides whether it is camera raw: the letters behind its last
/// dot.
proof fn lemma_named_raw(path: Seq<char>, folder: Seq<char>, name: Seq<char>)
    requires
        is_file_in(path, folder, name),
    ensures
        (extension_of(path) is Some && is_raw(extension_of(path)->0)) <==> exists|stem: Seq<char>, extension: Seq<char>| {
            &&& stem.len() > 0
            &&& is_camera_raw(extension)
            &&& name == #[trigger] dotted(stem, extension)
        },
{
    paths::law_a_path_ends_in_its_file_name(folder, name);
    if extension_of(path) is Some && is_raw(extension_of(path)->0) {
        let (stem, extension) = (paths::stem(name), extension_of(path)->0);
        lemma_raw_is_camera_raw(extension);
        name.index_of_last_ensures('.');
        assert(name =~= dotted(stem, extension));
    }
    if exists|stem: Seq<char>, extension: Seq<char>| {
        &&& stem.len() > 0
        &&& is_camera_raw(extension)
        &&& name == #[trigger] dotted(stem, extension)
    } {
        let (stem, extension) = choose|stem: Seq<char>, extension: Seq<char>| {
            &&& stem.len() > 0
            &&& is_camera_raw(extension)
            &&& name == #[trigger] dotted(stem, extension)
        };
        lemma_raw_has_no_dot(extension);
        paths::law_the_last_dot_parts_a_name(stem, extension);
        lemma_raw_is_camera_raw(extension);
    }
}

proof fn lemma_raw_has_no_dot(extension: Seq<char>)
    requires
        is_camera_raw(extension),
    ensures
        extension.len() == 3,
        !extension.contains('.'),
        !extension.contains('/'),
{
    if extension.contains('.') {
        let i = choose|i: int| 0 <= i < extension.len() && extension[i] == '.';
        assert(extension[i] == '.');
    }
    if extension.contains('/') {
        let i = choose|i: int| 0 <= i < extension.len() && extension[i] == '/';
        assert(extension[i] == '/');
    }
}

/// A camera raw file outside the output folder, by the extension it ends in, in any
/// capitals, is counted and not listed, whatever its header says.
pub proof fn law_camera_raw_is_counted_and_not_listed(
    root: Seq<char>,
    found: Seq<Found>,
    scan: Scan,
    j: int,
    folder: Seq<char>,
    stem: Seq<char>,
    extension: Seq<char>,
)
    requires
        is_scan_of(root, found, scan),
        0 <= j < found.len(),
        found[j].path@ == folder + stem + seq!['.'] + extension,
        folder.len() == 0 || folder.last() == '/',
        stem.len() > 0,
        !stem.contains('/'),
        is_camera_raw(extension),
        !is_below_output(root, found[j].path@),
    ensures
        kind(root, found[j]) is Raw,
        scan.skipped_raw >= 1,
        forall|k: int|
            0 <= k < scan.entries@.len() ==> (#[trigger] scan.entries@[k]).path@ != found[j].path@,
        !text::views(scan.unreadable@).contains(found[j].path@),
{
    let path = found[j].path@;
    let name = dotted(stem, extension);
    lemma_raw_has_no_dot(extension);
    assert(!name.contains('/')) by {
        if name.contains('/') {
            let i = choose|i: int| 0 <= i < name.len() && name[i] == '/';
            if i < stem.len() {
                assert(stem[i] == '/');
            } else if i > stem.len() {
                assert(extension[i - stem.len() - 1] == '/');
            }
        }
    }
    assert(path =~= folder + name);
    assert(is_file_in(path, folder, name));
    lemma_named_raw(path, folder, name);
    law_the_output_folder_is_optimized(root, path);
    found.lemma_filter_contains(|f: Found| kind(root, f) == Kind::Raw, j);
    assert forall|k: int| 0 <= k < scan.entries@.len() implies (#[trigger] scan.entries@[k]).path@
        != path by {
        let at = lemma_entry_is_found(root, found, scan.entries@, k);
    }
    if text::views(scan.unreadable@).contains(path) {
        lemma_unreadable_is_found(root, found, scan, path);
    }
}

/// An entry is one of the files found that count as images.
proof fn lemma_entry_is_found(root: Seq<char>, found: Seq<Found>, entries: Seq<Entry>, k: int) -> (j:
    int)
    requires
        are_images(root, found, entries),
        0 <= k < entries.len(),
    ensures
        0 <= j < found.len(),
        kind(root, found[j]) is Image,
        probed(found[j], entries[k]),
{
    let kept = of_kind(root, found, Kind::Image);
    let images = choose|images: Seq<Entry>|
        {
            &&& #[trigger] is_heaviest_first(images, entries)
            &&& images.len() == kept.len()
            &&& forall|i: int| 0 <= i < images.len() ==> probed(kept[i], #[trigger] images[i])
        };
    let order = choose|order: Seq<usize>|
        {
            &&& #[trigger] order.len() == images.len()
            &&& entries.len() == images.len()
            &&& forall|i: int| 0 <= i < order.len() ==> (#[trigger] order[i]) < images.len()
            &&& forall|i: int|
                0 <= i < order.len() ==> entries[i] == images[#[trigger] order[i] as int]
        };
    let at = order[k] as int;
    assert(entries[k] == images[at]);
    assert(probed(kept[at], images[at]));
    found.lemma_filter_contains_rev(|f: Found| kind(root, f) == Kind::Image, kept[at]);
    found.lemma_filter_pred(|f: Found| kind(root, f) == Kind::Image, at);
    choose|j: int| 0 <= j < found.len() && found[j] == kept[at]
}

proof fn lemma_unreadable_is_found(
    root: Seq<char>,
    found: Seq<Found>,
    scan: Scan,
    path: Seq<char>,
) -> (j: int)
    requires
        is_scan_of(root, found, scan),
        text::views(scan.unreadable@).contains(path),
    ensures
        0 <= j < found.len(),
        kind(root, found[j]) is Unreadable,
        found[j].path@ == path,
{
    let kept = of_kind(root, found, Kind::Unreadable);
    let at = choose|at: int|
        0 <= at < text::views(scan.unreadable@).len() && text::views(scan.unreadable@)[at] == path;
    assert(kept.map_values(|f: Found| f.path@)[at] == kept[at].path@);
    found.lemma_filter_contains_rev(|f: Found| kind(root, f) == Kind::Unreadable, kept[at]);
    found.lemma_filter_pred(|f: Found| kind(root, f) == Kind::Unreadable, at);
    choose|j: int| 0 <= j < found.len() && found[j] == kept[at]
}

/// Every file that was found is accounted for. Below the output folder it is counted as
/// output. Elsewhere, where its name does not end as camera raw does: with a header that
/// could be read it is listed, with the format, the size and the bytes it was found with;
/// without one it is named as unreadable just where its extension stands for a format.
pub proof fn law_a_scan_accounts_for_every_file(
    root: Seq<char>,
    found: Seq<Found>,
    scan: Scan,
    j: int,
    folder: Seq<char>,
    name: Seq<char>,
)
    requires
        is_scan_of(root, found, scan),
        0 <= j < found.len(),
        is_file_in(found[j].path@, folder, name),
    ensures
        is_below_output(root, found[j].path@) ==> {
            &&& scan.existing_output >= 1
            &&& forall|k: int|
                0 <= k < scan.entries@.len() ==> (#[trigger] scan.entries@[k]).path@
                    != found[j].path@
        },
        !is_below_output(root, found[j].path@) && (forall|stem: Seq<char>, extension: Seq<char>|
            stem.len() > 0 && is_camera_raw(extension) ==> name != #[trigger] dotted(stem, extension)) ==> match found[j].header {
            Some((format, width, height)) => exists|k: int|
                {
                    &&& 0 <= k < scan.entries@.len()
                    &&& (#[trigger] scan.entries@[k]).path@ == found[j].path@
                    &&& scan.entries@[k].format == format
                    &&& scan.entries@[k].width == width
                    &&& scan.entries@[k].height == height
                    &&& scan.entries@[k].bytes == found[j].bytes
                },
            None => claimed_format(found[j].path@) is Some ==> text::views(
                scan.unreadable@,
            ).contains(found[j].path@),
        },
{
    let path = found[j].path@;
    law_the_output_folder_is_optimized(root, path);
    lemma_named_raw(path, folder, name);
    if is_below_output(root, path) {
        found.lemma_filter_contains(|f: Found| kind(root, f) == Kind::Output, j);
        assert forall|k: int| 0 <= k < scan.entries@.len() implies (
        #[trigger] scan.entries@[k]).path@ != path by {
            let at = lemma_entry_is_found(root, found, scan.entries@, k);
        }
    } else if kind(root, found[j]) is Image {
        let kept = of_kind(root, found, Kind::Image);
        found.lemma_filter_contains(|f: Found| kind(root, f) == Kind::Image, j);
        let at = choose|at: int| 0 <= at < kept.len() && kept[at] == found[j];
        let images = choose|images: Seq<Entry>|
            {
                &&& #[trigger] is_heaviest_first(images, scan.entries@)
                &&& images.len() == kept.len()
                &&& forall|i: int| 0 <= i < images.len() ==> probed(kept[i], #[trigger] images[i])
            };
        let order = choose|order: Seq<usize>|
            {
                &&& #[trigger] order.len() == images.len()
                &&& scan.entries@.len() == images.len()
                &&& order.no_duplicates()
                &&& forall|i: int| 0 <= i < order.len() ==> (#[trigger] order[i]) < images.len()
                &&& forall|i: int|
                    0 <= i < order.len() ==> scan.entries@[i] == images[#[trigger] order[i] as int]
            };
        assert(scan.entries@.len() == scan.entries.len());
        order::lemma_none_is_left_out(order, at as usize);
        let k = choose|k: int| 0 <= k < order.len() && order[k] == at as usize;
        assert(scan.entries@[k] == images[at]);
        assert(probed(kept[at], images[at]));
    } else if kind(root, found[j]) is Unreadable {
        let kept = of_kind(root, found, Kind::Unreadable);
        found.lemma_filter_contains(|f: Found| kind(root, f) == Kind::Unreadable, j);
        let at = choose|at: int| 0 <= at < kept.len() && kept[at] == found[j];
        let named = kept.map_values(|f: Found| f.path@);
        assert(named[at] == path);
    }
}

/// A scan lists nothing but what was found, as it was found, heaviest first.
pub proof fn law_a_scan_lists_what_was_found(
    root: Seq<char>,
    found: Seq<Found>,
    scan: Scan,
    i: int,
    k: int,
)
    requires
        is_scan_of(root, found, scan),
        0 <= i < k < scan.entries@.len(),
    ensures
        scan.entries@[i].bytes >= scan.entries@[k].bytes,
        exists|j: int|
            {
                &&& 0 <= j < found.len()
                &&& (#[trigger] found[j]).path@ == scan.entries@[k].path@
                &&& found[j].bytes == scan.entries@[k].bytes
                &&& found[j].header == Some(
                    (scan.entries@[k].format, scan.entries@[k].width, scan.entries@[k].height),
                )
            },
{
    let j = lemma_entry_is_found(root, found, scan.entries@, k);
    let images = choose|images: Seq<Entry>| #[trigger] is_heaviest_first(images, scan.entries@);
    let order = choose|order: Seq<usize>|
        {
            &&& #[trigger] order.len() == images.len()
            &&& scan.entries@.len() == images.len()
            &&& forall|i: int|
                0 <= i < order.len() ==> scan.entries@[i] == images[#[trigger] order[i] as int]
            &&& forall|i: int, j: int|
                0 <= i < j < order.len() ==> heavier(
                    images,
                    (#[trigger] order[i]) as int,
                    (#[trigger] order[j]) as int,
                )
        };
    assert(heavier(images, order[i] as int, order[k] as int));
}

/// The path ends in a name that ends as camera raw does.
pub open spec fn ends_as_raw(path: Seq<char>) -> bool {
    exists|folder: Seq<char>, stem: Seq<char>, extension: Seq<char>|
        {
            &&& stem.len() > 0
            &&& is_camera_raw(extension)
            &&& #[trigger] is_file_in(path, folder, dotted(stem, extension))
        }
}

/// Filters that agree on what is in a list keep the same of it.
proof fn lemma_filters_agree(found: Seq<Found>, p: spec_fn(Found) -> bool, q: spec_fn(Found) -> bool)
    requires
        forall|i: int| 0 <= i < found.len() ==> p(#[trigger] found[i]) == q(found[i]),
    ensures
        found.filter(p) == found.filter(q),
    decreases found.len(),
{
    reveal(Seq::filter);
    if found.len() > 0 {
        let front = found.drop_last();
        assert forall|i: int| 0 <= i < front.len() implies p(#[trigger] front[i]) == q(front[i]) by {
            assert(front[i] == found[i]);
        }
        lemma_filters_agree(front, p, q);
        assert(p(found[found.len() - 1]) == q(found[found.len() - 1]));
    }
}

/// Among files, those counted as camera raw are just those outside the output folder whose
/// names end as camera raw does, each once; and those counted as output are just those below
/// the output folder.
pub proof fn law_camera_raw_is_counted_once_each(root: Seq<char>, found: Seq<Found>, scan: Scan)
    requires
        is_scan_of(root, found, scan),
        forall|j: int|
            0 <= j < found.len() ==> exists|folder: Seq<char>, name: Seq<char>| #[trigger]
                is_file_in((#[trigger] found[j]).path@, folder, name),
    ensures
        scan.skipped_raw == found.filter(
            |f: Found| !is_below_output(root, f.path@) && ends_as_raw(f.path@),
        ).len(),
        scan.existing_output == found.filter(|f: Found| is_below_output(root, f.path@)).len(),
{
    let raw = |f: Found| !is_below_output(root, f.path@) && ends_as_raw(f.path@);
    let output = |f: Found| is_below_output(root, f.path@);
    assert forall|j: int| 0 <= j < found.len() implies {
        &&& (kind(root, #[trigger] found[j]) == Kind::Raw) == raw(found[j])
        &&& (kind(root, found[j]) == Kind::Output) == output(found[j])
    } by {
        let path = found[j].path@;
        let (folder, name) = choose|folder: Seq<char>, name: Seq<char>| #[trigger]
            is_file_in(path, folder, name);
        law_the_output_folder_is_optimized(root, path);
        lemma_named_raw(path, folder, name);
        if ends_as_raw(path) {
            let (other, stem, extension) = choose|
                other: Seq<char>,
                stem: Seq<char>,
                extension: Seq<char>,
            |
                {
                    &&& stem.len() > 0
                    &&& is_camera_raw(extension)
                    &&& #[trigger] is_file_in(path, other, dotted(stem, extension))
                };
            lemma_named_raw(path, other, dotted(stem, extension));
        }
        if kind(root, found[j]) == Kind::Raw {
            let (stem, extension) = choose|stem: Seq<char>, extension: Seq<char>| {
                &&& stem.len() > 0
                &&& is_camera_raw(extension)
                &&& name == #[trigger] dotted(stem, extension)
            };
            assert(is_file_in(path, folder, dotted(stem, extension)));
        }
    }
    lemma_filters_agree(found, |f: Found| kind(root, f) == Kind::Raw, raw);
    lemma_filters_agree(found, |f: Found| kind(root, f) == Kind::Output, output);
}

/// A file's title is its name, whatever folder it lies in.
pub proof fn law_a_file_is_titled_by_its_name(path: Seq<char>, folder: Seq<char>, name: Seq<char>)
    requires
        is_file_in(path, folder, name),
    ensures
        title(path) == name,
{
    paths::law_a_path_ends_in_its_file_name(folder, name);
}

/// A file lies about its format just where its extension, in any capitals, stands for a
/// format, and for another one than it holds: no JPEG that ends in `jpg` or `jpeg` does, nor
/// a PNG in `png`, a WebP in `webp`, an AVIF in `avif` or a GIF in `gif`, and any other file
/// that ends so does. A name without an extension claims nothing.
pub proof fn law_extensions_lie_where_they_differ(
    entry: Entry,
    folder: Seq<char>,
    stem: Seq<char>,
    extension: Seq<char>,
)
    requires
        stem.len() > 0,
        !extension.contains('.'),
        is_file_in(entry.path@, folder, dotted(stem, extension)),
    ensures
        is_spelled_with(extension, seq!['j', 'p', 'g'], seq!['J', 'P', 'G']) || is_spelled_with(
            extension,
            seq!['j', 'p', 'e', 'g'],
            seq!['J', 'P', 'E', 'G'],
        ) ==> mislabelled(entry) == !(entry.format is Jpeg),
        is_spelled_with(extension, seq!['p', 'n', 'g'], seq!['P', 'N', 'G']) ==> mislabelled(entry)
            == !(entry.format is Png),
        is_spelled_with(extension, seq!['g', 'i', 'f'], seq!['G', 'I', 'F']) ==> mislabelled(entry)
            == !(entry.format is Gif),
        is_spelled_with(extension, seq!['w', 'e', 'b', 'p'], seq!['W', 'E', 'B', 'P'])
            ==> mislabelled(entry) == !(entry.format is WebP),
        is_spelled_with(extension, seq!['a', 'v', 'i', 'f'], seq!['A', 'V', 'I', 'F'])
            ==> mislabelled(entry) == !(entry.format is Avif),
        is_spelled_with(extension, seq!['t', 'i', 'f'], seq!['T', 'I', 'F']) || is_spelled_with(
            extension,
            seq!['t', 'i', 'f', 'f'],
            seq!['T', 'I', 'F', 'F'],
        ) ==> mislabelled(entry) == !(entry.format is Tiff),
        is_spelled_with(extension, seq!['b', 'm', 'p'], seq!['B', 'M', 'P']) ==> mislabelled(entry)
            == !(entry.format is Bmp),
        extension.len() == 0 ==> !mislabelled(entry),
{
    paths::law_a_path_ends_in_its_file_name(folder, dotted(stem, extension));
    paths::law_the_last_dot_parts_a_name(stem, extension);
    reveal_strlit("avif");
    reveal_strlit("jpg");
    reveal_strlit("jpeg");
    reveal_strlit("jfif");
    reveal_strlit("png");
    reveal_strlit("apng");
    reveal_strlit("gif");
    reveal_strlit("webp");
    reveal_strlit("tif");
    reveal_strlit("tiff");
    reveal_strlit("tga");
    reveal_strlit("dds");
    reveal_strlit("bmp");
    reveal_strlit("ico");
    reveal_strlit("hdr");
    reveal_strlit("exr");
    reveal_strlit("pbm");
    reveal_strlit("pam");
    reveal_strlit("ppm");
    reveal_strlit("pgm");
    reveal_strlit("pnm");
    reveal_strlit("ff");
    reveal_strlit("qoi");
    assert("jpg"@ =~= seq!['j', 'p', 'g']);
    assert("jpeg"@ =~= seq!['j', 'p', 'e', 'g']);
    assert("png"@ =~= seq!['p', 'n', 'g']);
    assert("gif"@ =~= seq!['g', 'i', 'f']);
    assert("webp"@ =~= seq!['w', 'e', 'b', 'p']);
    assert("avif"@ =~= seq!['a', 'v', 'i', 'f']);
    assert("tif"@ =~= seq!['t', 'i', 'f']);
    assert("tiff"@ =~= seq!['t', 'i', 'f', 'f']);
    assert("bmp"@ =~= seq!['b', 'm', 'p']);
    lemma_spelled_small(extension, seq!['j', 'p', 'g'], seq!['J', 'P', 'G']);
    lemma_spelled_small(extension, seq!['j', 'p', 'e', 'g'], seq!['J', 'P', 'E', 'G']);
    lemma_spelled_small(extension, seq!['p', 'n', 'g'], seq!['P', 'N', 'G']);
    lemma_spelled_small(extension, seq!['g', 'i', 'f'], seq!['G', 'I', 'F']);
    lemma_spelled_small(extension, seq!['w', 'e', 'b', 'p'], seq!['W', 'E', 'B', 'P']);
    lemma_spelled_small(extension, seq!['a', 'v', 'i', 'f'], seq!['A', 'V', 'I', 'F']);
    lemma_spelled_small(extension, seq!['t', 'i', 'f'], seq!['T', 'I', 'F']);
    lemma_spelled_small(extension, seq!['t', 'i', 'f', 'f'], seq!['T', 'I', 'F', 'F']);
    lemma_spelled_small(extension, seq!['b', 'm', 'p'], seq!['B', 'M', 'P']);
    let name = extension.map_values(|c: char| small(c));
    assert(name.len() == extension.len());
    if name.len() > 0 {
        let first = name[0];
        assert(name == "jfif"@ ==> first == 'j');
    }
}

/// A size in bytes is said in the largest unit it reaches, to the nearest tenth of it, and
/// below one kilobyte to the byte.
pub proof fn law_sizes_are_said_to_the_nearest_tenth(bytes: nat) -> (tenths: nat)
    requires
        bytes < 0x20_0000_0000_0000,
    ensures
        ({
            let said = |unit: Seq<char>|
                text::decimal(tenths / 10) + seq!['.', text::digit(tenths % 10)] + " "@ + unit;
            if bytes < 1024 {
                size_text(bytes) == text::decimal(bytes) + " B"@
            } else if bytes < 1024 * 1024 {
                &&& size_text(bytes) == said("KB"@)
                &&& number::within_half((tenths * 1024) as int, (10 * bytes) as int, 1024)
            } else if bytes < 1024 * 1024 * 1024 {
                &&& size_text(bytes) == said("MB"@)
                &&& number::within_half(
                    (tenths * 0x10_0000) as int,
                    (10 * bytes) as int,
                    0x10_0000,
                )
            } else {
                &&& size_text(bytes) == said("GB"@)
                &&& number::within_half(
                    (tenths * 0x4000_0000) as int,
                    (10 * bytes) as int,
                    0x4000_0000,
                )
            }
        }),
{
    vstd::arithmetic::power2::lemma2_to64();
    let (k, scale) = if bytes < 1024 * 1024 {
        (10nat, 0x400nat)
    } else if bytes < 1024 * 1024 * 1024 {
        (20nat, 0x10_0000nat)
    } else {
        (30nat, 0x4000_0000nat)
    };
    assert(vstd::arithmetic::power2::pow2(k) == scale);
    number::lemma_over_a_power(bytes, k, Precision::Double);
    number::lemma_scaled_count(bytes, 10, k, Precision::Double);
    number::lemma_even_quotient_is_near(bytes * 10, scale);
    number::even_quotient(bytes * 10, scale)
}

/// What a filter keeps stands in the order it had.
proof fn lemma_filter_keeps_order(
    found: Seq<Found>,
    keep: spec_fn(Found) -> bool,
    a: int,
    b: int,
) -> (out: (int, int))
    requires
        0 <= a < b < found.filter(keep).len(),
    ensures
        0 <= out.0 < out.1 < found.len(),
        found[out.0] == found.filter(keep)[a],
        found[out.1] == found.filter(keep)[b],
    decreases found.len(),
{
    reveal(Seq::filter);
    let front = found.drop_last();
    let kept = front.filter(keep);
    if b < kept.len() {
        let out = lemma_filter_keeps_order(front, keep, a, b);
        assert(found[out.0] == front[out.0] && found[out.1] == front[out.1]);
        out
    } else {
        front.lemma_filter_contains_rev(keep, kept[a]);
        let p = choose|p: int| 0 <= p < front.len() && front[p] == kept[a];
        assert(found[p] == front[p]);
        (p, found.len() - 1)
    }
}

/// Files that weigh the same are listed in the order they were found in.
pub proof fn law_equal_weights_keep_their_order(
    root: Seq<char>,
    found: Seq<Found>,
    scan: Scan,
    i: int,
    k: int,
)
    requires
        is_scan_of(root, found, scan),
        0 <= i < k < scan.entries@.len(),
        scan.entries@[i].bytes == scan.entries@[k].bytes,
    ensures
        exists|p: int, q: int|
            {
                &&& 0 <= p < q < found.len()
                &&& (#[trigger] found[p]).path@ == scan.entries@[i].path@
                &&& (#[trigger] found[q]).path@ == scan.entries@[k].path@
            },
{
    let entries = scan.entries@;
    let kept = of_kind(root, found, Kind::Image);
    let images = choose|images: Seq<Entry>|
        {
            &&& #[trigger] is_heaviest_first(images, entries)
            &&& images.len() == kept.len()
            &&& forall|i: int| 0 <= i < images.len() ==> probed(kept[i], #[trigger] images[i])
        };
    let order = choose|order: Seq<usize>|
        {
            &&& #[trigger] order.len() == images.len()
            &&& entries.len() == images.len()
            &&& forall|i: int| 0 <= i < order.len() ==> (#[trigger] order[i]) < images.len()
            &&& forall|i: int|
                0 <= i < order.len() ==> entries[i] == images[#[trigger] order[i] as int]
            &&& forall|i: int, j: int|
                0 <= i < j < order.len() ==> heavier(
                    images,
                    (#[trigger] order[i]) as int,
                    (#[trigger] order[j]) as int,
                )
        };
    let (a, b) = (order[i] as int, order[k] as int);
    assert(heavier(images, a, b));
    assert(probed(kept[a], images[a]) && probed(kept[b], images[b]));
    assert(entries[i] == images[a] && entries[k] == images[b]);
    let (p, q) = lemma_filter_keeps_order(
        found,
        |f: Found| kind(root, f) == Kind::Image,
        a,
        b,
    );
    assert(found[p].path@ == entries[i].path@ && found[q].path@ == entries[k].path@);
}

/// A file opened on its own is opened under the folder it lies in.
pub proof fn law_a_file_is_opened_under_its_folder(
    path: Seq<char>,
    folder: Seq<char>,
    name: Seq<char>,
)
    requires
        is_file_in(path, folder, name),
    ensures
        paths::components(folder_of(path)) == paths::components(folder),
{
    paths::law_a_path_ends_in_its_file_name(folder, name);
    paths::lemma_components_are_spelled(folder);
    paths::law_written_path_reads_back(paths::components(folder));
    assert(paths::components(path).drop_last() =~= paths::components(folder));
    assert(name != seq!['/']) by {
        assert(seq!['/'][0] == '/');
        assert(seq!['/'].contains('/'));
    }
}

/// Every format goes by the extension it is listed under and by the name it is shown under,
/// and capitals make no difference.
pub proof fn law_formats_go_by_their_names(format: ImageFormat, extension: Seq<char>)
    ensures
        format_named(first_extension(format)) == Some(format),
        format_named(short_name(format)) == Some(format),
        format_named(extension.map_values(|c: char| small(c))) == format_named(extension),
        is_raw(extension.map_values(|c: char| small(c))) == is_raw(extension),
{
    let name = extension.map_values(|c: char| small(c));
    assert(name.map_values(|c: char| small(c)) =~= name);
    let listed = first_extension(format);
    let shown = short_name(format);
    reveal_strlit("avif");
    reveal_strlit("jpg");
    reveal_strlit("jpeg");
    reveal_strlit("jfif");
    reveal_strlit("png");
    reveal_strlit("apng");
    reveal_strlit("gif");
    reveal_strlit("webp");
    reveal_strlit("tif");
    reveal_strlit("tiff");
    reveal_strlit("tga");
    reveal_strlit("dds");
    reveal_strlit("bmp");
    reveal_strlit("ico");
    reveal_strlit("hdr");
    reveal_strlit("exr");
    reveal_strlit("pbm");
    reveal_strlit("pam");
    reveal_strlit("ppm");
    reveal_strlit("pgm");
    reveal_strlit("pnm");
    reveal_strlit("ff");
    reveal_strlit("qoi");
    reveal_strlit("JPEG");
    reveal_strlit("PNG");
    reveal_strlit("WebP");
    reveal_strlit("AVIF");
    reveal_strlit("GIF");
    reveal_strlit("TIFF");
    reveal_strlit("BMP");
    assert("avif"@[0] == 'a' && "avif"@[1] == 'v');
    assert("jpg"@[0] == 'j' && "jpg"@[1] == 'p');
    assert("jpeg"@[0] == 'j' && "jpeg"@[1] == 'p');
    assert("jfif"@[0] == 'j' && "jfif"@[1] == 'f');
    assert("png"@[0] == 'p' && "png"@[1] == 'n' && "png"@[2] == 'g');
    assert("apng"@[0] == 'a' && "apng"@[1] == 'p');
    assert("gif"@[0] == 'g' && "gif"@[1] == 'i');
    assert("webp"@[0] == 'w' && "webp"@[1] == 'e');
    assert("tif"@[0] == 't' && "tif"@[1] == 'i' && "tif"@[2] == 'f');
    assert("tiff"@[0] == 't' && "tiff"@[1] == 'i');
    assert("tga"@[0] == 't' && "tga"@[1] == 'g' && "tga"@[2] == 'a');
    assert("dds"@[0] == 'd' && "dds"@[1] == 'd');
    assert("bmp"@[0] == 'b' && "bmp"@[1] == 'm');
    assert("ico"@[0] == 'i' && "ico"@[1] == 'c');
    assert("hdr"@[0] == 'h' && "hdr"@[1] == 'd');
    assert("exr"@[0] == 'e' && "exr"@[1] == 'x');
    assert("pbm"@[0] == 'p' && "pbm"@[1] == 'b');
    assert("pam"@[0] == 'p' && "pam"@[1] == 'a');
    assert("ppm"@[0] == 'p' && "ppm"@[1] == 'p');
    assert("pgm"@[0] == 'p' && "pgm"@[1] == 'g');
    assert("pnm"@[0] == 'p' && "pnm"@[1] == 'n' && "pnm"@[2] == 'm');
    assert("ff"@[0] == 'f' && "ff"@[1] == 'f');
    assert("qoi"@[0] == 'q' && "qoi"@[1] == 'o');
    assert(listed.map_values(|c: char| small(c)) =~= listed);
    match format {
        ImageFormat::Jpeg => assert(shown.map_values(|c: char| small(c)) =~= "jpeg"@),
        ImageFormat::Png => assert(shown.map_values(|c: char| small(c)) =~= "png"@),
        ImageFormat::WebP => assert(shown.map_values(|c: char| small(c)) =~= "webp"@),
        ImageFormat::Avif => assert(shown.map_values(|c: char| small(c)) =~= "avif"@),
        ImageFormat::Gif => assert(shown.map_values(|c: char| small(c)) =~= "gif"@),
        ImageFormat::Tiff => assert(shown.map_values(|c: char| small(c)) =~= "tiff"@),
        ImageFormat::Bmp => assert(shown.map_values(|c: char| small(c)) =~= "bmp"@),
        _ => {},
    }
}

} // verus!
