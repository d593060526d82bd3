//! What the window shows, part by part: which view, which words in which colour, which
//! controls are live. Drawing it is left to the window.

use crate::audit;
use crate::audit::{Audit, Progress};
use crate::compare;
use crate::compare::Pair;
use crate::convert::{Format, MaxEdge};
use crate::layout;
use crate::layout::{GalleryLayout, TableColumn};
use crate::number;
use crate::number::Precision;
use crate::picture::QUALITY_ONE;
use crate::report;
use crate::report::{caps, folder_label, share_of, stats, transfer_line, Meter, Tone};
use crate::rows;
use crate::rows::{Band, Finding};
use crate::scan;
use crate::scan::{format_bytes, format_name, Entry, ImageFormat};
use crate::sirv::{Node, SyncState};
use crate::stage::Ratio;
use crate::sync;
use crate::sync::{Browser, Listing};
use crate::text;
use crate::text::{cut_last, decimal_of, glued};
use vstd::prelude::*;

verus! {

broadcast use vstd::std_specs::hash::group_hash_axioms;

/// The views of the window.
#[derive(Clone, Copy, Debug, PartialEq, Eq, Structural)]
pub enum Screen {
    Scanning,
    Empty,
    Settings,
    Browser,
    Compare,
    List,
}

/// The view the window is in: a scan covers everything, a folder without images shows
/// nothing else, and then come the settings form, the remote browser, the comparison and
/// the list.
pub fn screen(audit: &Audit, settings_open: bool) -> (out: Screen)
    ensures
        out == screen_of(*audit, settings_open),
{
    if audit.scanning.is_some() {
        Screen::Scanning
    } else if audit.entries.len() == 0 {
        Screen::Empty
    } else if settings_open {
        Screen::Settings
    } else if audit.remote.browser.is_some() {
        Screen::Browser
    } else if audit.compare.is_some() {
        Screen::Compare
    } else {
        Screen::List
    }
}

/// The view that is on, by what is open and what is there.
pub open spec fn screen_of(audit: Audit, settings_open: bool) -> Screen {
    if audit.scanning is Some {
        Screen::Scanning
    } else if audit.entries@.len() == 0 {
        Screen::Empty
    } else if settings_open {
        Screen::Settings
    } else if audit.remote.browser is Some {
        Screen::Browser
    } else if audit.compare is Some {
        Screen::Compare
    } else {
        Screen::List
    }
}

/// What a frame of the window shows.
#[derive(Clone, Copy, Debug)]
pub struct Frame {
    pub screen: Screen,
    /// The gallery, where it is shown, and whether it is scrolled back to the top: another
    /// column count puts other files on every row.
    pub gallery: Option<(GalleryLayout, bool)>,
}

impl Audit {
    /// Draw a frame in a window `viewport_width` wide whose root keeps `root_left` and
    /// `root_right` to itself: choose the view, and lay the gallery out where the list is
    /// shown as one. A resize within one column count keeps the scroll position, and so does
    /// the first layout.
    pub fn render(
        &mut self,
        settings_open: bool,
        viewport_width: i64,
        root_left: i64,
        root_right: i64,
    ) -> (out: Frame)
        requires
            old(self).sound(),
        ensures
            final(self).sound(),
            out.screen == screen_of(*old(self), settings_open),
            if out.screen is List && old(self).grid {
                let room = layout::available(
                    viewport_width as int,
                    root_left as int,
                    root_right as int,
                );
                let shown = old(self).visible@.len() as int;
                &&& out.gallery matches Some((gallery, scroll_back))
                &&& gallery.columns == layout::columns_in(room)
                &&& gallery.tile == layout::tile_in(room, gallery.columns as int)
                &&& gallery.rows == layout::rows_for(shown, gallery.columns as int)
                &&& gallery.entries == shown
                &&& *final(self) == (Audit {
                    gallery_columns: Some(gallery.columns),
                    ..*old(self)
                })
                &&& scroll_back == (old(self).gallery_columns matches Some(previous) && previous
                    != gallery.columns)
            } else {
                out.gallery is None && *final(self) == *old(self)
            },
    {
        let screen = screen(self, settings_open);
        if screen == Screen::List && self.grid {
            let gallery = layout::gallery_layout(
                viewport_width,
                root_left,
                root_right,
                self.visible.len(),
            );
            let scroll_back = self.lay_out_gallery(gallery.columns);
            Frame { screen, gallery: Some((gallery, scroll_back)) }
        } else {
            Frame { screen, gallery: None }
        }
    }
}

/// What the window says while it scans.
pub fn scanning_words(label: &str) -> (out: String)
    ensures
        out@ == "Scanning "@ + label@ + "…"@,
{
    let mut out = "Scanning ".to_string();
    out.append(label);
    out.append("…");
    out
}

/// What the window says with nothing to list: a heading and a sentence. `folder` says
/// whether a folder is open.
pub fn empty_words(folder: bool) -> (out: (&'static str, &'static str))
    ensures
        folder ==> out.0@ == "No supported images found"@ && out.1@
            == "This folder has no supported images. Choose another folder or drop an image here."@,
        !folder ==> out.0@ == "Audit a folder of images"@ && out.1@
            == "Nothing is uploaded. Every file is read, resized and re-encoded on this machine."@,
{
    if folder {
        (
            "No supported images found",
            "This folder has no supported images. Choose another folder or drop an image here.",
        )
    } else {
        (
            "Audit a folder of images",
            "Nothing is uploaded. Every file is read, resized and re-encoded on this machine.",
        )
    }
}

/// Which folder this is, and how to get to another one.
#[derive(Debug)]
pub struct Header {
    pub folder: String,
    pub path: String,
    pub stats: String,
    /// The button that opens the remote browser.
    pub sync: String,
    /// The button that changes between list and gallery, and what it promises.
    pub view: &'static str,
    pub view_tooltip: &'static str,
    /// A conversion is running: nothing here can be pressed.
    pub locked: bool,
}

/// Which folder this is, and how to get to another one.
pub fn header(audit: &Audit) -> (out: Header)
    ensures
        out.folder@ == audit::scan_label(audit.root@),
        out.path@ == audit.root@,
        out.stats@ == report::stats_text(*audit),
        out.sync@ == match audit.remote.pairing {
            Some(pairing) => pairing.dir@,
            None => "Sirv…"@,
        },
        audit.grid ==> out.view@ == "List"@ && out.view_tooltip@ == "Show the audit as a list"@,
        !audit.grid ==> out.view@ == "Grid"@ && out.view_tooltip@
            == "Show the images as a gallery"@,
        out.locked == audit.converting,
{
    Header {
        folder: folder_label(audit.root.as_str()),
        path: audit.root.clone(),
        stats: stats(audit),
        sync: match &audit.remote.pairing {
            Some(pairing) => pairing.dir.clone(),
            None => "Sirv…".to_string(),
        },
        view: if audit.grid {
            "List"
        } else {
            "Grid"
        },
        view_tooltip: if audit.grid {
            "Show the audit as a list"
        } else {
            "Show the images as a gallery"
        },
        locked: audit.converting,
    }
}

/// How many of the first `n` entries a finding is true of.
pub open spec fn found(finding: Finding, entries: Seq<Entry>, n: int) -> nat
    decreases n,
{
    if n <= 0 {
        0
    } else {
        found(finding, entries, n - 1) + (if rows::is_found(finding, entries[n - 1]) {
            1nat
        } else {
            0
        })
    }
}

fn count_found(finding: Finding, entries: &Vec<Entry>) -> (out: usize)
    ensures
        out == found(finding, entries@, entries@.len() as int),
{
    let mut out: usize = 0;
    let mut i: usize = 0;
    while i < entries.len()
        invariant
            i <= entries@.len(),
            out == found(finding, entries@, i as int) <= i,
        decreases entries@.len() - i,
    {
        if finding.holds(&entries[i]) {
            out += 1;
        }
        i += 1;
    }
    out
}

/// One choice of a segmented control, and whether it is the one in force.
#[derive(Debug)]
pub struct Choice {
    pub label: String,
    pub chosen: bool,
}

/// The knobs that decide what a conversion produces, and the finding beside them.
#[derive(Debug)]
pub struct Controls {
    /// The button that narrows the list to heavy files, and whether it is lit.
    pub heavy: Option<(String, bool)>,
    pub edges: Vec<Choice>,
    pub formats: Vec<Choice>,
    /// The quality as a number, or a dash where nothing is lost.
    pub quality: String,
    pub lossless: bool,
    /// A conversion is running: nothing here can be moved.
    pub locked: bool,
}

/// The choices are the edges, each by its label, with `chosen` lit.
pub open spec fn are_edges(choices: Seq<Choice>, edges: Seq<MaxEdge>, chosen: MaxEdge) -> bool {
    &&& choices.len() == edges.len()
    &&& forall|i: int|
        0 <= i < choices.len() ==> (#[trigger] choices[i]).label@ == edges[i].label_text()
            && choices[i].chosen == (edges[i] == chosen)
}

/// The edges on offer.
pub open spec fn presets() -> Seq<MaxEdge> {
    seq![
        MaxEdge(None),
        MaxEdge(Some(2400u32)),
        MaxEdge(Some(1600u32)),
        MaxEdge(Some(1000u32)),
    ]
}

fn edge_choices(chosen: MaxEdge) -> (out: Vec<Choice>)
    ensures
        are_edges(out@, presets(), chosen),
{
    let edges = MaxEdge::presets();
    let mut out: Vec<Choice> = Vec::new();
    let mut i: usize = 0;
    while i < edges.len()
        invariant
            i <= edges@.len(),
            edges@ == presets(),
            out@.len() == i,
            forall|j: int|
                0 <= j < i ==> (#[trigger] out@[j]).label@ == edges@[j].label_text()
                    && out@[j].chosen == (edges@[j] == chosen),
        decreases edges@.len() - i,
    {
        out.push(Choice { label: edges[i].label(), chosen: edges[i] == chosen });
        i += 1;
    }
    out
}

/// The knobs that decide what a conversion produces.
pub fn controls(audit: &Audit) -> (out: Controls)
    requires
        audit.quality.in_range(),
    ensures
        ({
            let heavy = found(Finding::Heavy, audit.entries@, audit.entries@.len() as int);
            if heavy > 0 {
                &&& out.heavy matches Some((label, lit))
                &&& label@ == text::decimal(heavy) + " heavy"@
                &&& lit == (audit.finding == Some(Finding::Heavy))
            } else {
                out.heavy is None
            }
        }),
        are_edges(out.edges@, presets(), audit.max_edge),
        out.formats@.len() == 2,
        out.formats@[0].label@ == report::caps_text(Format::WebP),
        out.formats@[0].chosen == (audit.format == Format::WebP),
        out.formats@[1].label@ == report::caps_text(Format::Avif),
        out.formats@[1].chosen == (audit.format == Format::Avif),
        out.quality@ == match audit.quality.0 {
            Some(units) => text::decimal(
                ((units + QUALITY_ONE / 2) / (QUALITY_ONE as int)) as nat,
            ),
            None => "—"@,
        },
        out.lossless == (audit.quality.0 is None),
        out.locked == audit.converting,
{
    let heavy: usize = count_found(Finding::Heavy, &audit.entries);
    let lit = match audit.finding {
        Some(finding) => finding == Finding::Heavy,
        None => false,
    };
    let formats = vec![
        Choice {
            label: caps(Format::WebP).to_string(),
            chosen: audit.format == Format::WebP,
        },
        Choice {
            label: caps(Format::Avif).to_string(),
            chosen: audit.format == Format::Avif,
        },
    ];
    Controls {
        heavy: if heavy > 0 {
            Some((glued(decimal_of(heavy as u128).as_str(), " heavy"), lit))
        } else {
            None
        },
        edges: edge_choices(audit.max_edge),
        formats,
        quality: match audit.quality.0 {
            Some(units) => {
                let rounded: u64 = (units as u64 + QUALITY_ONE as u64 / 2) / QUALITY_ONE as u64;
                decimal_of(rounded as u128)
            },
            None => "—".to_string(),
        },
        lossless: audit.quality.0.is_none(),
        locked: audit.converting,
    }
}

/// The colour of a density: green is carrying its weight, amber is suspicious, red is a
/// screenshot saved as a PNG.
pub open spec fn density_tone(band: Band) -> Tone {
    match band {
        Band::Good => Tone::Green,
        Band::Suspicious => Tone::Yellow,
        Band::Heavy => Tone::Red,
    }
}

/// The colour of an entry's density.
pub fn density_colour(entry: &Entry) -> (out: Tone)
    ensures
        out == density_tone(rows::band_of(scan::density(*entry))),
{
    match rows::band(entry) {
        Band::Good => Tone::Green,
        Band::Suspicious => Tone::Yellow,
        Band::Heavy => Tone::Red,
    }
}

/// The colour of a format: modern ones are the destination, JPEG is a reasonable place
/// to be, and the rest are why there is something to convert.
pub open spec fn format_tone(format: ImageFormat) -> Tone {
    match format {
        ImageFormat::WebP => Tone::Green,
        ImageFormat::Avif => Tone::Green,
        ImageFormat::Jpeg => Tone::Blue,
        _ => Tone::Yellow,
    }
}

/// The colour of a format.
pub fn format_colour(format: ImageFormat) -> (out: Tone)
    ensures
        out == format_tone(format),
{
    match format {
        ImageFormat::WebP | ImageFormat::Avif => Tone::Green,
        ImageFormat::Jpeg => Tone::Blue,
        _ => Tone::Yellow,
    }
}

/// The word and colour a standing is said in.
pub open spec fn standing_words(standing: SyncState) -> (Seq<char>, Tone) {
    match standing {
        SyncState::Same => ("synced"@, Tone::Muted),
        SyncState::Changed => ("changed"@, Tone::Yellow),
        SyncState::OnlyLocal => ("new"@, Tone::Blue),
    }
}

/// How one file stands against the paired folder. Nothing without a pairing whose
/// listing is ready: the state exists only when it can be known.
pub open spec fn label_of(audit: Audit, entry: Entry) -> Option<(Seq<char>, Tone)> {
    match sync::ready_files(audit.remote.pairing) {
        Some(files) => match sync::entry_standing(audit.root@, entry, files@) {
            Some(standing) => Some(standing_words(standing)),
            None => None,
        },
        None => None,
    }
}

/// The word and colour behind an optional label.
pub open spec fn label_view(label: Option<(&'static str, Tone)>) -> Option<(Seq<char>, Tone)> {
    match label {
        Some((word, tone)) => Some((word@, tone)),
        None => None,
    }
}

/// How one file stands against the paired folder, as the word and colour the window
/// says it in. One place for it, so the table and the gallery have one vocabulary.
pub fn sync_label(audit: &Audit, entry: &Entry) -> (out: Option<(&'static str, Tone)>)
    ensures
        label_view(out) == label_of(*audit, *entry),
{
    match &audit.remote.pairing {
        Some(pairing) => match &pairing.files {
            Listing::Ready(files) => match sync::standing_of(audit.root.as_str(), entry, files) {
                Some(SyncState::Same) => Some(("synced", Tone::Muted)),
                Some(SyncState::Changed) => Some(("changed", Tone::Yellow)),
                Some(SyncState::OnlyLocal) => Some(("new", Tone::Blue)),
                None => None,
            },
            _ => None,
        },
        None => None,
    }
}

/// What one cell of the table shows.
#[derive(Debug)]
pub enum Cell {
    Tick(bool),
    /// Whether there is a thumbnail to draw in the slot.
    Thumb(bool),
    Name(String),
    /// The format, its colour, and whether the extension claims another.
    Format(&'static str, Tone, bool),
    Pixels(String),
    Density(String, Tone),
    Weight(String, Meter),
    Sync(Option<(&'static str, Tone)>),
    /// What the file became and what that saved, where it was converted; the saving is
    /// missing where it grew.
    Result(Option<(String, Option<String>)>),
}

/// A file's share of the heaviest on screen.
pub open spec fn weight_meter(bytes: u64, heaviest: u64) -> Meter {
    Meter {
        filled: bytes,
        whole: if heaviest > 1 {
            heaviest
        } else {
            1
        },
    }
}

/// The cell of `column` shows this of the entry at `index`.
pub open spec fn is_cell(audit: Audit, index: int, column: TableColumn, cell: Cell) -> bool {
    let entry = audit.entries@[index];
    match column {
        TableColumn::Tick => cell == Cell::Tick(audit.selected@.contains(index as usize)),
        TableColumn::Thumb => cell == Cell::Thumb(audit.thumbs@.contains(index as usize)),
        TableColumn::Name => {
            &&& cell matches Cell::Name(name)
            &&& name@ == scan::title(entry.path@)
        },
        TableColumn::Format => {
            &&& cell matches Cell::Format(name, tone, lies)
            &&& name@ == scan::short_name(entry.format)
            &&& lies == scan::mislabelled(entry)
            &&& tone == if lies {
                Tone::Yellow
            } else {
                format_tone(entry.format)
            }
        },
        TableColumn::Pixels => {
            &&& cell matches Cell::Pixels(size)
            &&& size@ == size_words(entry.width as nat, entry.height as nat)
        },
        TableColumn::Density => {
            &&& cell matches Cell::Density(density, tone)
            &&& density@ == number::fixed(scan::density(entry), 2)
            &&& tone == density_tone(rows::band_of(scan::density(entry)))
        },
        TableColumn::Weight => {
            &&& cell matches Cell::Weight(weight, meter)
            &&& weight@ == scan::size_text(entry.bytes as nat)
            &&& meter == weight_meter(entry.bytes, audit.heaviest)
        },
        TableColumn::Sync => {
            &&& cell matches Cell::Sync(label)
            &&& label_view(label) == label_of(audit, entry)
        },
        TableColumn::Result => {
            &&& cell matches Cell::Result(result)
            &&& if audit.results@.contains_key(index as usize) {
                let bytes = audit.results@[index as usize];
                &&& result matches Some((size, saved))
                &&& size@ == scan::size_text(bytes as nat)
                &&& text::text_in(saved) == if bytes > entry.bytes {
                    None
                } else {
                    Some(
                        "−"@ + report::share_text(
                            (entry.bytes - bytes) as nat,
                            entry.bytes as nat,
                            Precision::Single,
                        ) + "%"@,
                    )
                }
            } else {
                result is None
            }
        },
    }
}

/// A size in pixels.
pub open spec fn size_words(width: nat, height: nat) -> Seq<char> {
    text::decimal(width) + "×"@ + text::decimal(height)
}

fn size_of(width: u32, height: u32) -> (out: String)
    ensures
        out@ == size_words(width as nat, height as nat),
{
    let mut out = decimal_of(width as u128);
    out.append("×");
    out.append(decimal_of(height as u128).as_str());
    out
}

/// What the table shows in `column` on row `row`. There is nothing past the last row.
pub fn cell(audit: &Audit, row: usize, column: TableColumn) -> (out: Option<Cell>)
    requires
        audit.sound(),
    ensures
        out is Some == (row < audit.visible@.len()),
        out matches Some(cell) ==> is_cell(
            *audit,
            audit.visible@[row as int] as int,
            column,
            cell,
        ),
{
    let index: usize = match audit.entry_at(row) {
        Some(index) => index,
        None => {
            return None;
        },
    };
    assert(audit.visible@.contains(index));
    let entry = &audit.entries[index];
    Some(
        match column {
            TableColumn::Tick => Cell::Tick(audit.selected.contains(&index)),
            TableColumn::Thumb => Cell::Thumb(audit.thumbs.contains(&index)),
            TableColumn::Name => Cell::Name(entry.name()),
            TableColumn::Format => {
                let lies = entry.extension_lies();
                let tone = if lies {
                    Tone::Yellow
                } else {
                    format_colour(entry.format)
                };
                Cell::Format(format_name(entry.format), tone, lies)
            },
            TableColumn::Pixels => Cell::Pixels(size_of(entry.width, entry.height)),
            TableColumn::Density => Cell::Density(
                number::fixed_of(entry.bytes_per_pixel(), 2, Precision::Single),
                density_colour(entry),
            ),
            TableColumn::Weight => Cell::Weight(
                format_bytes(entry.bytes),
                Meter {
                    filled: entry.bytes,
                    whole: if audit.heaviest > 1 {
                        audit.heaviest
                    } else {
                        1
                    },
                },
            ),
            TableColumn::Sync => Cell::Sync(sync_label(audit, entry)),
            TableColumn::Result => match audit.results.get(&index) {
                Some(bytes) => {
                    let bytes: u64 = *bytes;
                    let saved = if bytes > entry.bytes {
                        None
                    } else {
                        let mut words = "−".to_string();
                        words.append(
                            share_of(entry.bytes - bytes, entry.bytes, Precision::Single).as_str(),
                        );
                        words.append("%");
                        Some(words)
                    };
                    Cell::Result(Some((format_bytes(bytes), saved)))
                },
                None => Cell::Result(None),
            },
        },
    )
}

/// How a row of the table is marked.
#[derive(Clone, Copy, Debug, PartialEq, Eq, Structural)]
pub struct RowMarks {
    pub ticked: bool,
    pub at_cursor: bool,
    /// The colour of its density, carried on its left edge.
    pub rail: Option<Tone>,
}

/// How a row of the table is marked: its tick, the cursor, and its density, so the shape
/// of the folder is visible while scrolling.
pub fn row_marks(audit: &Audit, row: usize) -> (out: RowMarks)
    requires
        audit.sound(),
    ensures
        out.at_cursor == (row == audit.cursor),
        if row < audit.visible@.len() {
            let index = audit.visible@[row as int];
            &&& out.ticked == audit.selected@.contains(index)
            &&& out.rail == Some(
                density_tone(rows::band_of(scan::density(audit.entries@[index as int]))),
            )
        } else {
            !out.ticked && out.rail is None
        },
{
    match audit.entry_at(row) {
        Some(index) => {
            assert(audit.visible@.contains(index));
            RowMarks {
                ticked: audit.selected.contains(&index),
                at_cursor: row == audit.cursor,
                rail: Some(density_colour(&audit.entries[index])),
            }
        },
        None => RowMarks { ticked: false, at_cursor: row == audit.cursor, rail: None },
    }
}

/// One gallery tile: the picture, with its name and weight under it.
#[derive(Debug)]
pub struct Tile {
    pub ticked: bool,
    pub at_cursor: bool,
    pub thumb: bool,
    pub format: &'static str,
    pub format_tone: Tone,
    pub sync: Option<(&'static str, Tone)>,
    pub name: String,
    pub weight: String,
    pub density: String,
    pub density_tone: Tone,
}

/// The tile shows this of the entry at `index`.
pub open spec fn is_tile(audit: Audit, row: usize, index: int, tile: Tile) -> bool {
    let entry = audit.entries@[index];
    &&& tile.ticked == audit.selected@.contains(index as usize)
    &&& tile.at_cursor == (row == audit.cursor)
    &&& tile.thumb == audit.thumbs@.contains(index as usize)
    &&& tile.format@ == scan::short_name(entry.format)
    &&& tile.format_tone == format_tone(entry.format)
    &&& label_view(tile.sync) == label_of(audit, entry)
    &&& tile.name@ == scan::title(entry.path@)
    &&& tile.weight@ == if audit.results@.contains_key(index as usize) {
        scan::size_text(entry.bytes as nat) + " → "@ + scan::size_text(
            audit.results@[index as usize] as nat,
        )
    } else {
        scan::size_text(entry.bytes as nat)
    }
    &&& tile.density@ == number::fixed(scan::density(entry), 2)
    &&& tile.density_tone == density_tone(rows::band_of(scan::density(entry)))
}

/// What the gallery shows at position `row`. There is nothing past the last.
pub fn tile(audit: &Audit, row: usize) -> (out: Option<Tile>)
    requires
        audit.sound(),
    ensures
        out is Some == (row < audit.visible@.len()),
        out matches Some(tile) ==> is_tile(*audit, row, audit.visible@[row as int] as int, tile),
{
    let index: usize = match audit.entry_at(row) {
        Some(index) => index,
        None => {
            return None;
        },
    };
    assert(audit.visible@.contains(index));
    let entry = &audit.entries[index];
    let mut weight = format_bytes(entry.bytes);
    if let Some(bytes) = audit.results.get(&index) {
        weight.append(" → ");
        weight.append(format_bytes(*bytes).as_str());
    }
    Some(
        Tile {
            ticked: audit.selected.contains(&index),
            at_cursor: row == audit.cursor,
            thumb: audit.thumbs.contains(&index),
            format: format_name(entry.format),
            format_tone: format_colour(entry.format),
            sync: sync_label(audit, entry),
            name: entry.name(),
            weight,
            density: number::fixed_of(entry.bytes_per_pixel(), 2, Precision::Single),
            density_tone: density_colour(entry),
        },
    )
}

/// The last name of a remote path.
pub open spec fn leaf(filename: Seq<char>) -> Seq<char> {
    match text::split_last(filename, '/') {
        Some((_, name)) => name,
        None => filename,
    }
}

/// The names of the folders among the first `n` entries of a listing.
pub open spec fn folder_names(nodes: Seq<Node>, n: int) -> Seq<Seq<char>>
    decreases n,
{
    if n <= 0 {
        seq![]
    } else if nodes[n - 1].kind@ == "folder"@ {
        folder_names(nodes, n - 1).push(leaf(nodes[n - 1].filename@))
    } else {
        folder_names(nodes, n - 1)
    }
}

fn folders_in(nodes: &Vec<Node>) -> (out: Vec<String>)
    ensures
        text::views(out@) == folder_names(nodes@, nodes@.len() as int),
{
    let mut out: Vec<String> = Vec::new();
    let mut i: usize = 0;
    assert(text::views(out@) =~= folder_names(nodes@, 0));
    while i < nodes.len()
        invariant
            i <= nodes@.len(),
            text::views(out@) == folder_names(nodes@, i as int),
        decreases nodes@.len() - i,
    {
        if nodes[i].is_folder() {
            let name = match cut_last(nodes[i].filename.as_str(), '/') {
                Some((_, name)) => name,
                None => nodes[i].filename.clone(),
            };
            let ghost before = out@;
            out.push(name);
            assert(text::views(out@) =~= text::views(before).push(name@));
        }
        i += 1;
    }
    out
}

/// What the remote browser lists.
#[derive(Debug)]
pub enum Listed {
    /// Still on its way, in words.
    Waiting(String),
    /// What went wrong.
    Failed(String),
    /// The folders below, and whether there is one above.
    Folders { up: bool, names: Vec<String> },
}

/// The buttons for a paired folder.
#[derive(Debug)]
pub struct PairButtons {
    pub pull: String,
    pub pull_enabled: bool,
    pub push: String,
    pub push_enabled: bool,
    pub unpair: String,
    pub unpair_enabled: bool,
}

/// The remote-folder browser: walk folders down, pair the folder you land on, or undo a
/// pairing.
#[derive(Debug)]
pub struct BrowserView {
    pub path: String,
    pub listed: Listed,
    /// The transfer, amber where something failed.
    pub transfer: Option<(String, Tone)>,
    pub paired: Option<PairButtons>,
    pub can_pair: bool,
}

/// The buttons for the folder `dir`: nothing to press while a transfer runs, nor where
/// there is nothing to move.
pub open spec fn are_pair_buttons(audit: Audit, dir: Seq<char>, buttons: PairButtons) -> bool {
    let busy = audit.remote.is_busy();
    let (to_push, to_pull) = match audit.remote.counts {
        Some((to_push, _, to_pull)) => (to_push, to_pull),
        None => (0, 0),
    };
    &&& buttons.pull@ == "Pull "@ + text::decimal(to_pull as nat) + " missing"@
    &&& buttons.pull_enabled == (!busy && to_pull > 0)
    &&& buttons.push@ == "Push "@ + text::decimal(to_push as nat) + " new"@
    &&& buttons.push_enabled == (!busy && to_push > 0)
    &&& buttons.unpair@ == "Unpair "@ + dir
    &&& buttons.unpair_enabled == !busy
}

/// What the browser shows of its listing.
pub open spec fn is_listed(browser: Browser, listed: Listed) -> bool {
    match browser.nodes {
        None => {
            &&& listed matches Listed::Waiting(words)
            &&& words@ == "Listing "@ + browser.path@ + "…"@
        },
        Some(Err(message)) => {
            &&& listed matches Listed::Failed(words)
            &&& words@ == message@
        },
        Some(Ok(nodes)) => {
            &&& listed matches Listed::Folders { up, names }
            &&& up == (browser.path@ != "/"@)
            &&& text::views(names@) == folder_names(nodes@, nodes@.len() as int)
        },
    }
}

fn pair_buttons(audit: &Audit, dir: &str) -> (out: PairButtons)
    ensures
        are_pair_buttons(*audit, dir@, out),
{
    let busy = audit.remote.busy();
    let (to_push, to_pull): (usize, usize) = match audit.remote.counts {
        Some((to_push, _, to_pull)) => (to_push, to_pull),
        None => (0, 0),
    };
    let mut pull = "Pull ".to_string();
    pull.append(decimal_of(to_pull as u128).as_str());
    pull.append(" missing");
    let mut push = "Push ".to_string();
    push.append(decimal_of(to_push as u128).as_str());
    push.append(" new");
    PairButtons {
        pull,
        pull_enabled: !busy && to_pull > 0,
        push,
        push_enabled: !busy && to_push > 0,
        unpair: glued("Unpair ", dir),
        unpair_enabled: !busy,
    }
}

/// What the remote browser shows, where it is open.
pub fn browser_view(audit: &Audit) -> (out: Option<BrowserView>)
    ensures
        out is Some == audit.remote.browser is Some,
        out matches Some(view) ==> {
            let browser = audit.remote.browser->0;
            &&& view.path@ == browser.path@
            &&& is_listed(browser, view.listed)
            &&& match audit.remote.job {
                Some(job) => {
                    &&& view.transfer matches Some((words, tone))
                    &&& words@ == report::transfer_text(job)
                    &&& tone == if job.failures@.len() == 0 {
                        Tone::Muted
                    } else {
                        Tone::Yellow
                    }
                },
                None => view.transfer is None,
            }
            &&& match audit.remote.pairing {
                Some(pairing) => {
                    &&& view.paired matches Some(buttons)
                    &&& are_pair_buttons(*audit, pairing.dir@, buttons)
                },
                None => view.paired is None,
            }
            &&& view.can_pair == (browser.nodes matches Some(Ok(_)))
        },
{
    let browser = match &audit.remote.browser {
        Some(browser) => browser,
        None => {
            return None;
        },
    };
    let listed = match &browser.nodes {
        None => {
            let mut words = "Listing ".to_string();
            words.append(browser.path.as_str());
            words.append("…");
            Listed::Waiting(words)
        },
        Some(Err(message)) => Listed::Failed(message.clone()),
        Some(Ok(nodes)) => Listed::Folders {
            up: !text::same(browser.path.as_str(), "/"),
            names: folders_in(nodes),
        },
    };
    let can_pair = match &browser.nodes {
        Some(Ok(_)) => true,
        _ => false,
    };
    let transfer = match &audit.remote.job {
        Some(job) => Some(
            (
                transfer_line(job),
                if job.failures.len() == 0 {
                    Tone::Muted
                } else {
                    Tone::Yellow
                },
            ),
        ),
        None => None,
    };
    let paired = match &audit.remote.pairing {
        Some(pairing) => Some(pair_buttons(audit, pairing.dir.as_str())),
        None => None,
    };
    Some(BrowserView { path: browser.path.clone(), listed, transfer, paired, can_pair })
}

/// What the comparison says in words.
#[derive(Debug)]
pub struct CompareWords {
    pub name: String,
    /// The container the right-hand side is in.
    pub side: &'static str,
    /// The sizes of both sides, once there are two.
    pub sizes: Option<String>,
    /// The share saved or added, once there are two sides.
    pub saving: Option<(String, Tone)>,
    /// The line at the bottom: size and scale, or why there is none.
    pub status: String,
    pub failed: bool,
}

/// A saving with its sign, and the colour of good news or bad.
pub open spec fn saving_words(before: nat, after: nat) -> (Seq<char>, Tone) {
    let (grew, size) = compare::saved_percent(before, after);
    if grew {
        ("+"@ + number::fixed(size, 0) + "%"@, Tone::Yellow)
    } else {
        ("−"@ + number::fixed(size, 0) + "%"@, Tone::Green)
    }
}

/// A scale in percent, worked out in single precision and shown to the nearest whole
/// number.
pub open spec fn scale_words(scale: Ratio) -> Seq<char> {
    number::fixed(
        compare::hundredfold(
            number::nearest(scale.over as nat, 1, Precision::Single),
            number::nearest(scale.under as nat, 1, Precision::Single),
        ),
        0,
    )
}

fn scale_percent(scale: Ratio) -> (out: String)
    requires
        scale.under > 0,
    ensures
        out@ == scale_words(scale),
{
    let top = number::whole(scale.over, Precision::Single);
    let bottom = number::whole(scale.under, Precision::Single);
    let share = number::divide(top, bottom, Precision::Single);
    let hundred = number::whole(100, Precision::Single);
    let percent = number::multiply(share, hundred, Precision::Single);
    number::fixed_of(percent, 0, Precision::Single)
}

/// The comparison of the entry at `index` says this, where `pair` holds its two sides,
/// shown at `scale`.
pub open spec fn are_compare_words(
    audit: Audit,
    comparison: audit::Comparison,
    pair: Option<Pair>,
    scale: Ratio,
    words: CompareWords,
) -> bool {
    let there = comparison.index < audit.entries@.len();
    let entry = audit.entries@[comparison.index as int];
    let before = if there {
        entry.bytes as nat
    } else {
        0
    };
    &&& words.name@ == if there {
        scan::title(entry.path@)
    } else {
        seq![]
    }
    &&& words.side@ == report::caps_text(audit.format)
    &&& words.failed == (comparison.progress == Progress::Failed)
    &&& match pair {
        Some(pair) => {
            &&& words.sizes matches Some(sizes)
            &&& sizes@ == scan::size_text(before) + " → "@ + report::setting_text(
                audit.format,
                audit.quality,
            ) + " · "@ + scan::size_text(pair.converted_bytes as nat)
            &&& words.saving matches Some((share, tone))
            &&& (share@, tone) == saving_words(before, pair.converted_bytes as nat)
            &&& words.status@ == size_words(pair.width as nat, pair.height as nat) + " · "@
                + scale_words(scale) + "%"@
        },
        None => {
            &&& words.sizes is None
            &&& words.saving is None
            &&& words.status@ == if comparison.progress == Progress::Failed {
                "Preview unavailable"@
            } else {
                "decoding…"@
            }
        },
    }
}

fn saving_of(pair: &Pair, before: u64) -> (out: (String, Tone))
    ensures
        (out.0@, out.1) == saving_words(before as nat, pair.converted_bytes as nat),
{
    let saving = pair.saving_percent(before);
    let mut words = (if saving.negative {
        "+"
    } else {
        "−"
    }).to_string();
    words.append(number::fixed_of(saving.size, 0, Precision::Single).as_str());
    words.append("%");
    (
        words,
        if saving.negative {
            Tone::Yellow
        } else {
            Tone::Green
        },
    )
}

/// What the open comparison says. `pair` holds its two sides once they are built, and
/// `scale` is what they are shown at.
pub fn compare_words(audit: &Audit, pair: Option<&Pair>, scale: Ratio) -> (out: Option<
    CompareWords,
>)
    requires
        scale.under > 0,
    ensures
        out is Some == audit.compare is Some,
        out matches Some(words) ==> are_compare_words(
            *audit,
            audit.compare->0,
            match pair {
                Some(pair) => Some(*pair),
                None => None,
            },
            scale,
            words,
        ),
{
    let comparison = match &audit.compare {
        Some(comparison) => comparison,
        None => {
            return None;
        },
    };
    let failed = comparison.progress == Progress::Failed;
    let (name, before): (String, u64) = if comparison.index < audit.entries.len() {
        let entry = &audit.entries[comparison.index];
        (entry.name(), entry.bytes)
    } else {
        (String::new(), 0)
    };
    let side = caps(audit.format);
    match pair {
        Some(pair) => {
            let mut sizes = format_bytes(before);
            sizes.append(" → ");
            sizes.append(report::setting(audit.format, audit.quality).as_str());
            sizes.append(" · ");
            sizes.append(format_bytes(pair.converted_bytes).as_str());
            let mut status = size_of(pair.width, pair.height);
            status.append(" · ");
            status.append(scale_percent(scale).as_str());
            status.append("%");
            let saving = saving_of(pair, before);
            Some(
                CompareWords {
                    name,
                    side,
                    sizes: Some(sizes),
                    saving: Some(saving),
                    status,
                    failed,
                },
            )
        },
        None => {
            let status = if failed {
                "Preview unavailable".to_string()
            } else {
                "decoding…".to_string()
            };
            Some(CompareWords { name, side, sizes: None, saving: None, status, failed })
        },
    }
}

/// As many files are counted for a finding as it is true of.
pub proof fn law_every_finding_is_counted(finding: Finding, entries: Seq<Entry>, n: int)
    requires
        0 <= n <= entries.len(),
    ensures
        found(finding, entries, n) == entries.take(n).filter(
            |entry: Entry| rows::is_found(finding, entry),
        ).len(),
    decreases n,
{
    reveal(Seq::filter);
    if n > 0 {
        law_every_finding_is_counted(finding, entries, n - 1);
        assert(entries.take(n).drop_last() =~= entries.take(n - 1));
        assert(entries.take(n).last() == entries[n - 1]);
    }
}

/// The browser names each folder of a listing by what stands behind its last slash, in order,
/// and names nothing else.
pub proof fn law_the_browser_names_every_folder(nodes: Seq<Node>, n: int)
    requires
        0 <= n <= nodes.len(),
    ensures
        folder_names(nodes, n) == nodes.take(n).filter(
            |node: Node| node.kind@ == seq!['f', 'o', 'l', 'd', 'e', 'r'],
        ).map_values(|node: Node| leaf(node.filename@)),
    decreases n,
{
    reveal(Seq::filter);
    reveal_strlit("folder");
    assert("folder"@ =~= seq!['f', 'o', 'l', 'd', 'e', 'r']);
    let is_folder = |node: Node| node.kind@ == seq!['f', 'o', 'l', 'd', 'e', 'r'];
    let named = |node: Node| leaf(node.filename@);
    if n > 0 {
        law_the_browser_names_every_folder(nodes, n - 1);
        assert(nodes.take(n).drop_last() =~= nodes.take(n - 1));
        assert(nodes.take(n).last() == nodes[n - 1]);
        let front = nodes.take(n - 1).filter(is_folder);
        assert(front.push(nodes[n - 1]).map_values(named) =~= front.map_values(named).push(
            leaf(nodes[n - 1].filename@),
        ));
    } else {
        assert(nodes.take(0).filter(is_folder).map_values(named) =~= seq![]);
    }
}

/// A remote path is named by what stands behind its last slash.
pub proof fn law_a_remote_path_ends_in_its_name(folder: Seq<char>, name: Seq<char>)
    requires
        !name.contains('/'),
    ensures
        leaf(folder + seq!['/'] + name) == name,
        leaf(name) == name,
{
    crate::sirv::lemma_last_slash(folder, name);
    name.index_of_last_ensures('/');
}

/// The window shows the list just where files are there and nothing is open over them, and
/// a scan just while one runs.
pub proof fn law_the_window_shows_what_is_there(audit: Audit, settings_open: bool)
    ensures
        screen_of(audit, settings_open) is Scanning <==> audit.scanning is Some,
        screen_of(audit, settings_open) is Empty <==> audit.scanning is None
            && audit.entries@.len() == 0,
        screen_of(audit, settings_open) is List <==> audit.scanning is None
            && audit.entries@.len() > 0 && !settings_open && audit.remote.browser is None
            && audit.compare is None,
        screen_of(audit, settings_open) is Settings ==> settings_open,
        screen_of(audit, settings_open) is Browser ==> audit.remote.browser is Some,
        screen_of(audit, settings_open) is Compare ==> audit.compare is Some
            && audit.remote.browser is None,
{
}

/// A file looks alike in the table and in the gallery: the tick, the name, the density and
/// its colour, and how it stands against the paired folder.
pub proof fn law_table_and_gallery_agree(
    audit: Audit,
    row: usize,
    index: int,
    tile: Tile,
    column: TableColumn,
    cell: Cell,
)
    requires
        is_tile(audit, row, index, tile),
        is_cell(audit, index, column, cell),
    ensures
        column is Tick ==> cell == Cell::Tick(tile.ticked),
        column is Thumb ==> cell == Cell::Thumb(tile.thumb),
        column is Name ==> (cell matches Cell::Name(name) && name@ == tile.name@),
        column is Density ==> (cell matches Cell::Density(density, tone) && density@
            == tile.density@ && tone == tile.density_tone),
        column is Sync ==> (cell matches Cell::Sync(label) && label_view(label) == label_view(
            tile.sync,
        )),
        column is Format ==> (cell matches Cell::Format(name, tone, lies) && name@
            == tile.format@ && (lies || tone == tile.format_tone)),
        tile.ticked <==> audit.selected@.contains(index as usize),
{
}

/// What a file became is shown just where it was converted, and what that saved just where
/// it did not grow.
pub proof fn law_results_are_shown_where_they_landed(audit: Audit, index: int, cell: Cell)
    requires
        is_cell(audit, index, TableColumn::Result, cell),
    ensures
        cell is Result,
        cell matches Cell::Result(result) ==> (result is Some <==> audit.results@.contains_key(
            index as usize,
        )),
        cell matches Cell::Result(Some((_, saved))) ==> (saved is Some
            <==> audit.results@[index as usize] <= audit.entries@[index].bytes),
{
}

/// A saving is green and carries a minus where the file did not grow; it is amber and
/// carries a plus where it became twice as large or more.
pub proof fn law_savings_say_which_way(before: nat, after: nat)
    requires
        before > 0,
    ensures
        saving_words(before, after).0.len() > 0,
        saving_words(before, after).1 is Yellow <==> saving_words(before, after).0[0] == '+',
        after <= before ==> saving_words(before, after).1 is Green,
        2 * before <= after ==> saving_words(before, after).1 is Yellow,
{
    reveal_strlit("+");
    reveal_strlit("−");
    compare::law_savings_are_percent_of_the_source(before, after);
}

/// Nothing can be pressed while a transfer runs. Otherwise a pull can be where something is
/// missing here, and a push where something is missing there.
pub proof fn law_buttons_rest_while_a_transfer_runs(
    audit: Audit,
    dir: Seq<char>,
    buttons: PairButtons,
)
    requires
        are_pair_buttons(audit, dir, buttons),
    ensures
        audit.remote.is_busy() ==> !buttons.pull_enabled && !buttons.push_enabled
            && !buttons.unpair_enabled,
        audit.remote.counts is None ==> !buttons.pull_enabled && !buttons.push_enabled,
        audit.remote.counts matches Some((to_push, _, to_pull)) ==> !audit.remote.is_busy() ==> {
            &&& buttons.push_enabled <==> to_push > 0
            &&& buttons.pull_enabled <==> to_pull > 0
            &&& buttons.unpair_enabled
        },
{
}

/// A file is called new where the paired folder has none of its name, synced where it has
/// one of the same size, and changed where it has one of another.
pub proof fn law_labels_say_how_files_stand(
    audit: Audit,
    entry: Entry,
    files: sync::RemoteFiles,
    key: Seq<char>,
)
    requires
        sync::ready_files(audit.remote.pairing) == Some(files),
        crate::sirv::key_below(audit.root@, entry.path@) == Some(key),
    ensures
        !files@.contains_key(key) ==> label_of(audit, entry) == Some(("new"@, Tone::Blue)),
        files@.contains_key(key) && files@[key].size == entry.bytes ==> label_of(audit, entry)
            == Some(("synced"@, Tone::Muted)),
        files@.contains_key(key) && files@[key].size != entry.bytes ==> label_of(audit, entry)
            == Some(("changed"@, Tone::Yellow)),
{
}

/// Without a listing that is ready no file is said to stand in any way.
pub proof fn law_nothing_is_said_without_a_listing(audit: Audit, entry: Entry)
    ensures
        audit.remote.pairing is None ==> label_of(audit, entry) is None,
        label_of(audit, entry) is Some ==> audit.remote.pairing is Some
            && audit.remote.pairing->0.files is Ready,
{
}

/// A size begins with the width and ends in the height.
pub proof fn law_sizes_say_the_width_first(width: nat, height: nat)
    ensures
        text::decimal(width).is_prefix_of(size_words(width, height)),
        text::decimal(height).is_suffix_of(size_words(width, height)),
        size_words(width, height).len() == text::decimal(width).len() + 1 + text::decimal(
            height,
        ).len(),
{
    reveal_strlit("×");
    let (w, h) = (text::decimal(width), text::decimal(height));
    let all = size_words(width, height);
    assert(all.take(w.len() as int) =~= w);
    assert(all.skip(all.len() - h.len()) =~= h);
}

/// Just the formats that a conversion writes are green. A density is green just where it is
/// good and red just where it is heavy.
pub proof fn law_colours_tell_good_from_bad(format: ImageFormat, band: Band)
    ensures
        format_tone(format) is Green <==> format == ImageFormat::WebP || format
            == ImageFormat::Avif,
        density_tone(band) is Green <==> band is Good,
        density_tone(band) is Red <==> band is Heavy,
        density_tone(band) is Yellow <==> band is Suspicious,
{
}

/// A picture shown as large as it is stands at a hundred percent.
pub proof fn law_a_full_size_picture_is_at_a_hundred_percent(scale: Ratio)
    requires
        scale.over == scale.under,
        scale.under > 0,
    ensures
        scale_words(scale) == text::decimal(100),
{
    let single = Precision::Single;
    let (a, hundred) = (
        number::nearest(scale.under as nat, 1, single),
        number::nearest(100, 1, single),
    );
    number::lemma_nearest_fills(scale.under as nat, 1, single);
    number::lemma_nearest_fills(100, 1, single);
    number::lemma_over_itself(a, single);
    number::lemma_times_a_power(hundred, 0, single);
    number::law_whole_numbers_read_as_they_are(100, single);
}

/// A comparison is called by the name of its file; sizes and the saving are said just once
/// both sides are there, and a failure is said of just the one that failed.
pub proof fn law_a_comparison_speaks_of_its_file(
    audit: Audit,
    comparison: audit::Comparison,
    pair: Option<Pair>,
    scale: Ratio,
    words: CompareWords,
)
    requires
        are_compare_words(audit, comparison, pair, scale, words),
        comparison.index < audit.entries@.len(),
    ensures
        words.name@ == scan::title(audit.entries@[comparison.index as int].path@),
        words.sizes is Some <==> pair is Some,
        words.saving is Some <==> pair is Some,
        words.failed <==> comparison.progress == Progress::Failed,
        pair matches Some(pair) ==> words.saving matches Some((_, tone)) ==> {
            let before = audit.entries@[comparison.index as int].bytes as nat;
            before > 0 && pair.converted_bytes <= before ==> tone is Green
        },
{
    if let Some(pair) = pair {
        let before = audit.entries@[comparison.index as int].bytes as nat;
        if before > 0 {
            law_savings_say_which_way(before, pair.converted_bytes as nat);
        }
    }
}

} // verus!
