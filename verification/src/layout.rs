//! How the window is laid out: its own size, the gallery's tiles and the table's
//! columns.
//!
//! Lengths are whole numbers, `PIXEL` of them to one pixel. That is the step between
//! neighbouring single-precision lengths around the size of a tile, so a tile comes out
//! as the length that single-precision arithmetic would round it to.

use crate::number;
use crate::number::{Number, Precision};
use crate::rows::{Column, Sort};
use crate::thumbs::THUMB_EDGE;
use vstd::prelude::*;

verus! {

/// One pixel.
pub const PIXEL: i64 = 65_536;

/// The smallest window that supports every view, in pixels.
pub const WINDOW_MIN_WIDTH: u64 = 760;

pub const WINDOW_MIN_HEIGHT: u64 = 560;

pub const WINDOW_DEFAULT_WIDTH: u64 = 900;

pub const WINDOW_DEFAULT_HEIGHT: u64 = 640;

/// A length as a stored file gives it.
#[derive(Clone, Copy, Debug, PartialEq, Eq, Structural)]
pub enum Reading {
    /// So many pixels, or as many below zero.
    Finite { negative: bool, size: Number },
    /// Without end, or no number at all.
    NotFinite,
}

/// The length a window is restored to: the stored one where it is finite, but no less
/// than `least`; else `usual`.
pub open spec fn restored(stored: Option<Reading>, usual: nat, least: nat) -> (nat, int) {
    let floor = number::nearest(least, 1, Precision::Single);
    match stored {
        Some(Reading::Finite { negative, size }) => if negative || number::below(
            size.parts(),
            floor,
        ) {
            floor
        } else {
            size.parts()
        },
        _ => number::nearest(usual, 1, Precision::Single),
    }
}

/// The stored length is a single-precision number.
pub open spec fn is_single(stored: Option<Reading>) -> bool {
    stored matches Some(Reading::Finite { size, .. }) ==> size.fills(Precision::Single)
}

fn restore(stored: Option<Reading>, usual: u64, least: u64) -> (out: Number)
    requires
        is_single(stored),
    ensures
        out.parts() == restored(stored, usual as nat, least as nat),
{
    let floor = number::whole(least, Precision::Single);
    match stored {
        Some(Reading::Finite { negative, size }) => {
            proof {
                number::lemma_stands_below(size, floor, Precision::Single);
            }
            if negative || number::less(size, floor) {
                floor
            } else {
                size
            }
        },
        _ => number::whole(usual, Precision::Single),
    }
}

/// The size a window opens at. A persisted size can be absent or corrupted: one that is
/// not finite gives way to the default, and none goes below the smallest window.
pub fn restored_window_size(width: Option<Reading>, height: Option<Reading>) -> (out: (
    Number,
    Number,
))
    requires
        is_single(width),
        is_single(height),
    ensures
        out.0.parts() == restored(width, WINDOW_DEFAULT_WIDTH as nat, WINDOW_MIN_WIDTH as nat),
        out.1.parts() == restored(height, WINDOW_DEFAULT_HEIGHT as nat, WINDOW_MIN_HEIGHT as nat),
{
    (
        restore(width, WINDOW_DEFAULT_WIDTH, WINDOW_MIN_WIDTH),
        restore(height, WINDOW_DEFAULT_HEIGHT, WINDOW_MIN_HEIGHT),
    )
}

pub const TILE_MIN: i64 = 168 * PIXEL;

pub const TILE_MAX: i64 = 224 * PIXEL;

pub const TILE_GAP: i64 = 8 * PIXEL;

/// What a tile keeps around its picture, both sides together.
pub const TILE_PADDING: i64 = 16 * PIXEL;

/// What a tile keeps above and below its picture: padding, name and weight.
pub const TILE_CAPTION: i64 = 68 * PIXEL;

pub const GALLERY_MIN_COLUMNS: usize = 1;

pub const GALLERY_MAX_COLUMNS: usize = 5;

pub const ROOT_PADDING: i64 = 12 * PIXEL;

pub const ROOT_BORDER: i64 = 2 * PIXEL;

pub const GALLERY_PADDING: i64 = 8 * PIXEL;

pub const GALLERY_BORDER: i64 = PIXEL;

/// What stands beside the tiles inside the window's root, both sides together.
pub const GALLERY_CHROME: i64 = 46 * PIXEL;

/// Geometry for one gallery row.
#[derive(Clone, Copy, Debug, PartialEq, Eq, Structural)]
pub struct GalleryLayout {
    pub columns: usize,
    pub rows: usize,
    pub entries: usize,
    pub tile: i64,
}

/// The width left for tiles.
pub open spec fn available(viewport_width: int, root_left: int, root_right: int) -> int {
    let left = viewport_width - (root_left + root_right + GALLERY_CHROME);
    if left > 0 {
        left
    } else {
        0
    }
}

/// How many tiles stand side by side: as many of the smallest as fit with a gap between
/// neighbours, from one to five.
pub open spec fn columns_in(available: int) -> int {
    let fit = (available + TILE_GAP) / (TILE_MIN + TILE_GAP);
    if fit < GALLERY_MIN_COLUMNS {
        GALLERY_MIN_COLUMNS as int
    } else if fit > GALLERY_MAX_COLUMNS {
        GALLERY_MAX_COLUMNS as int
    } else {
        fit
    }
}

/// How wide a tile is: an even share of what the gaps leave, between the smallest and
/// the largest tile.
pub open spec fn tile_in(available: int, columns: int) -> int {
    let share = number::even_quotient(
        (available - (columns - 1) * TILE_GAP) as nat,
        columns as nat,
    ) as int;
    if share < TILE_MIN {
        TILE_MIN as int
    } else if share > TILE_MAX {
        TILE_MAX as int
    } else {
        share
    }
}

/// How many rows of `columns` hold `entries`.
pub open spec fn rows_for(entries: int, columns: int) -> int {
    (entries + columns - 1) / columns
}

/// The first position of a band, and the one after its last.
pub open spec fn band(layout: GalleryLayout, index: int) -> (int, int) {
    let first = if index * layout.columns < layout.entries {
        index * layout.columns
    } else {
        layout.entries as int
    };
    let last = if first + layout.columns < layout.entries {
        first + layout.columns
    } else {
        layout.entries as int
    };
    (first, last)
}

impl GalleryLayout {
    /// The positions on row `band`, from the first to before the second.
    pub fn band_range(self, band: usize) -> (out: (usize, usize))
        ensures
            (out.0 as int, out.1 as int) == self::band(self, band as int),
    {
        let first: usize = match band.checked_mul(self.columns) {
            Some(first) => if first < self.entries {
                first
            } else {
                self.entries
            },
            None => self.entries,
        };
        let last: usize = if self.columns < self.entries - first {
            first + self.columns
        } else {
            self.entries
        };
        (first, last)
    }
}

/// Lay the gallery out in a window `viewport_width` wide whose root keeps `root_left`
/// and `root_right` to itself.
pub fn gallery_layout(
    viewport_width: i64,
    root_left: i64,
    root_right: i64,
    entries: usize,
) -> (out: GalleryLayout)
    ensures
        ({
            let room = available(viewport_width as int, root_left as int, root_right as int);
            &&& out.columns == columns_in(room)
            &&& out.tile == tile_in(room, out.columns as int)
            &&& out.rows == rows_for(entries as int, out.columns as int)
            &&& out.entries == entries
        }),
{
    let left: i128 = viewport_width as i128 - (root_left as i128 + root_right as i128
        + GALLERY_CHROME as i128);
    let room: i128 = if left > 0 {
        left
    } else {
        0
    };
    let fit: i128 = (room + TILE_GAP as i128) / (TILE_MIN + TILE_GAP) as i128;
    let columns: usize = if fit < 1 {
        1
    } else if fit > 5 {
        5
    } else {
        fit as usize
    };
    let spare: i128 = room - (columns as i128 - 1) * TILE_GAP as i128;
    let (share, rest): (i128, i128) = (spare / columns as i128, spare % columns as i128);
    let share: i128 = if 2 * rest < columns as i128 || (2 * rest == columns as i128 && share % 2
        == 0) {
        share
    } else {
        share + 1
    };
    let tile: i64 = if share < TILE_MIN as i128 {
        TILE_MIN
    } else if share > TILE_MAX as i128 {
        TILE_MAX
    } else {
        share as i64
    };
    let rows: usize = if entries == 0 {
        0
    } else {
        (entries - 1) / columns + 1
    };
    proof {
        let c = columns as int;
        assert((entries + c - 1) / c == (if entries == 0 {
            0
        } else {
            (entries - 1) / c + 1
        })) by (nonlinear_arith)
            requires
                1 <= c <= 5,
                0 <= entries,
        ;
    }
    GalleryLayout { columns, rows, entries, tile }
}

/// Every position belongs to exactly one band, bands follow one another without a gap,
/// and together they run from the first position to the last.
pub proof fn law_bands_cover_each_entry_once(layout: GalleryLayout, position: int, other: int)
    requires
        layout.columns >= 1,
        layout.rows == rows_for(layout.entries as int, layout.columns as int),
        0 <= position < layout.entries,
        0 <= other < layout.rows,
    ensures
        ({
            let own = position / layout.columns as int;
            let (first, last) = band(layout, other);
            &&& 0 <= own < layout.rows
            &&& band(layout, own).0 <= position < band(layout, own).1
            &&& first <= position < last ==> other == own
            &&& first < last
            &&& band(layout, 0).0 == 0
            &&& band(layout, layout.rows - 1).1 == layout.entries
            &&& last == band(layout, other + 1).0
        }),
{
    let (n, c, r) = (layout.entries as int, layout.columns as int, layout.rows as int);
    let own = position / c;
    assert(own * c <= position < own * c + c && 0 <= own) by (nonlinear_arith)
        requires
            own == position / c,
            c >= 1,
            position >= 0,
    ;
    assert((r - 1) * c < n && n <= r * c) by (nonlinear_arith)
        requires
            r == (n + c - 1) / c,
            c >= 1,
            n >= 1,
    ;
    assert(own < r) by (nonlinear_arith)
        requires
            own * c < r * c,
            c >= 1,
    ;
    assert(other * c <= (r - 1) * c) by (nonlinear_arith)
        requires
            other <= r - 1,
            c >= 1,
    ;
    assert((other + 1) * c == other * c + c) by (nonlinear_arith);
    assert(r * c == (r - 1) * c + c) by (nonlinear_arith);
    assert(0 * c == 0) by (nonlinear_arith);
    if other * c <= position < other * c + c {
        assert(other == own) by (nonlinear_arith)
            requires
                other * c <= position < other * c + c,
                own * c <= position < own * c + c,
                c >= 1,
        ;
    }
}

/// The gallery gains its column `columns` exactly where that many of the smallest tiles
/// fit, with their gaps, beside what the window keeps to itself.
pub proof fn law_columns_change_at_their_thresholds(
    viewport_width: int,
    root_left: int,
    root_right: int,
    columns: int,
)
    requires
        2 <= columns <= GALLERY_MAX_COLUMNS,
    ensures
        columns_in(available(viewport_width, root_left, root_right)) >= columns <==> viewport_width
            >= root_left + root_right + GALLERY_CHROME + columns * TILE_MIN + (columns - 1)
            * TILE_GAP,
        1 <= columns_in(available(viewport_width, root_left, root_right)) <= GALLERY_MAX_COLUMNS,
{
}

/// A tile is never smaller than the smallest nor larger than the largest, and the
/// picture in the largest is no wider than a thumbnail.
pub proof fn law_a_thumbnail_fills_its_tile(available: int, columns: int)
    ensures
        TILE_MIN <= tile_in(available, columns) <= TILE_MAX,
        tile_in(available, columns) - TILE_PADDING <= THUMB_EDGE * PIXEL,
{
}

pub const THUMB_SLOT: i64 = 34 * PIXEL;

/// What the thumbnail's column keeps beside its slot.
pub const THUMB_MARGIN: i64 = 12 * PIXEL;

pub const W_TICK: i64 = 34 * PIXEL;

pub const W_FORMAT: i64 = 82 * PIXEL;

pub const W_PIXELS: i64 = 96 * PIXEL;

pub const W_DENSITY: i64 = 74 * PIXEL;

pub const W_WEIGHT: i64 = 100 * PIXEL;

pub const W_RESULT: i64 = 112 * PIXEL;

/// The Sirv column. Wide windows only: below `W_WIDE` the name needs the room more than
/// the status does.
pub const W_SYNC: i64 = 86 * PIXEL;

pub const W_FORMAT_COMPACT: i64 = 70 * PIXEL;

pub const W_PIXELS_COMPACT: i64 = 88 * PIXEL;

pub const W_DENSITY_COMPACT: i64 = 60 * PIXEL;

pub const W_WEIGHT_COMPACT: i64 = 86 * PIXEL;

pub const W_NAME_MIN: i64 = 140 * PIXEL;

/// From this width on a window has room for every column at full width.
pub const W_WIDE: i64 = 900 * PIXEL;

/// What the table spends on gaps, cell padding and its own border.
pub const CHROME: i64 = 30 * PIXEL;

/// The columns of the table. `Column` is what the list sorts by; this adds the ones that
/// carry no sortable value of their own.
#[derive(Clone, Copy, Debug, PartialEq, Eq, Structural)]
pub enum TableColumn {
    Tick,
    Thumb,
    Name,
    Format,
    Pixels,
    Density,
    Weight,
    Sync,
    Result,
}

/// How one column is drawn.
#[derive(Clone, Copy, Debug)]
pub struct ColumnSpec {
    pub key: &'static str,
    pub title: &'static str,
    pub width: i64,
    pub min_width: Option<i64>,
    /// Its text stands on the right.
    pub right: bool,
    pub sortable: bool,
    pub resizable: bool,
    /// Its cells keep a padding.
    pub padded: bool,
    /// The arrow it shows: the list is ordered by it, and whether downwards.
    pub arrow: Option<bool>,
}

/// The column of the list that a table column sorts by.
pub open spec fn sort_column(column: TableColumn) -> Option<Column> {
    match column {
        TableColumn::Name => Some(Column::Name),
        TableColumn::Format => Some(Column::Format),
        TableColumn::Pixels => Some(Column::Pixels),
        TableColumn::Density => Some(Column::Density),
        TableColumn::Weight => Some(Column::Weight),
        _ => None,
    }
}

/// How wide a column is, where the name gets `name_width`.
pub open spec fn width_of(column: TableColumn, name_width: int, compact: bool) -> int {
    match column {
        TableColumn::Tick => W_TICK as int,
        TableColumn::Thumb => THUMB_SLOT + THUMB_MARGIN,
        TableColumn::Name => name_width,
        TableColumn::Format => if compact {
            W_FORMAT_COMPACT as int
        } else {
            W_FORMAT as int
        },
        TableColumn::Pixels => if compact {
            W_PIXELS_COMPACT as int
        } else {
            W_PIXELS as int
        },
        TableColumn::Density => if compact {
            W_DENSITY_COMPACT as int
        } else {
            W_DENSITY as int
        },
        TableColumn::Weight => if compact {
            W_WEIGHT_COMPACT as int
        } else {
            W_WEIGHT as int
        },
        TableColumn::Sync => W_SYNC as int,
        TableColumn::Result => W_RESULT as int,
    }
}

/// `spec` says how `column` is drawn, its arrow aside.
pub open spec fn is_drawn(
    column: TableColumn,
    name_width: int,
    compact: bool,
    spec: ColumnSpec,
) -> bool {
    &&& spec.key@ == (match column {
        TableColumn::Tick => "tick"@,
        TableColumn::Thumb => "thumb"@,
        TableColumn::Name => "name"@,
        TableColumn::Format => "format"@,
        TableColumn::Pixels => "pixels"@,
        TableColumn::Density => "density"@,
        TableColumn::Weight => "weight"@,
        TableColumn::Sync => "sirv"@,
        TableColumn::Result => "result"@,
    })
    &&& spec.title@ == (match column {
        TableColumn::Tick => ""@,
        TableColumn::Thumb => ""@,
        TableColumn::Name => "Name"@,
        TableColumn::Format => "Format"@,
        TableColumn::Pixels => "Size"@,
        TableColumn::Density => "B/px"@,
        TableColumn::Weight => "Weight"@,
        TableColumn::Sync => "Sirv"@,
        TableColumn::Result => "Result"@,
    })
    &&& spec.width == width_of(column, name_width, compact)
    &&& spec.min_width == if column == TableColumn::Name {
        Some(W_NAME_MIN)
    } else {
        None::<i64>
    }
    &&& spec.right == (column == TableColumn::Pixels || column == TableColumn::Density || column
        == TableColumn::Weight || column == TableColumn::Result)
    &&& spec.sortable == (sort_column(column) is Some)
    &&& spec.resizable == (column == TableColumn::Name)
    &&& spec.padded == (column != TableColumn::Thumb)
}

/// The columns of a table, in display order.
pub open spec fn columns_for(compact: bool) -> Seq<TableColumn> {
    let shared = seq![
        TableColumn::Tick,
        TableColumn::Thumb,
        TableColumn::Name,
        TableColumn::Format,
        TableColumn::Pixels,
        TableColumn::Density,
        TableColumn::Weight,
    ];
    if compact {
        shared.push(TableColumn::Result)
    } else {
        shared.push(TableColumn::Sync).push(TableColumn::Result)
    }
}

/// What every column but the name takes.
pub open spec fn fixed(compact: bool, show_result: bool) -> int {
    let shared = width_of(TableColumn::Tick, 0, compact) + width_of(TableColumn::Thumb, 0, compact)
        + width_of(TableColumn::Format, 0, compact) + width_of(TableColumn::Pixels, 0, compact)
        + width_of(TableColumn::Density, 0, compact) + width_of(TableColumn::Weight, 0, compact);
    shared + (if compact {
        0
    } else {
        W_SYNC as int
    }) + (if show_result {
        W_RESULT as int
    } else {
        0
    })
}

/// What the other columns leave for the name in a table `width` wide, but no less than
/// its smallest width.
pub open spec fn name_width_in(width: int, compact: bool, show_result: bool) -> int {
    let left = width - fixed(compact, show_result) - CHROME;
    if left < W_NAME_MIN {
        W_NAME_MIN as int
    } else {
        left
    }
}

impl TableColumn {
    /// The column of the list this sorts by, if it sorts.
    pub fn sorts_by(&self) -> (out: Option<Column>)
        ensures
            out == sort_column(*self),
    {
        match self {
            TableColumn::Name => Some(Column::Name),
            TableColumn::Format => Some(Column::Format),
            TableColumn::Pixels => Some(Column::Pixels),
            TableColumn::Density => Some(Column::Density),
            TableColumn::Weight => Some(Column::Weight),
            _ => None,
        }
    }

    /// How this column is drawn, with the name `name_width` wide. The name takes
    /// whatever the other columns leave, so the window has no dead strip on its right.
    pub fn spec(&self, name_width: i64, compact: bool) -> (out: ColumnSpec)
        ensures
            is_drawn(*self, name_width as int, compact, out),
            out.arrow is None,
    {
        let (key, title, width): (&'static str, &'static str, i64) = match self {
            TableColumn::Tick => ("tick", "", W_TICK),
            TableColumn::Thumb => ("thumb", "", THUMB_SLOT + THUMB_MARGIN),
            TableColumn::Name => ("name", "Name", name_width),
            TableColumn::Format => (
                "format",
                "Format",
                if compact {
                    W_FORMAT_COMPACT
                } else {
                    W_FORMAT
                },
            ),
            TableColumn::Pixels => (
                "pixels",
                "Size",
                if compact {
                    W_PIXELS_COMPACT
                } else {
                    W_PIXELS
                },
            ),
            TableColumn::Density => (
                "density",
                "B/px",
                if compact {
                    W_DENSITY_COMPACT
                } else {
                    W_DENSITY
                },
            ),
            TableColumn::Weight => (
                "weight",
                "Weight",
                if compact {
                    W_WEIGHT_COMPACT
                } else {
                    W_WEIGHT
                },
            ),
            TableColumn::Sync => ("sirv", "Sirv", W_SYNC),
            TableColumn::Result => ("result", "Result", W_RESULT),
        };
        let is_name = *self == TableColumn::Name;
        ColumnSpec {
            key,
            title,
            width,
            min_width: if is_name {
                Some(W_NAME_MIN)
            } else {
                None
            },
            right: *self == TableColumn::Pixels || *self == TableColumn::Density || *self
                == TableColumn::Weight || *self == TableColumn::Result,
            sortable: self.sorts_by().is_some(),
            resizable: is_name,
            padded: *self != TableColumn::Thumb,
            arrow: None,
        }
    }
}

/// The table's columns, laid out for a window.
#[derive(Debug)]
pub struct AuditTable {
    pub columns: Vec<TableColumn>,
    /// Width for the name column, so the fixed columns do not leave an empty strip.
    pub name_width: i64,
    pub compact: bool,
    pub show_result: bool,
}

impl AuditTable {
    /// The table is laid out for a window `width` wide.
    pub open spec fn laid_out(self, width: int) -> bool {
        &&& self.compact == (width < W_WIDE)
        &&& self.name_width == name_width_in(width, self.compact, self.show_result)
        &&& self.columns@ == columns_for(self.compact)
    }

    /// What every column but the name takes.
    pub fn fixed_width(compact: bool, show_result: bool) -> (out: i64)
        ensures
            out == fixed(compact, show_result),
    {
        let shared: i64 = if compact {
            W_TICK + THUMB_SLOT + THUMB_MARGIN + W_FORMAT_COMPACT + W_PIXELS_COMPACT
                + W_DENSITY_COMPACT + W_WEIGHT_COMPACT
        } else {
            W_TICK + THUMB_SLOT + THUMB_MARGIN + W_FORMAT + W_PIXELS + W_DENSITY + W_WEIGHT
                + W_SYNC
        };
        if show_result {
            shared + W_RESULT
        } else {
            shared
        }
    }

    /// Whether a table `width` wide is compact, how wide its name column is, and which
    /// columns it has.
    pub fn layout(width: i64, show_result: bool) -> (out: (bool, i64, Vec<TableColumn>))
        ensures
            out.0 == (width < W_WIDE),
            out.1 == name_width_in(width as int, out.0, show_result),
            out.2@ == columns_for(out.0),
    {
        let compact = width < W_WIDE;
        let taken: i64 = Self::fixed_width(compact, show_result) + CHROME;
        let name_width: i64 = if width < taken + W_NAME_MIN {
            W_NAME_MIN
        } else {
            width - taken
        };
        let mut columns = vec![
            TableColumn::Tick,
            TableColumn::Thumb,
            TableColumn::Name,
            TableColumn::Format,
            TableColumn::Pixels,
            TableColumn::Density,
            TableColumn::Weight,
        ];
        if !compact {
            columns.push(TableColumn::Sync);
        }
        columns.push(TableColumn::Result);
        assert(columns@ =~= columns_for(compact));
        (compact, name_width, columns)
    }

    /// A table for a window `width` wide, before anything is converted.
    pub fn new(width: i64) -> (out: Self)
        ensures
            out.laid_out(width as int),
            !out.show_result,
    {
        let (compact, name_width, columns) = Self::layout(width, false);
        AuditTable { columns, name_width, compact, show_result: false }
    }

    /// Lay the table out anew.
    pub fn set_viewport_width(&mut self, width: i64, show_result: bool)
        ensures
            final(self).laid_out(width as int),
            final(self).show_result == show_result,
    {
        let (compact, name_width, columns) = Self::layout(width, show_result);
        self.compact = compact;
        self.name_width = name_width;
        self.columns = columns;
        self.show_result = show_result;
    }

    /// How many columns are shown. The result column comes last, and only exists once
    /// there is something to put in it.
    pub fn columns_count(&self) -> (out: usize)
        requires
            self.columns@.len() > 0,
        ensures
            out == self.columns@.len() - (if self.show_result {
                0int
            } else {
                1
            }),
    {
        if self.show_result {
            self.columns.len()
        } else {
            self.columns.len() - 1
        }
    }

    /// How the column at `index` is drawn, with an arrow on the one the list is ordered
    /// by. There is nothing past the last.
    pub fn column(&self, index: usize, sort: Sort) -> (out: Option<ColumnSpec>)
        ensures
            index >= self.columns@.len() ==> out is None,
            index < self.columns@.len() ==> {
                let column = self.columns@[index as int];
                &&& out matches Some(spec)
                &&& is_drawn(column, self.name_width as int, self.compact, spec)
                &&& spec.arrow == if sort_column(column) == Some(sort.column) {
                    Some(sort.descending)
                } else {
                    None
                }
            },
    {
        if index >= self.columns.len() {
            return None;
        }
        let column = self.columns[index];
        let mut spec = column.spec(self.name_width, self.compact);
        if let Some(sorted) = column.sorts_by() {
            if sorted == sort.column {
                spec.arrow = Some(sort.descending);
            }
        }
        Some(spec)
    }

    /// What a press on the head of the column at `index` sorts by.
    pub fn sort_at(&self, index: usize) -> (out: Option<Column>)
        ensures
            out == if index < self.columns@.len() {
                sort_column(self.columns@[index as int])
            } else {
                None
            },
    {
        if index < self.columns.len() {
            self.columns[index].sorts_by()
        } else {
            None
        }
    }
}

/// What the first `n` of `columns` take together.
pub open spec fn taken(columns: Seq<TableColumn>, n: int, name_width: int, compact: bool) -> int
    decreases n,
{
    if n <= 0 {
        0
    } else {
        taken(columns, n - 1, name_width, compact) + width_of(columns[n - 1], name_width, compact)
    }
}

/// The shown columns and the table's chrome fill the window exactly, wherever the name
/// is not already at its smallest; a narrower window overflows by what it lacks.
pub proof fn law_columns_fill_the_window(width: int, show_result: bool)
    ensures
        ({
            let compact = width < W_WIDE;
            let columns = columns_for(compact);
            let name = name_width_in(width, compact, show_result);
            let shown = columns.len() - (if show_result {
                0int
            } else {
                1
            });
            let filled = taken(columns, shown, name, compact) + CHROME;
            &&& name >= W_NAME_MIN
            &&& filled >= width
            &&& name > W_NAME_MIN ==> filled == width
            &&& columns.contains(TableColumn::Weight)
            &&& columns.contains(TableColumn::Density)
            &&& columns.last() == TableColumn::Result
        }),
{
    reveal_with_fuel(taken, 10);
    let columns = columns_for(width < W_WIDE);
    assert(columns[5] == TableColumn::Density);
    assert(columns[6] == TableColumn::Weight);
}

/// A window is never restored smaller than supported: a stored length that is large enough
/// is taken as it is, any other finite one makes way for the smallest that will do, and
/// without one the window opens at its usual size.
pub proof fn law_windows_are_never_too_small(stored: Option<Reading>, usual: nat, least: nat)
    requires
        least <= usual,
    ensures
        !number::below(
            restored(stored, usual, least),
            number::nearest(least, 1, Precision::Single),
        ),
        stored is None ==> restored(stored, usual, least) == number::nearest(
            usual,
            1,
            Precision::Single,
        ),
        stored matches Some(Reading::Finite { negative, size }) ==> {
            let floor = number::nearest(least, 1, Precision::Single);
            &&& !negative && !number::below(size.parts(), floor) ==> restored(stored, usual, least)
                == size.parts()
            &&& negative ==> restored(stored, usual, least) == floor
        },
{
    let floor = number::nearest(least, 1, Precision::Single);
    number::lemma_below_is_an_order(floor, floor, floor);
    number::law_rounding_keeps_the_order(least, 1, usual, 1, Precision::Single);
}

/// The gallery has room for its tiles: side by side with the gaps between them they are no
/// wider than what is left for them, unless even one of the smallest does not fit; and there
/// is no more room for another column, unless there are five.
pub proof fn law_tiles_fit_side_by_side(available: int)
    requires
        0 <= available,
    ensures
        1 <= columns_in(available) <= 5,
        available >= 168 * 65_536 ==> columns_in(available) * (168 * 65_536) + (columns_in(
            available,
        ) - 1) * TILE_GAP <= available,
        columns_in(available) < 5 ==> available < (columns_in(available) + 1) * (168 * 65_536)
            + columns_in(available) * TILE_GAP,
{
    let (gap, least) = (TILE_GAP as int, TILE_MIN as int);
    let fit = (available + gap) / (least + gap);
    let columns = columns_in(available);
    vstd::arithmetic::div_mod::lemma_fundamental_div_mod(available + gap, least + gap);
    assert(least == 168 * 65_536);
    assert((least + gap) * fit == fit * least + fit * gap) by (nonlinear_arith);
    assert(columns * least + columns * gap == columns * (least + gap)) by (nonlinear_arith);
    assert((columns - 1) * gap == columns * gap - gap) by (nonlinear_arith);
    assert((columns + 1) * least == columns * least + least) by (nonlinear_arith);
    if columns <= fit {
        assert(columns * (least + gap) <= (least + gap) * fit) by (nonlinear_arith)
            requires
                columns <= fit,
                least + gap > 0,
        ;
    }
    if fit <= columns {
        assert((least + gap) * fit <= columns * (least + gap)) by (nonlinear_arith)
            requires
                fit <= columns,
                least + gap > 0,
        ;
    }
    if available >= least {
        assert(fit >= 1) by (nonlinear_arith)
            requires
                fit == (available + gap) / (least + gap),
                available >= least,
                least + gap > 0,
        ;
    }
}

/// Every order of the list has a column whose title asks for it, in a window of any width,
/// and just one.
pub proof fn law_every_order_has_its_column(order: Column, a: TableColumn, b: TableColumn, compact: bool)
    ensures
        sort_column(a) is Some && sort_column(a) == sort_column(b) ==> a == b,
        exists|i: int|
            0 <= i < columns_for(compact).len() && sort_column(#[trigger] columns_for(compact)[i])
                == Some(order),
{
    let columns = columns_for(compact);
    assert(sort_column(columns[2]) == Some(Column::Name));
    assert(sort_column(columns[3]) == Some(Column::Format));
    assert(sort_column(columns[4]) == Some(Column::Pixels));
    assert(sort_column(columns[5]) == Some(Column::Density));
    assert(sort_column(columns[6]) == Some(Column::Weight));
}

/// A narrow window goes without the column for the paired folder and keeps every other.
pub proof fn law_only_the_paired_folder_gives_way(column: TableColumn, compact: bool)
    ensures
        columns_for(compact).contains(column) <==> !(compact && column is Sync),
        columns_for(compact).no_duplicates(),
{
    let columns = columns_for(compact);
    assert(columns[0] is Tick && columns[1] is Thumb && columns[2] is Name && columns[3] is Format
        && columns[4] is Pixels && columns[5] is Density && columns[6] is Weight);
    assert(columns.last() is Result);
    if !compact {
        assert(columns[7] is Sync && columns[8] is Result);
    }
}

/// Tiles that are neither the smallest nor the largest fill the room they have, with the
/// gaps between them, to within half a step each.
pub proof fn law_tiles_fill_their_row(available: int, columns: int)
    requires
        columns > 0,
        (columns - 1) * TILE_GAP <= available,
        TILE_MIN < tile_in(available, columns) < TILE_MAX,
    ensures
        2 * (columns * tile_in(available, columns) + (columns - 1) * TILE_GAP - available)
            <= columns,
        2 * (available - columns * tile_in(available, columns) - (columns - 1) * TILE_GAP)
            <= columns,
{
    let room = (available - (columns - 1) * TILE_GAP) as nat;
    let share = number::even_quotient(room, columns as nat);
    number::lemma_even_quotient_is_near(room, columns as nat);
    assert(share * (columns as nat) == columns * share) by (nonlinear_arith)
        requires
            columns > 0,
    ;
}

} // verus!
