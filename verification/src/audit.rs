//! The audit: one folder, what is listed of it, what is ticked, and what is being
//! done with it.
//!
//! Each method is one event. What it asks to have done outside, such as encoding a
//! few samples, comes back as its result, stamped with the generation it belongs to,
//! so that work finished for a state that has passed can be told from work still
//! wanted.

use crate::convert;
use crate::convert::{Format, MaxEdge, Quality};
use crate::estimate;
use crate::estimate::Stratum;
use crate::rows;
use crate::rows::{Column, Finding, Sort};
use crate::scan;
use crate::scan::{Entry, Scan};
use crate::sirv::Node;
use crate::sync;
use crate::sync::Remote;
use crate::text;
use std::collections::{HashMap, HashSet, VecDeque};
use vstd::prelude::*;

verus! {

broadcast use vstd::std_specs::hash::group_hash_axioms;

/// Everything the window knows about the open folder.
pub struct Audit {
    pub root: String,
    pub entries: Vec<Entry>,
    /// Camera raw files in the folder, counted and not listed.
    pub skipped_raw: usize,
    /// Files that claim to be images and could not be read, by path.
    pub unreadable: Vec<String>,
    /// Files already sitting in the output folder when this one was scanned.
    pub existing_output: usize,
    /// Files whose extension disagrees with their contents. Counted once when the
    /// folder is read.
    pub mislabelled: usize,
    pub format: Format,
    pub quality: Quality,
    pub max_edge: MaxEdge,
    /// The last quality the slider was set to, so turning lossless off goes back to
    /// where it was.
    pub slider_quality: i64,
    /// Rows ticked for conversion. Empty means all of them.
    pub selected: HashSet<usize>,
    /// Encoded size per entry, filled in as conversion progresses.
    pub results: HashMap<usize, u64>,
    pub converting: bool,
    /// The immutable denominator owned by the active conversion.
    pub active_target_count: Option<usize>,
    /// Names of files a conversion could not read or write.
    pub failures: Vec<String>,
    pub sort: Sort,
    /// Indices into `entries`, filtered and sorted. `entries` itself never moves, so
    /// ticks and results stay attached to their file through both.
    pub visible: Vec<usize>,
    /// What the name must contain. Empty shows everything.
    pub filter: String,
    /// The finding the list is narrowed to, if any.
    pub finding: Option<Finding>,
    /// Row the keyboard is on, as a position in `visible`.
    pub cursor: usize,
    /// Where the last plain click landed, which is the fixed end of a run.
    pub anchor: usize,
    /// List or gallery.
    pub grid: bool,
    /// The column count the gallery was laid out with last.
    pub gallery_columns: Option<usize>,
    /// Projected output size for the current settings, and how many files were
    /// encoded to get it.
    pub estimate: Option<(u64, usize)>,
    /// Bumped on every change that makes a running estimate stale.
    pub estimate_generation: u64,
    /// Bumped when another folder or file is installed.
    pub dataset_generation: u64,
    /// Bumped by each request to open something, so that an older scan can tell.
    pub scan_generation: u64,
    /// What is being scanned, if anything.
    pub scanning: Option<String>,
    /// Bytes of the heaviest visible file.
    pub heaviest: u64,
    /// Bytes of all visible files.
    pub visible_bytes: u64,
    /// Entries whose thumbnail is decoded and kept.
    pub thumbs: HashSet<usize>,
    /// Entries already handed out for decoding, so scrolling past one twice does not
    /// decode it twice.
    pub requested: HashSet<usize>,
    /// The order `thumbs` filled up in, so the oldest is the one that leaves.
    pub thumb_order: VecDeque<usize>,
    /// The open side-by-side view, if any.
    pub compare: Option<Comparison>,
    /// What the last pair built shows, so that opening the same again is instant.
    pub cached: Option<Key>,
    /// The remote side.
    pub remote: Remote,
}

/// Decoded thumbnails kept in memory at once. A viewport holds a few dozen; without a
/// bound a folder of thousands scrolled end to end would keep them all.
pub const THUMB_CACHE: usize = 192;

/// What a comparison shows: one file under one set of settings.
#[derive(Debug)]
pub struct Key {
    pub path: String,
    pub format: Format,
    pub quality: Quality,
    pub max_edge: MaxEdge,
}

/// Two keys show the same.
pub open spec fn same_key(a: Key, b: Key) -> bool {
    &&& a.path@ == b.path@
    &&& a.format == b.format
    &&& a.quality == b.quality
    &&& a.max_edge == b.max_edge
}

impl Key {
    /// Whether two keys show the same.
    pub fn same(&self, other: &Key) -> (out: bool)
        ensures
            out == same_key(*self, *other),
    {
        text::same(self.path.as_str(), other.path.as_str()) && self.format == other.format
            && self.quality == other.quality && self.max_edge == other.max_edge
    }

    /// The same key again.
    pub fn copy(&self) -> (out: Key)
        ensures
            out == *self,
    {
        Key {
            path: self.path.clone(),
            format: self.format,
            quality: self.quality,
            max_edge: self.max_edge,
        }
    }
}

/// How far an open comparison is.
#[derive(Clone, Copy, Debug, PartialEq, Eq, Structural)]
pub enum Progress {
    /// The two sides are still being made.
    Loading,
    Ready,
    Failed,
}

/// An open side-by-side view.
#[derive(Debug)]
pub struct Comparison {
    pub index: usize,
    pub dataset_generation: u64,
    pub key: Key,
    pub progress: Progress,
}

/// The files of `visible` a conversion would touch: the ticked ones, or all of them
/// where nothing is ticked.
pub open spec fn chosen(visible: Seq<usize>, selected: Set<usize>) -> Seq<usize> {
    if selected.is_empty() {
        visible
    } else {
        visible.filter(|index: usize| selected.contains(index))
    }
}

/// The most bytes any of the files at `rows` has.
pub open spec fn most_bytes(entries: Seq<Entry>, rows: Seq<usize>, n: int) -> nat
    decreases n,
{
    if n <= 0 {
        0
    } else {
        let before = most_bytes(entries, rows, n - 1);
        let bytes = entries[rows[n - 1] as int].bytes as nat;
        if bytes > before {
            bytes
        } else {
            before
        }
    }
}

/// How many of the first `n` entries carry an extension that lies.
pub open spec fn lying(entries: Seq<Entry>, n: int) -> nat
    decreases n,
{
    if n <= 0 {
        0
    } else {
        lying(entries, n - 1) + if scan::mislabelled(entries[n - 1]) {
            1nat
        } else {
            0nat
        }
    }
}

/// All indices of a list, ascending.
pub open spec fn every_index(entries: Seq<Entry>) -> Seq<usize> {
    Seq::new(entries.len(), |i: int| i as usize)
}

/// The files weigh no more together than a size can say.
pub open spec fn weighable(entries: Seq<Entry>) -> bool {
    &&& entries.len() <= usize::MAX
    &&& estimate::bytes_of(entries, every_index(entries), 0, entries.len() as int) <= u64::MAX
}

impl Audit {
    /// The list shows just what the filter and the finding keep, in order, with its
    /// totals; ticks and results belong to files there are; the cursor is on a row.
    pub open spec fn sound(self) -> bool {
        &&& weighable(self.entries@)
        &&& rows::is_view(self.entries@, self.filter@, self.finding, self.sort, self.visible@)
        &&& self.heaviest == most_bytes(
            self.entries@,
            self.visible@,
            self.visible@.len() as int,
        )
        &&& self.visible_bytes == estimate::bytes_of(
            self.entries@,
            self.visible@,
            0,
            self.visible@.len() as int,
        )
        &&& self.mislabelled == lying(self.entries@, self.entries@.len() as int)
        &&& forall|k: usize| #[trigger] self.selected@.contains(k) ==> k < self.entries@.len()
        &&& forall|k: usize| #[trigger]
            self.results@.contains_key(k) ==> k < self.entries@.len()
        &&& self.cursor < self.visible@.len() || (self.visible@.len() == 0 && self.cursor == 0)
        &&& self.converting == self.active_target_count is Some
        &&& self.quality.in_range()
        &&& self.thumbs_kept()
        &&& self.remote.sound()
    }

    /// The thumbnails kept are the ones in line to leave, each once, and no more than
    /// the cache holds; each was asked for.
    pub open spec fn thumbs_kept(self) -> bool {
        &&& self.thumb_order@.len() <= THUMB_CACHE
        &&& self.thumb_order@.no_duplicates()
        &&& forall|k: usize| #[trigger]
            self.thumb_order@.contains(k) <==> self.thumbs@.contains(k)
        &&& forall|k: usize| #[trigger] self.thumbs@.contains(k) ==> self.requested@.contains(k)
    }

    /// The rows a conversion would touch.
    pub open spec fn targeted(self) -> Seq<usize> {
        chosen(self.visible@, self.selected@)
    }
}

/// The files of `visible` a conversion would touch. An empty selection means all of
/// them, so the common case needs no ticking.
pub fn conversion_targets(visible: &Vec<usize>, selected: &HashSet<usize>) -> (out: Vec<usize>)
    ensures
        out@ == chosen(visible@, selected@),
{
    let mut out: Vec<usize> = Vec::new();
    let all = selected.is_empty();
    let mut i: usize = 0;
    proof {
        reveal(Seq::filter);
        assert(visible@.take(0) =~= seq![]);
        assert(out@ =~= visible@.take(0).filter(|index: usize| selected@.contains(index)));
    }
    while i < visible.len()
        invariant
            i <= visible@.len(),
            all == selected@.is_empty(),
            all ==> out@ == visible@.take(i as int),
            !all ==> out@ == visible@.take(i as int).filter(
                |index: usize| selected@.contains(index),
            ),
        decreases visible@.len() - i,
    {
        proof {
            reveal(Seq::filter);
            assert(visible@.take(i + 1).drop_last() =~= visible@.take(i as int));
            assert(visible@.take(i + 1).last() == visible@[i as int]);
        }
        if all || selected.contains(&visible[i]) {
            out.push(visible[i]);
        }
        i += 1;
        assert(all ==> out@ =~= visible@.take(i as int));
    }
    assert(visible@.take(i as int) =~= visible@);
    out
}

/// Enough files are done to show: a worker-window of them, or the last.
pub fn progress_batch_ready(completed: usize, workers: usize, work_remaining: bool) -> (out: bool)
    ensures
        out == (completed >= workers || !work_remaining),
{
    completed >= workers || !work_remaining
}

/// The bytes of those of the first `n` entries that `rows` lists.
spec fn held(entries: Seq<Entry>, rows: Seq<usize>, n: int) -> nat
    decreases n,
{
    if n <= 0 {
        0
    } else {
        held(entries, rows, n - 1) + if rows.contains((n - 1) as usize) {
            entries[n - 1].bytes as nat
        } else {
            0nat
        }
    }
}

proof fn lemma_held_one_more(entries: Seq<Entry>, rows: Seq<usize>, row: usize, n: int)
    requires
        !rows.contains(row),
        0 <= n <= entries.len() <= usize::MAX,
    ensures
        held(entries, rows.push(row), n) == held(entries, rows, n) + if row < n {
            entries[row as int].bytes as nat
        } else {
            0nat
        },
    decreases n,
{
    if n > 0 {
        lemma_held_one_more(entries, rows, row, n - 1);
        let last = (n - 1) as usize;
        assert(rows.push(row).contains(last) == (rows.contains(last) || last == row)) by {
            if rows.contains(last) {
                let j = choose|j: int| 0 <= j < rows.len() && rows[j] == last;
                assert(rows.push(row)[j] == last);
            }
            assert(rows.push(row)[rows.len() as int] == row);
            if rows.push(row).contains(last) && last != row {
                let j = choose|j: int| 0 <= j < rows.len() + 1 && rows.push(row)[j] == last;
                assert(rows[j] == last);
            }
        }
    }
}

proof fn lemma_bytes_are_held(entries: Seq<Entry>, rows: Seq<usize>, n: int)
    requires
        rows.no_duplicates(),
        forall|i: int| 0 <= i < rows.len() ==> (#[trigger] rows[i]) < entries.len(),
        entries.len() <= usize::MAX,
        0 <= n <= rows.len(),
    ensures
        estimate::bytes_of(entries, rows, 0, n) == held(entries, rows.take(n), entries.len() as int),
    decreases n,
{
    if n == 0 {
        lemma_nothing_held(entries, rows.take(0), entries.len() as int);
    } else {
        lemma_bytes_are_held(entries, rows, n - 1);
        let row = rows[n - 1];
        let front = rows.take(n - 1);
        assert(!front.contains(row)) by {
            if front.contains(row) {
                let j = choose|j: int| 0 <= j < front.len() && front[j] == row;
                assert(rows[j] == rows[n - 1]);
            }
        }
        lemma_held_one_more(entries, rows.take(n - 1), row, entries.len() as int);
        assert(rows.take(n) =~= rows.take(n - 1).push(row));
    }
}

proof fn lemma_nothing_held(entries: Seq<Entry>, rows: Seq<usize>, n: int)
    requires
        rows.len() == 0,
    ensures
        held(entries, rows, n) == 0,
    decreases n,
{
    if n > 0 {
        lemma_nothing_held(entries, rows, n - 1);
    }
}

proof fn lemma_held_within_all(entries: Seq<Entry>, rows: Seq<usize>, n: int)
    requires
        0 <= n <= entries.len() <= usize::MAX,
    ensures
        held(entries, rows, n) <= estimate::bytes_of(entries, every_index(entries), 0, n),
    decreases n,
{
    if n > 0 {
        lemma_held_within_all(entries, rows, n - 1);
        assert(every_index(entries)[n - 1] == n - 1);
    }
}

/// Different files of a folder weigh no more than the folder.
pub proof fn lemma_part_of_the_folder(entries: Seq<Entry>, rows: Seq<usize>)
    requires
        rows.no_duplicates(),
        forall|i: int| 0 <= i < rows.len() ==> (#[trigger] rows[i]) < entries.len(),
        weighable(entries),
    ensures
        estimate::bytes_of(entries, rows, 0, rows.len() as int) <= u64::MAX,
{
    lemma_bytes_are_held(entries, rows, rows.len() as int);
    lemma_held_within_all(entries, rows.take(rows.len() as int), entries.len() as int);
}

/// What is chosen of a list is listed, and not twice.
pub proof fn lemma_chosen_of_view(visible: Seq<usize>, selected: Set<usize>)
    requires
        visible.no_duplicates(),
    ensures
        chosen(visible, selected).no_duplicates(),
        chosen(visible, selected).len() <= visible.len(),
        forall|i: int|
            0 <= i < chosen(visible, selected).len() ==> visible.contains(
                #[trigger] chosen(visible, selected)[i],
            ),
    decreases visible.len(),
{
    reveal(Seq::filter);
    let keep = |index: usize| selected.contains(index);
    if !selected.is_empty() && visible.len() > 0 {
        let front = visible.drop_last();
        assert(front.no_duplicates());
        lemma_chosen_of_view(front, selected);
        let kept = front.filter(keep);
        assert forall|i: int| 0 <= i < visible.filter(keep).len() implies visible.contains(
            #[trigger] visible.filter(keep)[i],
        ) by {
            if i < kept.len() {
                assert(visible.filter(keep)[i] == kept[i]);
                let j = choose|j: int| 0 <= j < front.len() && front[j] == kept[i];
                assert(visible[j] == kept[i]);
            } else {
                assert(visible[visible.len() - 1] == visible.last());
            }
        }
        assert(visible.filter(keep).no_duplicates()) by {
            if keep(visible.last()) {
                assert forall|i: int| 0 <= i < kept.len() implies kept[i] != visible.last() by {
                    let j = choose|j: int| 0 <= j < front.len() && front[j] == kept[i];
                    assert(visible[j] != visible[visible.len() - 1]);
                }
            }
        }
    }
}

/// The generation after `generation`.
pub open spec fn after(generation: u64) -> u64 {
    if generation == u64::MAX {
        0
    } else {
        (generation + 1) as u64
    }
}

/// The generation after `generation`.
pub(crate) fn bump(generation: u64) -> (out: u64)
    ensures
        out == after(generation),
        out != generation,
{
    if generation == u64::MAX {
        0
    } else {
        generation + 1
    }
}

/// A run of samples to encode for an estimate, and the state it belongs to.
pub struct Sampling {
    pub generation: u64,
    pub dataset_generation: u64,
    pub format: Format,
    pub quality: Quality,
    pub max_edge: MaxEdge,
    pub strata: Vec<Stratum>,
}

/// The samples are those of the audit's targets, with its settings, in its generation.
pub open spec fn is_sampling(audit: Audit, sampling: Sampling) -> bool {
    let targets = audit.targeted();
    &&& sampling.generation == audit.estimate_generation
    &&& sampling.dataset_generation == audit.dataset_generation
    &&& sampling.format == audit.format
    &&& sampling.quality == audit.quality
    &&& sampling.max_edge == audit.max_edge
    &&& sampling.strata@.len() == estimate::slice_count(targets, audit.format)
    &&& forall|k: int|
        0 <= k < sampling.strata@.len() ==> estimate::is_stratum(
            audit.entries@,
            targets,
            sampling.strata@.len() as int,
            k,
            #[trigger] sampling.strata@[k],
        )
}

/// Samples are asked for where there is something to sample, and they are the audit's.
pub open spec fn is_asked(audit: Audit, out: Option<Sampling>) -> bool {
    match out {
        Some(sampling) => audit.targeted().len() > 0 && is_sampling(audit, sampling),
        None => audit.targeted().len() == 0,
    }
}

/// How a click on a column's title changes the order: the active column reverses, and
/// another opens largest first, names and formats from A to Z.
pub open spec fn resorted(sort: Sort, column: Column) -> Sort {
    if sort.column == column {
        Sort { column, descending: !sort.descending }
    } else {
        Sort { column, descending: !(column is Name || column is Format) }
    }
}

/// The nearest row to `cursor` in a list of `rows`.
pub open spec fn clamped(cursor: usize, rows: nat) -> usize {
    if rows == 0 {
        0
    } else if cursor < rows {
        cursor
    } else {
        (rows - 1) as usize
    }
}

impl Audit {
    /// What holds of the audit whatever the list shows.
    pub open spec fn sound_but_for_the_view(self) -> bool {
        &&& weighable(self.entries@)
        &&& self.mislabelled == lying(self.entries@, self.entries@.len() as int)
        &&& forall|k: usize| #[trigger] self.selected@.contains(k) ==> k < self.entries@.len()
        &&& forall|k: usize| #[trigger]
            self.results@.contains_key(k) ==> k < self.entries@.len()
        &&& self.converting == self.active_target_count is Some
        &&& self.quality.in_range()
        &&& self.thumbs_kept()
        &&& self.remote.sound()
    }

    /// This audit with the list, its totals and its cursor taken from `other`.
    pub open spec fn viewed_as(self, other: Audit) -> Audit {
        Audit {
            visible: other.visible,
            heaviest: other.heaviest,
            visible_bytes: other.visible_bytes,
            cursor: other.cursor,
            ..self
        }
    }

    /// The rows a conversion would touch. An empty selection means the whole list.
    pub fn targets(&self) -> (out: Vec<usize>)
        ensures
            out@ == self.targeted(),
    {
        conversion_targets(&self.visible, &self.selected)
    }

    /// How many rows a conversion would touch.
    pub fn target_count(&self) -> (out: usize)
        ensures
            out == self.targeted().len(),
    {
        self.targets().len()
    }

    proof fn lemma_targets_exist(self)
        requires
            self.sound(),
        ensures
            self.targeted().no_duplicates(),
            self.targeted().len() <= self.visible@.len(),
            forall|i: int|
                0 <= i < self.targeted().len() ==> (#[trigger] self.targeted()[i])
                    < self.entries@.len(),
            estimate::bytes_of(
                self.entries@,
                self.targeted(),
                0,
                self.targeted().len() as int,
            ) <= u64::MAX,
    {
        lemma_chosen_of_view(self.visible@, self.selected@);
        assert forall|i: int| 0 <= i < self.targeted().len() implies (#[trigger] self.targeted()[i])
            < self.entries@.len() by {
            assert(self.visible@.contains(self.targeted()[i]));
        }
        lemma_part_of_the_folder(self.entries@, self.targeted());
    }

    /// Bytes of the rows a conversion would touch.
    pub fn target_bytes(&self) -> (out: u64)
        requires
            self.sound(),
        ensures
            out == estimate::bytes_of(
                self.entries@,
                self.targeted(),
                0,
                self.targeted().len() as int,
            ),
    {
        let targets = self.targets();
        proof {
            self.lemma_targets_exist();
        }
        estimate::sum_bytes(&self.entries, &targets, 0, targets.len())
    }

    /// Rebuild the filtered, sorted view. Nothing keyed by entry index is touched: a
    /// file keeps its tick and its result through any re-ordering.
    pub fn refresh_visible(&mut self)
        requires
            old(self).sound_but_for_the_view(),
        ensures
            final(self).sound(),
            *final(self) == old(self).viewed_as(*final(self)),
            final(self).cursor == clamped(old(self).cursor, final(self).visible@.len()),
    {
        let visible = rows::view(&self.entries, self.filter.as_str(), self.finding, self.sort);
        proof {
            assert forall|i: int| 0 <= i < visible@.len() implies (#[trigger] visible@[i])
                < self.entries@.len() by {
                assert(visible@.contains(visible@[i]));
            }
            lemma_part_of_the_folder(self.entries@, visible@);
        }
        if visible.len() == 0 {
            self.cursor = 0;
        } else if self.cursor >= visible.len() {
            self.cursor = visible.len() - 1;
        }
        let mut heaviest: u64 = 0;
        let mut i: usize = 0;
        while i < visible.len()
            invariant
                i <= visible@.len(),
                forall|i: int|
                    0 <= i < visible@.len() ==> (#[trigger] visible@[i]) < self.entries@.len(),
                heaviest == most_bytes(self.entries@, visible@, i as int),
            decreases visible@.len() - i,
        {
            let bytes = self.entries[visible[i]].bytes;
            if bytes > heaviest {
                heaviest = bytes;
            }
            i += 1;
        }
        self.heaviest = heaviest;
        self.visible_bytes = estimate::sum_bytes(&self.entries, &visible, 0, visible.len());
        self.visible = visible;
    }

    /// Order the list by `column`, or reverse it where it is ordered by that already.
    pub fn set_sort(&mut self, column: Column)
        requires
            old(self).sound(),
        ensures
            final(self).sound(),
            final(self).sort == resorted(old(self).sort, column),
            final(self).cursor == clamped(old(self).cursor, final(self).visible@.len()),
            *final(self) == (Audit {
                sort: final(self).sort,
                ..old(self).viewed_as(*final(self))
            }),
    {
        self.sort = if self.sort.column == column {
            Sort { column, descending: !self.sort.descending }
        } else {
            let descending = match column {
                Column::Name | Column::Format => false,
                _ => true,
            };
            Sort { column, descending }
        };
        self.refresh_visible();
    }

    /// Pick the files to encode for a new estimate. The old one, and any on its way,
    /// no longer stand for anything.
    pub fn schedule_estimate(&mut self) -> (out: Option<Sampling>)
        requires
            old(self).sound(),
        ensures
            final(self).sound(),
            *final(self) == (Audit {
                estimate_generation: after(old(self).estimate_generation),
                estimate: None,
                ..*old(self)
            }),
            is_asked(*final(self), out),
    {
        self.estimate_generation = bump(self.estimate_generation);
        self.estimate = None;
        let targets = self.targets();
        if targets.len() == 0 {
            return None;
        }
        proof {
            self.lemma_targets_exist();
        }
        let strata = estimate::strata(&self.entries, &targets, self.format);
        Some(
            Sampling {
                generation: self.estimate_generation,
                dataset_generation: self.dataset_generation,
                format: self.format,
                quality: self.quality,
                max_edge: self.max_edge,
                strata,
            },
        )
    }

    /// Narrow the list to names that hold `filter`. A running conversion keeps its
    /// list.
    pub fn set_filter(&mut self, filter: String) -> (out: Option<Sampling>)
        requires
            old(self).sound(),
        ensures
            final(self).sound(),
            old(self).converting ==> *final(self) == *old(self) && out is None,
            !old(self).converting ==> {
                &&& final(self).filter == filter
                &&& final(self).cursor == clamped(old(self).cursor, final(self).visible@.len())
                &&& *final(self) == (Audit {
                    filter,
                    estimate_generation: after(old(self).estimate_generation),
                    estimate: None,
                    ..old(self).viewed_as(*final(self))
                })
                &&& is_asked(*final(self), out)
            },
    {
        if self.converting {
            return None;
        }
        self.filter = filter;
        self.refresh_visible();
        self.schedule_estimate()
    }

    /// Narrow the list to one finding, or widen it again if that finding already
    /// holds. A second click on a lit control has to turn it off.
    pub fn set_finding(&mut self, finding: Finding) -> (out: Option<Sampling>)
        requires
            old(self).sound(),
        ensures
            final(self).sound(),
            is_narrowed(*old(self), *final(self), finding, out),
    {
        if self.converting {
            return None;
        }
        let lit = match self.finding {
            Some(active) => active == finding,
            None => false,
        };
        self.finding = if lit {
            None
        } else {
            Some(finding)
        };
        self.refresh_visible();
        self.schedule_estimate()
    }
}

/// One file of a conversion: which entry it is, where it is read from, and where its
/// conversion goes.
pub struct Task {
    pub index: usize,
    pub source: String,
    pub written: String,
}

/// A conversion to run, and the state it belongs to.
pub struct Conversion {
    pub dataset_generation: u64,
    pub format: Format,
    pub quality: Quality,
    pub max_edge: MaxEdge,
    pub tasks: Vec<Task>,
}

/// The folder conversions of `root` are written to.
pub open spec fn output_folder(root: Seq<char>) -> Seq<char> {
    crate::paths::path_text(
        crate::paths::placed(
            crate::paths::components(root),
            crate::paths::components(scan::OUTPUT_DIR@),
        ),
    )
}

/// One task for each of `targets`, in order, each where the run plans it; no two write
/// the same file.
pub open spec fn are_planned(
    root: Seq<char>,
    entries: Seq<Entry>,
    targets: Seq<usize>,
    format: Format,
    tasks: Seq<Task>,
) -> bool {
    &&& tasks.len() == targets.len()
    &&& forall|i: int|
        0 <= i < tasks.len() ==> {
            &&& (#[trigger] tasks[i]).index == targets[i]
            &&& tasks[i].source@ == entries[targets[i] as int].path@
        }
    &&& exists|written: Seq<String>|
        {
            &&& #[trigger] written.len() == tasks.len()
            &&& forall|i: int| 0 <= i < tasks.len() ==> (#[trigger] tasks[i]).written == written[i]
            &&& forall|i: int|
                0 <= i < tasks.len() ==> convert::is_planned(
                    root,
                    (#[trigger] tasks[i]).source@,
                    output_folder(root),
                    format,
                    written,
                    i,
                )
        }
    &&& forall|i: int, j: int|
        0 <= i < j < tasks.len() ==> (#[trigger] tasks[i]).written@ != (
        #[trigger] tasks[j]).written@
}

/// The conversion of `targets` under the audit's settings.
pub open spec fn is_run(audit: Audit, targets: Seq<usize>, conversion: Conversion) -> bool {
    &&& conversion.dataset_generation == audit.dataset_generation
    &&& conversion.format == audit.format
    &&& conversion.quality == audit.quality
    &&& conversion.max_edge == audit.max_edge
    &&& are_planned(audit.root@, audit.entries@, targets, audit.format, conversion.tasks@)
}

/// The folder conversions of `root` are written to.
pub fn out_dir_of(root: &str) -> (out: String)
    ensures
        out@ == output_folder(root@),
{
    let base = crate::paths::components_of(root);
    let below = crate::paths::components_of(scan::OUTPUT_DIR);
    crate::paths::path_of(&crate::paths::place(&base, &below))
}

/// Plan the conversion of the entries at `targets`: where each is read from and where
/// its conversion goes.
pub fn plan_tasks(
    root: &str,
    entries: &Vec<Entry>,
    targets: &Vec<usize>,
    format: Format,
) -> (out: Vec<Task>)
    requires
        forall|i: int| 0 <= i < targets@.len() ==> (#[trigger] targets@[i]) < entries@.len(),
    ensures
        are_planned(root@, entries@, targets@, format, out@),
{
    let out_dir = out_dir_of(root);
    let mut sources: Vec<String> = Vec::new();
    let mut i: usize = 0;
    while i < targets.len()
        invariant
            i <= targets@.len(),
            sources@.len() == i,
            forall|j: int| 0 <= j < targets@.len() ==> (#[trigger] targets@[j]) < entries@.len(),
            forall|j: int|
                0 <= j < i ==> (#[trigger] sources@[j])@ == entries@[targets@[j] as int].path@,
        decreases targets@.len() - i,
    {
        sources.push(entries[targets[i]].path.clone());
        i += 1;
    }
    let written = convert::plan_outputs(root, &sources, out_dir.as_str(), format);
    let mut tasks: Vec<Task> = Vec::new();
    let mut i: usize = 0;
    while i < targets.len()
        invariant
            i <= targets@.len(),
            targets@.len() == sources@.len() == written@.len(),
            tasks@.len() == i,
            forall|j: int|
                0 <= j < i ==> (#[trigger] tasks@[j]).index == targets@[j] && tasks@[j].source
                    == sources@[j] && tasks@[j].written == written@[j],
        decreases targets@.len() - i,
    {
        tasks.push(
            Task { index: targets[i], source: sources[i].clone(), written: written[i].clone() },
        );
        i += 1;
    }
    proof {
        assert(written@.len() == tasks@.len());
        assert forall|i: int| 0 <= i < tasks@.len() implies convert::is_planned(
            root@,
            (#[trigger] tasks@[i]).source@,
            output_folder(root@),
            format,
            written@,
            i,
        ) by {
            assert(convert::is_planned(root@, sources@[i]@, out_dir@, format, written@, i));
        }
        assert forall|i: int, j: int| 0 <= i < j < tasks@.len() implies (
        #[trigger] tasks@[i]).written@ != (#[trigger] tasks@[j]).written@ by {
            assert(written@[i]@ != written@[j]@);
        }
    }
    tasks
}

/// The output folder lies just below the root.
proof fn lemma_output_folder(root: Seq<char>)
    ensures
        crate::paths::components(output_folder(root)) == crate::paths::components(root).push(
            scan::OUTPUT_DIR@,
        ),
{
    let (base, name) = (crate::paths::components(root), scan::OUTPUT_DIR@);
    reveal_strlit("optimized");
    crate::paths::lemma_components_are_spelled(root);
    assert forall|i: int| 0 <= i < name.len() implies name[i] != '/' by {
    }
    let all = base.push(name);
    assert(crate::paths::is_spelled(seq![name]));
    crate::paths::law_written_path_reads_back(seq![name]);
    assert(crate::paths::path_text(seq![name]) =~= name);
    assert(crate::paths::placed(base, seq![name]) =~= all);
    assert forall|i: int| 0 <= i < all.len() implies {
        ||| i == 0 && all[0] == seq!['/']
        ||| {
            &&& (#[trigger] all[i]).len() > 0
            &&& !all[i].contains('/')
            &&& all[i] == seq!['.'] ==> i == 0
        }
    } by {
        if i < base.len() {
            assert(all[i] == base[i]);
        }
    }
    crate::paths::law_written_path_reads_back(all);
}

/// Sources are never touched: a run writes each file into the output folder, and no path
/// it writes to is that of an entry, numbered or not, as long as none of the entries lies
/// in that folder and the source ends in a name.
pub proof fn law_sources_are_never_touched(
    root: Seq<char>,
    entries: Seq<Entry>,
    targets: Seq<usize>,
    format: Format,
    tasks: Seq<Task>,
    i: int,
    k: int,
)
    requires
        are_planned(root, entries, targets, format, tasks),
        0 <= i < tasks.len(),
        0 <= k < entries.len(),
        !scan::is_output(root, entries[k].path@),
        crate::paths::components(output_folder(root)).len() < convert::output_parts(
            root,
            tasks[i].source@,
            output_folder(root),
            format,
        ).len(),
    ensures
        scan::is_output(root, tasks[i].written@),
        crate::paths::components(tasks[i].written@) != crate::paths::components(entries[k].path@),
        tasks[i].written@ != entries[k].path@,
{
    let written = choose|written: Seq<String>|
        {
            &&& #[trigger] written.len() == tasks.len()
            &&& forall|i: int| 0 <= i < tasks.len() ==> (#[trigger] tasks[i]).written == written[i]
            &&& forall|i: int|
                0 <= i < tasks.len() ==> convert::is_planned(
                    root,
                    (#[trigger] tasks[i]).source@,
                    output_folder(root),
                    format,
                    written,
                    i,
                )
        };
    let out_dir = output_folder(root);
    assert(tasks[i].written == written[i]);
    convert::law_planned_files_go_below(root, tasks[i].source@, out_dir, format, written, i);
    lemma_output_folder(root);
    let (base, folder) = (crate::paths::components(root), crate::paths::components(out_dir));
    let parts = crate::paths::components(written[i]@);
    assert(folder.is_prefix_of(parts));
    assert(base =~= parts.take(base.len() as int)) by {
        assert forall|j: int| 0 <= j < base.len() implies base[j] == parts[j] by {
            assert(folder[j] == base[j]);
            assert(parts.subrange(0, folder.len() as int)[j] == folder[j]);
        }
    }
    assert(parts[base.len() as int] == parts.subrange(0, folder.len() as int)[base.len() as int]);
}

/// What a finished batch leaves of the results: the size of each file that encoded.
pub open spec fn recorded(
    results: Map<usize, u64>,
    batch: Seq<(usize, Option<u64>)>,
) -> Map<usize, u64>
    decreases batch.len(),
{
    if batch.len() == 0 {
        results
    } else {
        let before = recorded(results, batch.drop_last());
        match batch.last().1 {
            Some(bytes) => before.insert(batch.last().0, bytes),
            None => before,
        }
    }
}

/// The names of the files in a batch that did not encode.
pub open spec fn failed_names(entries: Seq<Entry>, batch: Seq<(usize, Option<u64>)>) -> Seq<
    Seq<char>,
>
    decreases batch.len(),
{
    if batch.len() == 0 {
        seq![]
    } else {
        let before = failed_names(entries, batch.drop_last());
        match batch.last().1 {
            Some(_) => before,
            None => before.push(scan::title(entries[batch.last().0 as int].path@)),
        }
    }
}

/// The bytes of the sources that have a result, and of the results, among the first
/// `n` entries.
pub open spec fn totals(entries: Seq<Entry>, results: Map<usize, u64>, n: int) -> (nat, nat)
    decreases n,
{
    if n <= 0 {
        (0, 0)
    } else {
        let (before, after) = totals(entries, results, n - 1);
        if results.contains_key((n - 1) as usize) {
            (before + entries[n - 1].bytes as nat, after + results[(n - 1) as usize] as nat)
        } else {
            (before, after)
        }
    }
}

/// `value`, or the largest size where that is smaller.
pub open spec fn capped(value: nat) -> nat {
    if value <= u64::MAX {
        value
    } else {
        u64::MAX as nat
    }
}

impl Audit {
    /// Start converting what is ticked, or the whole list. Nothing starts while a
    /// conversion or a scan is running, or with nothing to convert.
    pub fn start_conversion(&mut self) -> (out: Option<Conversion>)
        requires
            old(self).sound(),
        ensures
            final(self).sound(),
            out is Some <==> !old(self).converting && old(self).scanning is None && old(
                self,
            ).targeted().len() > 0,
            out is None ==> *final(self) == *old(self),
            out matches Some(conversion) ==> {
                &&& *final(self) == (Audit {
                    converting: true,
                    active_target_count: Some(old(self).targeted().len() as usize),
                    results: final(self).results,
                    failures: final(self).failures,
                    ..*old(self)
                })
                &&& final(self).results@ == Map::<usize, u64>::empty()
                &&& final(self).failures@.len() == 0
                &&& is_run(*old(self), old(self).targeted(), conversion)
            },
    {
        if self.converting || self.scanning.is_some() {
            return None;
        }
        let targets = self.targets();
        if targets.len() == 0 {
            return None;
        }
        proof {
            self.lemma_targets_exist();
        }
        self.converting = true;
        self.active_target_count = Some(targets.len());
        self.results.clear();
        self.failures.clear();
        let tasks = plan_tasks(self.root.as_str(), &self.entries, &targets, self.format);
        Some(
            Conversion {
                dataset_generation: self.dataset_generation,
                format: self.format,
                quality: self.quality,
                max_edge: self.max_edge,
                tasks,
            },
        )
    }

    /// Take in a batch of finished files: the encoded size of each that worked, by its
    /// index. A batch from another folder lands nowhere.
    pub fn publish(&mut self, dataset_generation: u64, batch: &Vec<(usize, Option<u64>)>)
        requires
            old(self).sound(),
            dataset_generation == old(self).dataset_generation ==> forall|i: int|
                0 <= i < batch@.len() ==> (#[trigger] batch@[i]).0 < old(self).entries@.len(),
        ensures
            final(self).sound(),
            dataset_generation != old(self).dataset_generation ==> *final(self) == *old(self),
            dataset_generation == old(self).dataset_generation ==> {
                &&& final(self).results@ == recorded(old(self).results@, batch@)
                &&& text::views(final(self).failures@) == text::views(old(self).failures@)
                    + failed_names(old(self).entries@, batch@)
                &&& *final(self) == (Audit {
                    results: final(self).results,
                    failures: final(self).failures,
                    ..*old(self)
                })
            },
    {
        if self.dataset_generation != dataset_generation {
            return;
        }
        let ghost first = *self;
        let mut i: usize = 0;
        assert(batch@.take(0) =~= seq![]);
        assert(text::views(self.failures@) =~= text::views(first.failures@) + failed_names(
            first.entries@,
            batch@.take(0),
        ));
        while i < batch.len()
            invariant
                i <= batch@.len(),
                first.sound(),
                self.sound(),
                forall|i: int|
                    0 <= i < batch@.len() ==> (#[trigger] batch@[i]).0 < first.entries@.len(),
                *self == (Audit { results: self.results, failures: self.failures, ..first }),
                self.results@ == recorded(first.results@, batch@.take(i as int)),
                text::views(self.failures@) == text::views(first.failures@) + failed_names(
                    first.entries@,
                    batch@.take(i as int),
                ),
            decreases batch@.len() - i,
        {
            proof {
                assert(batch@.take(i + 1).drop_last() =~= batch@.take(i as int));
                assert(batch@.take(i + 1).last() == batch@[i as int]);
            }
            let (index, result) = batch[i];
            match result {
                Some(bytes) => {
                    self.results.insert(index, bytes);
                },
                None => {
                    let ghost had = self.failures@;
                    let name = self.entries[index].name();
                    self.failures.push(name);
                    assert(text::views(self.failures@) =~= text::views(had).push(name@));
                    assert(text::views(self.failures@) =~= text::views(first.failures@)
                        + failed_names(first.entries@, batch@.take(i + 1)));
                },
            }
            i += 1;
        }
        assert(batch@.take(i as int) =~= batch@);
    }

    /// A conversion has run out of files. One that belongs to another folder ends
    /// nothing here.
    pub fn finish_conversion(&mut self, dataset_generation: u64)
        requires
            old(self).sound(),
        ensures
            final(self).sound(),
            *final(self) == if dataset_generation == old(self).dataset_generation {
                Audit { converting: false, active_target_count: None, ..*old(self) }
            } else {
                *old(self)
            },
    {
        if self.dataset_generation == dataset_generation {
            self.converting = false;
            self.active_target_count = None;
        }
    }

    /// Bytes before and after, counting only the files actually converted. Comparing
    /// against the whole folder mid-run would report a fake saving.
    pub fn converted_totals(&self) -> (out: (u64, u64))
        requires
            self.sound(),
        ensures
            out.0 == totals(self.entries@, self.results@, self.entries@.len() as int).0,
            out.1 == capped(totals(self.entries@, self.results@, self.entries@.len() as int).1),
    {
        let (mut before, mut after): (u64, u64) = (0, 0);
        let mut i: usize = 0;
        while i < self.entries.len()
            invariant
                i <= self.entries@.len(),
                self.sound(),
                before == totals(self.entries@, self.results@, i as int).0,
                after == capped(totals(self.entries@, self.results@, i as int).1),
            decreases self.entries@.len() - i,
        {
            match self.results.get(&i) {
                Some(bytes) => {
                    proof {
                        let n = self.entries@.len() as int;
                        let all = every_index(self.entries@);
                        lemma_totals_within_all(self.entries@, self.results@, i + 1);
                        estimate::lemma_bytes_join(self.entries@, all, 0, i + 1, n);
                    }
                    before = before + self.entries[i].bytes;
                    after = if *bytes <= u64::MAX - after {
                        after + *bytes
                    } else {
                        u64::MAX
                    };
                },
                None => {},
            }
            i += 1;
        }
        (before, after)
    }

    /// Whether a run of samples still belongs to what the window shows.
    pub fn wants_sampling(&self, generation: u64, dataset_generation: u64) -> (out: bool)
        ensures
            out == (self.estimate_generation == generation && self.dataset_generation
                == dataset_generation),
    {
        self.estimate_generation == generation && self.dataset_generation == dataset_generation
    }

    /// Take in what the samples of one run came to: each slice's bytes and, when its
    /// sample encoded, that sample's source and encoded size. A run that is stale, or
    /// in which nothing encoded, changes nothing.
    pub fn land_estimate(
        &mut self,
        generation: u64,
        dataset_generation: u64,
        slices: &Vec<(u64, Option<(u64, u64)>)>,
    )
        requires
            old(self).sound(),
        ensures
            final(self).sound(),
            ({
                let shown = estimate::ratios(slices@, slices@.len() as int);
                let wanted = old(self).estimate_generation == generation && old(
                    self,
                ).dataset_generation == dataset_generation;
                if wanted && shown.len() > 0 {
                    &&& *final(self) == (Audit {
                        estimate: final(self).estimate,
                        ..*old(self)
                    })
                    &&& final(self).estimate matches Some((projected, counted))
                    &&& counted == shown.len()
                    &&& projected == estimate::as_size(
                        estimate::summed(
                            estimate::projections(
                                slices@,
                                estimate::average(shown),
                                slices@.len() as int,
                            ),
                        ),
                    )
                } else {
                    *final(self) == *old(self)
                }
            }),
    {
        if !self.wants_sampling(generation, dataset_generation) {
            return;
        }
        match estimate::project_total(slices) {
            Some(projected) => {
                self.estimate = Some(projected);
            },
            None => {},
        }
    }
}

proof fn lemma_totals_within_all(entries: Seq<Entry>, results: Map<usize, u64>, n: int)
    requires
        0 <= n <= entries.len() <= usize::MAX,
    ensures
        totals(entries, results, n).0 <= estimate::bytes_of(entries, every_index(entries), 0, n),
    decreases n,
{
    if n > 0 {
        lemma_totals_within_all(entries, results, n - 1);
        assert(every_index(entries)[n - 1] == n - 1);
    }
}

/// The files on the rows from `from` to `to`, both ends taken, as far as there are
/// rows.
pub open spec fn run_of(visible: Seq<usize>, from: int, to: int) -> Set<usize> {
    Set::new(
        |k: usize|
            exists|row: int| from <= row <= to && 0 <= row < visible.len() && #[trigger] visible[row] == k,
    )
}

/// The files between two rows, whichever comes first.
pub open spec fn run_between(visible: Seq<usize>, a: usize, b: usize) -> Set<usize> {
    if a <= b {
        run_of(visible, a as int, b as int)
    } else {
        run_of(visible, b as int, a as int)
    }
}

/// `value` with `item` taken out where it is in, and put in where it is not.
pub open spec fn toggled(value: Set<usize>, item: usize) -> Set<usize> {
    if value.contains(item) {
        value.remove(item)
    } else {
        value.insert(item)
    }
}

/// The row `delta` rows from `cursor`, kept within `rows` rows.
pub open spec fn moved(cursor: usize, delta: int, rows: nat) -> usize {
    if rows == 0 {
        cursor
    } else if cursor + delta < 0 {
        0
    } else if cursor + delta >= rows {
        (rows - 1) as usize
    } else {
        (cursor + delta) as usize
    }
}

/// A press on a row.
#[derive(Clone, Copy, Debug)]
pub struct Click {
    pub count: usize,
    pub platform: bool,
    pub control: bool,
    pub shift: bool,
}

/// What opening a comparison asks for.
#[derive(Debug)]
pub enum Opening {
    /// There is nothing to open.
    Nothing,
    /// The pair is the one built last.
    Cached,
    /// The pair has to be built.
    Build(Key),
}

/// What a press on a row comes to.
pub enum Clicked {
    Nothing,
    Opened(Opening),
    Picked(Option<Sampling>),
}

/// The key of an entry under the audit's settings.
pub open spec fn is_key_of(audit: Audit, index: int, key: Key) -> bool {
    &&& key.path@ == audit.entries@[index].path@
    &&& key.format == audit.format
    &&& key.quality == audit.quality
    &&& key.max_edge == audit.max_edge
}

/// How opening the comparison of `index` changes `before` into `after`: the view opens
/// on the entry, ready where its pair is the one built last. An index without an entry
/// changes nothing.
pub open spec fn is_opened(before: Audit, after: Audit, index: usize, out: Opening) -> bool {
    if index >= before.entries@.len() {
        after == before && out is Nothing
    } else {
        &&& after == (Audit { compare: after.compare, ..before })
        &&& after.compare matches Some(comparison)
        &&& comparison.index == index
        &&& comparison.dataset_generation == before.dataset_generation
        &&& is_key_of(before, index as int, comparison.key)
        &&& match before.cached {
            Some(cached) => if same_key(cached, comparison.key) {
                comparison.progress is Ready && out is Cached
            } else {
                comparison.progress is Loading && out == Opening::Build(comparison.key)
            },
            None => comparison.progress is Loading && out == Opening::Build(comparison.key),
        }
    }
}

/// The selection changed, and samples are asked for anew: everything else stays.
pub open spec fn is_reselected(before: Audit, after: Audit, out: Option<Sampling>) -> bool {
    &&& after == (Audit {
        selected: after.selected,
        estimate_generation: self::after(before.estimate_generation),
        estimate: None,
        ..before
    })
    &&& is_asked(after, out)
}

/// The list was narrowed to `finding`, or widened where it was narrowed to that already,
/// unless a conversion is running.
pub open spec fn is_narrowed(
    before: Audit,
    after: Audit,
    finding: Finding,
    out: Option<Sampling>,
) -> bool {
    if before.converting {
        after == before && out is None
    } else {
        &&& after.finding == if before.finding == Some(finding) {
            None
        } else {
            Some(finding)
        }
        &&& after.cursor == clamped(before.cursor, after.visible@.len())
        &&& after == (Audit {
            finding: after.finding,
            estimate_generation: self::after(before.estimate_generation),
            estimate: None,
            ..before.viewed_as(after)
        })
        &&& is_asked(after, out)
    }
}

/// The cursor moved `delta` rows. With `extend` the run from the anchor to where it is
/// now joins the selection, unless a conversion is running.
pub open spec fn is_stepped(
    before: Audit,
    after: Audit,
    delta: int,
    extend: bool,
    out: Option<Sampling>,
) -> bool {
    let cursor = moved(before.cursor, delta, before.visible@.len());
    let stepped = Audit { cursor, ..before };
    if extend && !before.converting {
        &&& is_reselected(stepped, after, out)
        &&& after.selected@ == before.selected@.union(
            run_between(before.visible@, before.anchor, cursor),
        )
    } else {
        after == stepped && out is None
    }
}

/// The file under the cursor was ticked, or its tick taken away, unless a conversion is
/// running.
pub open spec fn is_ticked_at_cursor(before: Audit, after: Audit, out: Option<Sampling>) -> bool {
    if before.converting || before.visible@.len() == 0 {
        after == before && out is None
    } else {
        &&& is_reselected(before, after, out)
        &&& after.selected@ == toggled(before.selected@, before.visible@[before.cursor as int])
    }
}

/// Everything the list shows was ticked, unless a conversion is running.
pub open spec fn is_all_ticked(before: Audit, after: Audit, out: Option<Sampling>) -> bool {
    if before.converting {
        after == before && out is None
    } else {
        &&& is_reselected(before, after, out)
        &&& after.selected@ == before.selected@.union(before.visible@.to_set())
    }
}

/// Every tick was taken away, unless a conversion is running. Without ticks nothing
/// changes.
pub open spec fn is_put_down(before: Audit, after: Audit, out: Option<Sampling>) -> bool {
    if before.converting || before.selected@.is_empty() {
        after == before && out is None
    } else {
        &&& is_reselected(before, after, out)
        &&& after.selected@ == Set::<usize>::empty()
    }
}

/// The comparison moved to the image before or behind the one that is open, among those
/// on screen; at either end, and with nothing open, nothing changes.
pub open spec fn is_compare_stepped(
    before: Audit,
    after: Audit,
    forward: bool,
    out: Opening,
) -> bool {
    let delta: int = if forward {
        1
    } else {
        -1
    };
    match before.compare {
        Some(open) => {
            let row = before.visible@.index_of_first(open.index)->0;
            if before.visible@.contains(open.index) && 0 <= row + delta < before.visible@.len() {
                is_opened(
                    Audit { cursor: (row + delta) as usize, ..before },
                    after,
                    before.visible@[row + delta],
                    out,
                )
            } else {
                after == before && out is Nothing
            }
        },
        None => after == before && out is Nothing,
    }
}

impl Audit {
    /// The entry a visible row points at.
    pub fn entry_at(&self, row: usize) -> (out: Option<usize>)
        ensures
            out == if row < self.visible@.len() {
                Some(self.visible@[row as int])
            } else {
                None
            },
    {
        if row < self.visible.len() {
            Some(self.visible[row])
        } else {
            None
        }
    }

    /// Where an entry currently sits in the view, if the filter has not hidden it.
    pub fn row_of(&self, entry: usize) -> (out: Option<usize>)
        ensures
            out is Some == self.visible@.contains(entry),
            out matches Some(row) ==> row < self.visible@.len() && self.visible@[row as int]
                == entry && forall|i: int| 0 <= i < row ==> self.visible@[i] != entry,
    {
        let mut i: usize = 0;
        while i < self.visible.len()
            invariant
                i <= self.visible@.len(),
                forall|j: int| 0 <= j < i ==> self.visible@[j] != entry,
            decreases self.visible@.len() - i,
        {
            if self.visible[i] == entry {
                return Some(i);
            }
            i += 1;
        }
        None
    }

    /// Add the files on the rows from `from` to `to` to the selection.
    fn add_run(&mut self, from: usize, to: usize)
        requires
            old(self).sound(),
            from <= to,
        ensures
            final(self).sound(),
            *final(self) == (Audit { selected: final(self).selected, ..*old(self) }),
            final(self).selected@ == old(self).selected@.union(
                run_of(old(self).visible@, from as int, to as int),
            ),
    {
        let ghost first = *self;
        let end: usize = if to < self.visible.len() {
            to + 1
        } else {
            self.visible.len()
        };
        let mut row: usize = from;
        proof {
            assert(self.selected@ =~= first.selected@.union(
                run_of(first.visible@, from as int, row - 1),
            ));
        }
        while row < end
            invariant
                from <= row,
                from <= to,
                end <= first.visible@.len(),
                first.sound(),
                self.sound(),
                *self == (Audit { selected: self.selected, ..first }),
                row <= end || row == from,
                self.selected@ == first.selected@.union(
                    run_of(first.visible@, from as int, row - 1),
                ),
            decreases end - row,
        {
            let entry: usize = self.visible[row];
            assert(first.visible@.contains(entry));
            self.selected.insert(entry);
            proof {
                let (a, b) = (
                    run_of(first.visible@, from as int, row - 1),
                    run_of(first.visible@, from as int, row as int),
                );
                assert forall|k: usize| b.contains(k) <==> a.contains(k) || k == entry by {
                    if a.contains(k) {
                        let r = choose|r: int|
                            from <= r <= row - 1 && 0 <= r < first.visible@.len()
                                && #[trigger] first.visible@[r] == k;
                        assert(first.visible@[r] == k);
                    }
                    if k == entry {
                        assert(first.visible@[row as int] == k);
                    }
                    if b.contains(k) {
                        let r = choose|r: int|
                            from <= r <= row && 0 <= r < first.visible@.len()
                                && #[trigger] first.visible@[r] == k;
                        if r < row {
                            assert(first.visible@[r] == k);
                        }
                    }
                }
                assert(self.selected@ =~= first.selected@.union(b));
            }
            row += 1;
        }
        proof {
            let (a, b) = (
                run_of(first.visible@, from as int, row - 1),
                run_of(first.visible@, from as int, to as int),
            );
            assert forall|k: usize| a.contains(k) <==> b.contains(k) by {
                if a.contains(k) {
                    let r = choose|r: int|
                        from <= r <= row - 1 && 0 <= r < first.visible@.len()
                            && #[trigger] first.visible@[r] == k;
                    assert(first.visible@[r] == k);
                }
                if b.contains(k) {
                    let r = choose|r: int|
                        from <= r <= to && 0 <= r < first.visible@.len()
                            && #[trigger] first.visible@[r] == k;
                    assert(first.visible@[r] == k);
                }
            }
            assert(a =~= b);
        }
    }

    /// Move the keyboard cursor, kept to the list.
    pub fn move_cursor(&mut self, delta: isize)
        requires
            old(self).sound(),
        ensures
            final(self).sound(),
            *final(self) == (Audit {
                cursor: moved(old(self).cursor, delta as int, old(self).visible@.len()),
                ..*old(self)
            }),
    {
        if self.visible.len() == 0 {
            return;
        }
        let last: i128 = (self.visible.len() - 1) as i128;
        let wanted: i128 = self.cursor as i128 + delta as i128;
        self.cursor = if wanted < 0 {
            0
        } else if wanted > last {
            last as usize
        } else {
            wanted as usize
        };
    }

    /// Add the run from the anchor to the cursor to the selection.
    pub fn select_through_cursor(&mut self) -> (out: Option<Sampling>)
        requires
            old(self).sound(),
        ensures
            final(self).sound(),
            old(self).converting ==> *final(self) == *old(self) && out is None,
            !old(self).converting ==> {
                &&& is_reselected(*old(self), *final(self), out)
                &&& final(self).selected@ == old(self).selected@.union(
                    run_between(old(self).visible@, old(self).anchor, old(self).cursor),
                )
            },
    {
        if self.converting {
            return None;
        }
        if self.anchor <= self.cursor {
            self.add_run(self.anchor, self.cursor);
        } else {
            self.add_run(self.cursor, self.anchor);
        }
        self.schedule_estimate()
    }

    /// One keyboard step. With shift held it is a selection drag: the run from the
    /// anchor to the new cursor joins the selection, exactly as a shift-click does.
    pub fn step_cursor(&mut self, delta: isize, extend: bool) -> (out: Option<Sampling>)
        requires
            old(self).sound(),
        ensures
            final(self).sound(),
            is_stepped(*old(self), *final(self), delta as int, extend, out),
    {
        self.move_cursor(delta);
        if extend {
            self.select_through_cursor()
        } else {
            None
        }
    }

    /// Left and right: one row in the list, one tile across in the gallery.
    pub fn step_cursor_lateral(&mut self, forward: bool, extend: bool) -> (out: Option<Sampling>)
        requires
            old(self).sound(),
        ensures
            final(self).sound(),
            is_stepped(
                *old(self),
                *final(self),
                if forward {
                    1
                } else {
                    -1
                },
                extend,
                out,
            ),
    {
        self.step_cursor(
            if forward {
                1
            } else {
                -1
            },
            extend,
        )
    }

    /// The band or row to bring into view after the cursor moved: its gallery row, or
    /// its row in the list.
    pub fn scroll_target(&self) -> (out: usize)
        ensures
            out == if self.grid {
                self.cursor as int / (match self.gallery_columns {
                    Some(columns) => if columns >= 1 {
                        columns as int
                    } else {
                        1
                    },
                    None => 1,
                })
            } else {
                self.cursor as int
            },
    {
        if self.grid {
            let columns: usize = match self.gallery_columns {
                Some(columns) => if columns >= 1 {
                    columns
                } else {
                    1
                },
                None => 1,
            };
            self.cursor / columns
        } else {
            self.cursor
        }
    }

    /// Tick a file, or take its tick away.
    fn flip(&mut self, entry: usize)
        requires
            old(self).sound(),
            entry < old(self).entries@.len(),
        ensures
            final(self).sound(),
            *final(self) == (Audit { selected: final(self).selected, ..*old(self) }),
            final(self).selected@ == toggled(old(self).selected@, entry),
    {
        if !self.selected.remove(&entry) {
            self.selected.insert(entry);
        }
    }

    /// A press on the tick of a file. A running conversion keeps its selection.
    pub fn toggle_entry(&mut self, entry: usize) -> (out: Option<Sampling>)
        requires
            old(self).sound(),
        ensures
            final(self).sound(),
            old(self).converting || entry >= old(self).entries@.len() ==> *final(self) == *old(self)
                && out is None,
            !old(self).converting && entry < old(self).entries@.len() ==> {
                &&& is_reselected(*old(self), *final(self), out)
                &&& final(self).selected@ == toggled(old(self).selected@, entry)
            },
    {
        if self.converting || entry >= self.entries.len() {
            return None;
        }
        self.flip(entry);
        self.schedule_estimate()
    }

    /// Tick the file under the cursor, or take its tick away.
    pub fn toggle_cursor_selection(&mut self) -> (out: Option<Sampling>)
        requires
            old(self).sound(),
        ensures
            final(self).sound(),
            is_ticked_at_cursor(*old(self), *final(self), out),
    {
        if self.converting {
            return None;
        }
        match self.entry_at(self.cursor) {
            Some(entry) => {
                assert(self.visible@.contains(entry));
                self.flip(entry);
                self.schedule_estimate()
            },
            None => None,
        }
    }

    /// Tick everything the list shows, on top of what is ticked: a filter that hides
    /// files from the list must hide them from a conversion too.
    pub fn select_all(&mut self) -> (out: Option<Sampling>)
        requires
            old(self).sound(),
        ensures
            final(self).sound(),
            is_all_ticked(*old(self), *final(self), out),
    {
        if self.converting {
            return None;
        }
        let ghost first = *self;
        if self.visible.len() > 0 {
            let last: usize = self.visible.len() - 1;
            self.add_run(0, last);
            proof {
                let run = run_of(first.visible@, 0, last as int);
                assert forall|k: usize| run.contains(k) <==> first.visible@.to_set().contains(
                    k,
                ) by {
                    if run.contains(k) {
                        let r = choose|r: int|
                            0 <= r <= last && 0 <= r < first.visible@.len()
                                && #[trigger] first.visible@[r] == k;
                        assert(first.visible@.contains(k));
                    }
                    if first.visible@.contains(k) {
                        let r = choose|r: int| 0 <= r < first.visible@.len() && first.visible@[r]
                            == k;
                        assert(first.visible@[r] == k);
                    }
                }
                assert(run =~= first.visible@.to_set());
            }
        } else {
            assert(first.selected@.union(first.visible@.to_set()) =~= first.selected@);
        }
        self.schedule_estimate()
    }

    /// Put the list down: clear every tick. With nothing ticked there is nothing to do.
    pub fn clear_selection(&mut self) -> (out: Option<Sampling>)
        requires
            old(self).sound(),
        ensures
            final(self).sound(),
            is_put_down(*old(self), *final(self), out),
    {
        if self.converting || self.selected.is_empty() {
            return None;
        }
        self.selected.clear();
        self.schedule_estimate()
    }

    /// Open the side-by-side view for an entry.
    pub fn open_compare(&mut self, index: usize) -> (out: Opening)
        requires
            old(self).sound(),
        ensures
            final(self).sound(),
            is_opened(*old(self), *final(self), index, out),
    {
        if index >= self.entries.len() {
            return Opening::Nothing;
        }
        let key = Key {
            path: self.entries[index].path.clone(),
            format: self.format,
            quality: self.quality,
            max_edge: self.max_edge,
        };
        let cached = match &self.cached {
            Some(cached) => cached.same(&key),
            None => false,
        };
        let out = if cached {
            Opening::Cached
        } else {
            Opening::Build(key.copy())
        };
        self.compare = Some(
            Comparison {
                index,
                dataset_generation: self.dataset_generation,
                key,
                progress: if cached {
                    Progress::Ready
                } else {
                    Progress::Loading
                },
            },
        );
        out
    }

    /// Close the side-by-side view.
    pub fn close_compare(&mut self)
        requires
            old(self).sound(),
        ensures
            final(self).sound(),
            *final(self) == (Audit { compare: None, ..*old(self) }),
    {
        self.compare = None;
    }

    /// Whether the comparison of `index` under `key` is the one that is open.
    pub fn wants_pair(&self, index: usize, key: &Key) -> (out: bool)
        ensures
            out == (self.compare matches Some(open) && open.index == index && same_key(
                open.key,
                *key,
            )),
    {
        match &self.compare {
            Some(open) => open.index == index && open.key.same(key),
            None => false,
        }
    }

    /// A pair has been built, or could not be. What was built is kept for reopening; a
    /// view that has moved on is left alone.
    pub fn land_pair(&mut self, index: usize, dataset_generation: u64, key: &Key, built: bool)
        requires
            old(self).sound(),
        ensures
            final(self).sound(),
            *final(self) == (Audit {
                cached: final(self).cached,
                compare: final(self).compare,
                ..*old(self)
            }),
            final(self).cached == if built {
                Some(*key)
            } else {
                old(self).cached
            },
            match old(self).compare {
                Some(open) => final(self).compare == Some(
                    if open.index == index && open.dataset_generation == dataset_generation
                        && same_key(open.key, *key) {
                        Comparison {
                            progress: if built {
                                Progress::Ready
                            } else {
                                Progress::Failed
                            },
                            ..open
                        }
                    } else {
                        open
                    },
                ),
                None => final(self).compare is None,
            },
    {
        if built {
            self.cached = Some(key.copy());
        }
        match self.compare.take() {
            Some(open) => {
                let mut open = open;
                if open.index == index && open.dataset_generation == dataset_generation
                    && open.key.same(key) {
                    open.progress = if built {
                        Progress::Ready
                    } else {
                        Progress::Failed
                    };
                }
                self.compare = Some(open);
            },
            None => {},
        }
    }

    /// Step to the next or previous image while the comparison is open: through what
    /// is on screen, not through the underlying scan order.
    pub fn step_compare(&mut self, forward: bool) -> (out: Opening)
        requires
            old(self).sound(),
        ensures
            final(self).sound(),
            is_compare_stepped(*old(self), *final(self), forward, out),
    {
        let index: usize = match &self.compare {
            Some(open) => open.index,
            None => {
                return Opening::Nothing;
            },
        };
        let row: usize = match self.row_of(index) {
            Some(row) => row,
            None => {
                return Opening::Nothing;
            },
        };
        proof {
            self.visible@.index_of_first_ensures(index);
            let first = self.visible@.index_of_first(index)->0;
            assert(first == row) by {
                if first < row {
                    assert(self.visible@[first] != index);
                }
                if row < first {
                    assert(self.visible@[row as int] != index);
                }
            }
        }
        if !forward && row == 0 {
            return Opening::Nothing;
        }
        if row >= self.visible.len() - 1 && forward {
            return Opening::Nothing;
        }
        let next: usize = if forward {
            row + 1
        } else {
            row - 1
        };
        let entry: usize = self.visible[next];
        self.cursor = next;
        self.open_compare(entry)
    }

    /// What a press on a row means, by the rules every file list uses: a plain one
    /// selects just that row, the platform modifier adds or removes one, shift takes
    /// the run from the last plain press, and a second press opens it.
    pub fn click_row(&mut self, row: usize, click: Click) -> (out: Clicked)
        requires
            old(self).sound(),
        ensures
            final(self).sound(),
            row >= old(self).visible@.len() ==> *final(self) == *old(self) && out is Nothing,
            row < old(self).visible@.len() ==> {
                let entry = old(self).visible@[row as int];
                let there = Audit { cursor: row, ..*old(self) };
                if click.count >= 2 {
                    &&& out matches Clicked::Opened(opening)
                    &&& is_opened(there, *final(self), entry, opening)
                } else if old(self).converting {
                    *final(self) == *old(self) && out is Nothing
                } else {
                    let anchored = if !click.platform && !click.control && !click.shift {
                        Audit { anchor: row, ..there }
                    } else {
                        there
                    };
                    &&& out matches Clicked::Picked(sampling)
                    &&& is_reselected(anchored, *final(self), sampling)
                    &&& final(self).selected@ == if click.platform || click.control {
                        toggled(old(self).selected@, entry)
                    } else if click.shift {
                        old(self).selected@.union(
                            run_between(old(self).visible@, old(self).anchor, row),
                        )
                    } else {
                        Set::<usize>::empty().insert(entry)
                    }
                }
            },
    {
        let entry: usize = match self.entry_at(row) {
            Some(entry) => entry,
            None => {
                return Clicked::Nothing;
            },
        };
        assert(self.visible@.contains(entry));
        if click.count >= 2 {
            self.cursor = row;
            return Clicked::Opened(self.open_compare(entry));
        }
        if self.converting {
            return Clicked::Nothing;
        }
        if click.platform || click.control {
            self.flip(entry);
        } else if click.shift {
            if self.anchor <= row {
                self.add_run(self.anchor, row);
            } else {
                self.add_run(row, self.anchor);
            }
        } else {
            self.selected.clear();
            self.selected.insert(entry);
            self.anchor = row;
        }
        self.cursor = row;
        Clicked::Picked(self.schedule_estimate())
    }
}

/// A folder or file to scan, and the request it answers.
#[derive(Debug)]
pub struct ScanRequest {
    pub request: u64,
    /// One file rather than a folder.
    pub single: bool,
}

/// What installing a scan asks for.
pub struct Installed {
    pub sampling: Option<Sampling>,
    pub opening: Opening,
}

/// What the window says is being scanned: the last name of the path, or all of it.
pub open spec fn scan_label(path: Seq<char>) -> Seq<char> {
    match crate::paths::last_name(path) {
        Some(name) => name,
        None => path,
    }
}

/// The settings changed: results describe the old ones and are gone, samples are asked
/// for anew.
pub open spec fn is_reset(changed: Audit, after: Audit, out: Option<Sampling>) -> bool {
    &&& after == (Audit {
        results: after.results,
        estimate_generation: self::after(changed.estimate_generation),
        estimate: None,
        ..changed
    })
    &&& after.results@ == Map::<usize, u64>::empty()
    &&& is_asked(after, out)
}

/// What stays when another folder is installed: the settings, the order, the view, and
/// what belongs to requests on their way.
pub open spec fn is_installed(before: Audit, after: Audit, scan: Scan, root: String) -> bool {
    &&& after.root == root
    &&& after.entries == scan.entries
    &&& after.skipped_raw == scan.skipped_raw
    &&& after.unreadable == scan.unreadable
    &&& after.existing_output == scan.existing_output
    &&& after.dataset_generation == self::after(before.dataset_generation)
    &&& after.estimate is None
    &&& !after.converting
    &&& after.active_target_count is None
    &&& after.selected@ == Set::<usize>::empty()
    &&& after.results@ == Map::<usize, u64>::empty()
    &&& after.failures@.len() == 0
    &&& after.filter@.len() == 0
    &&& after.finding is None
    &&& after.cursor == 0
    &&& after.anchor == 0
    &&& after.thumbs@ == Set::<usize>::empty()
    &&& after.requested@ == Set::<usize>::empty()
    &&& after.thumb_order@.len() == 0
    &&& after.cached is None
    &&& after.format == before.format
    &&& after.quality == before.quality
    &&& after.max_edge == before.max_edge
    &&& after.slider_quality == before.slider_quality
    &&& after.sort == before.sort
    &&& after.grid == before.grid
    &&& after.gallery_columns == before.gallery_columns
    &&& after.scan_generation == before.scan_generation
    &&& after.scanning == before.scanning
    &&& after.remote.pairing == before.remote.pairing
    &&& after.remote.browser == before.remote.browser
    &&& after.remote.generation == self::after(before.remote.generation)
    &&& match before.remote.job {
        Some(job) => after.remote.job is Some && sync::is_stopped(job, after.remote.job->0),
        None => after.remote.job is None,
    }
    &&& match sync::ready_files(before.remote.pairing) {
        Some(files) => after.remote.counts is Some && sync::is_tally(
            root@,
            scan.entries@,
            files@,
            after.remote.counts->0,
        ),
        None => after.remote.counts is None,
    }
}

/// How many entries carry an extension that lies.
fn count_lying(entries: &Vec<Entry>) -> (out: usize)
    ensures
        out == lying(entries@, entries@.len() as int),
{
    let mut out: usize = 0;
    let mut i: usize = 0;
    while i < entries.len()
        invariant
            i <= entries@.len(),
            out == lying(entries@, i as int) <= i,
        decreases entries@.len() - i,
    {
        if entries[i].extension_lies() {
            out += 1;
        }
        i += 1;
    }
    out
}

/// Whether the files weigh no more together than a size can say.
pub fn is_weighable(entries: &Vec<Entry>) -> (out: bool)
    ensures
        out == weighable(entries@),
{
    let mut sum: u64 = 0;
    let ghost all = every_index(entries@);
    let n: usize = entries.len();
    let mut i: usize = 0;
    while i < n
        invariant
            i <= n == entries@.len(),
            all == every_index(entries@),
            sum == estimate::bytes_of(entries@, all, 0, i as int),
        decreases n - i,
    {
        let bytes = entries[i].bytes;
        assert(all[i as int] == i);
        if bytes > u64::MAX - sum {
            proof {
                estimate::lemma_bytes_join(entries@, all, 0, i + 1, n as int);
            }
            return false;
        }
        sum = sum + bytes;
        i += 1;
    }
    true
}

/// How a decoded thumbnail changes `before` into `after`: one for another folder, and one
/// that is there, changes nothing; else it is last in line, and the first in line leaves
/// once the line is too long.
pub open spec fn is_thumb_landed(
    before: Audit,
    after: Audit,
    index: usize,
    dataset_generation: u64,
    out: (bool, Option<usize>),
) -> bool {
    let kept = dataset_generation == before.dataset_generation && !before.thumbs@.contains(index);
    let line = before.thumb_order@.push(index);
    &&& out.0 == kept
    &&& after == (Audit {
        thumbs: after.thumbs,
        requested: after.requested,
        thumb_order: after.thumb_order,
        ..before
    })
    &&& !kept ==> after == before && out.1 is None
    &&& kept && line.len() <= THUMB_CACHE ==> {
        &&& out.1 is None
        &&& after.thumb_order@ == line
        &&& after.thumbs@ == before.thumbs@.insert(index)
        &&& after.requested@ == before.requested@.insert(index)
    }
    &&& kept && line.len() > THUMB_CACHE ==> {
        &&& out.1 == Some(line[0])
        &&& after.thumb_order@ == line.skip(1)
        &&& after.thumbs@ == before.thumbs@.insert(index).remove(line[0])
        &&& after.requested@ == before.requested@.insert(index).remove(line[0])
    }
}

impl Audit {
    /// Convert to another container. A running conversion keeps its settings.
    pub fn set_format(&mut self, format: Format) -> (out: Option<Sampling>)
        requires
            old(self).sound(),
        ensures
            final(self).sound(),
            old(self).converting ==> *final(self) == *old(self) && out is None,
            !old(self).converting ==> is_reset(
                (Audit { format, ..*old(self) }),
                *final(self),
                out,
            ),
    {
        if self.converting {
            return None;
        }
        self.format = format;
        self.results.clear();
        self.schedule_estimate()
    }

    /// Convert to another size. A running conversion keeps its settings.
    pub fn set_max_edge(&mut self, max_edge: MaxEdge) -> (out: Option<Sampling>)
        requires
            old(self).sound(),
        ensures
            final(self).sound(),
            old(self).converting ==> *final(self) == *old(self) && out is None,
            !old(self).converting ==> is_reset(
                (Audit { max_edge, ..*old(self) }),
                *final(self),
                out,
            ),
    {
        if self.converting {
            return None;
        }
        self.max_edge = max_edge;
        self.results.clear();
        self.schedule_estimate()
    }

    /// The quality slider moved. Results from the old value stop being true the moment
    /// it does.
    pub fn set_quality(&mut self, units: i64) -> (out: Option<Sampling>)
        requires
            old(self).sound(),
        ensures
            final(self).sound(),
            old(self).converting ==> *final(self) == *old(self) && out is None,
            !old(self).converting ==> {
                &&& final(self).quality.0 == Some(convert::clamped(units))
                &&& is_reset(
                    (Audit {
                        quality: final(self).quality,
                        slider_quality: units,
                        ..*old(self)
                    }),
                    *final(self),
                    out,
                )
            },
    {
        if self.converting {
            return None;
        }
        self.quality = Quality::lossy(units);
        self.slider_quality = units;
        self.results.clear();
        self.schedule_estimate()
    }

    /// Turn lossless on, or off again: off goes back to where the slider was.
    pub fn toggle_lossless(&mut self) -> (out: Option<Sampling>)
        requires
            old(self).sound(),
        ensures
            final(self).sound(),
            old(self).converting ==> *final(self) == *old(self) && out is None,
            !old(self).converting ==> {
                &&& final(self).quality.0 == match old(self).quality.0 {
                    None => Some(convert::clamped(old(self).slider_quality)),
                    Some(_) => None,
                }
                &&& is_reset(
                    (Audit { quality: final(self).quality, ..*old(self) }),
                    *final(self),
                    out,
                )
            },
    {
        if self.converting {
            return None;
        }
        self.quality = if self.quality.0.is_none() {
            Quality::lossy(self.slider_quality)
        } else {
            Quality::lossless()
        };
        self.results.clear();
        self.schedule_estimate()
    }

    /// Show the list as a gallery, or the gallery as a list.
    pub fn toggle_grid(&mut self)
        requires
            old(self).sound(),
        ensures
            final(self).sound(),
            *final(self) == (Audit { grid: !old(self).grid, ..*old(self) }),
    {
        self.grid = !self.grid;
    }

    /// The gallery is laid out with `columns` columns. Whether its scroll position has
    /// to go back to the top: another column count puts other files on every row.
    pub fn lay_out_gallery(&mut self, columns: usize) -> (out: bool)
        requires
            old(self).sound(),
        ensures
            final(self).sound(),
            *final(self) == (Audit { gallery_columns: Some(columns), ..*old(self) }),
            out == (old(self).gallery_columns matches Some(previous) && previous != columns),
    {
        let out = match self.gallery_columns {
            Some(previous) => previous != columns,
            None => false,
        };
        self.gallery_columns = Some(columns);
        out
    }

    /// Ask for a thumbnail, unless it is kept or on its way. Whether to decode it.
    pub fn request_thumb(&mut self, index: usize) -> (out: bool)
        requires
            old(self).sound(),
        ensures
            final(self).sound(),
            *final(self) == (Audit { requested: final(self).requested, ..*old(self) }),
            final(self).requested@ == if old(self).thumbs@.contains(index) {
                old(self).requested@
            } else {
                old(self).requested@.insert(index)
            },
            out == (!old(self).thumbs@.contains(index) && !old(self).requested@.contains(index)
                && index < old(self).entries@.len()),
    {
        if self.thumbs.contains(&index) {
            return false;
        }
        if !self.requested.insert(index) {
            assert(self.requested@ =~= old(self).requested@.insert(index));
            return false;
        }
        index < self.entries.len()
    }

    /// A thumbnail is decoded. One for another folder is dropped; else it is kept, and
    /// the oldest leaves once the cache is over its bound, to be asked for again when
    /// its row comes back. Whether it is kept, and which one left.
    pub fn land_thumb(&mut self, index: usize, dataset_generation: u64) -> (out: (
        bool,
        Option<usize>,
    ))
        requires
            old(self).sound(),
        ensures
            final(self).sound(),
            is_thumb_landed(*old(self), *final(self), index, dataset_generation, out),
    {
        if self.dataset_generation != dataset_generation || self.thumbs.contains(&index) {
            return (false, None);
        }
        let ghost before = self.thumb_order@;
        let ghost first = *self;
        self.thumbs.insert(index);
        self.requested.insert(index);
        self.thumb_order.push_back(index);
        let ghost line = before.push(index);
        proof {
            assert(!before.contains(index));
            assert(line.no_duplicates());
            assert forall|k: usize| #[trigger] line.contains(k) <==> before.contains(k) || k
                == index by {
                if before.contains(k) {
                    let i = choose|i: int| 0 <= i < before.len() && before[i] == k;
                    assert(line[i] == k);
                }
                assert(line[before.len() as int] == index);
            }
        }
        if self.thumb_order.len() > THUMB_CACHE {
            match self.thumb_order.pop_front() {
                Some(oldest) => {
                    self.thumbs.remove(&oldest);
                    self.requested.remove(&oldest);
                    proof {
                        let rest = line.skip(1);
                        assert(self.thumb_order@ =~= rest);
                        assert(oldest == line[0]);
                        assert forall|k: usize| #[trigger] rest.contains(k) <==> line.contains(k)
                            && k != oldest by {
                            if rest.contains(k) {
                                let i = choose|i: int| 0 <= i < rest.len() && rest[i] == k;
                                assert(line[i + 1] == k);
                                assert(line[i + 1] != line[0]);
                            }
                            if line.contains(k) && k != oldest {
                                let i = choose|i: int| 0 <= i < line.len() && line[i] == k;
                                assert(rest[i - 1] == k);
                            }
                        }
                        assert(rest.no_duplicates()) by {
                            assert forall|i: int, j: int|
                                0 <= i < rest.len() && 0 <= j < rest.len() && i != j implies rest[i]
                                != rest[j] by {
                                assert(line[i + 1] != line[j + 1]);
                            }
                        }
                    }
                    (true, Some(oldest))
                },
                None => (true, None),
            }
        } else {
            (true, None)
        }
    }

    /// Install a completed scan. This is the one transition that replaces the dataset
    /// and invalidates every job derived from the old rows. A single file opens its
    /// comparison.
    pub fn install_dataset(&mut self, scan: Scan, root: String, single: bool) -> (out: Installed)
        requires
            old(self).sound(),
            weighable(scan.entries@),
        ensures
            final(self).sound(),
            is_installed(*old(self), *final(self), scan, root),
            final(self).estimate_generation == after(after(old(self).estimate_generation)),
            is_asked(*final(self), out.sampling),
            if single {
                is_opened(
                    (Audit { compare: None, ..*final(self) }),
                    *final(self),
                    0,
                    out.opening,
                )
            } else {
                final(self).compare is None && out.opening is Nothing
            },
    {
        self.dataset_generation = bump(self.dataset_generation);
        self.estimate_generation = bump(self.estimate_generation);
        self.estimate = None;
        self.converting = false;
        self.active_target_count = None;
        self.root = root;
        self.mislabelled = count_lying(&scan.entries);
        self.entries = scan.entries;
        self.skipped_raw = scan.skipped_raw;
        self.unreadable = scan.unreadable;
        self.existing_output = scan.existing_output;
        self.thumbs.clear();
        self.thumb_order.clear();
        self.requested.clear();
        self.selected.clear();
        self.results.clear();
        self.failures.clear();
        self.compare = None;
        self.cached = None;
        self.filter = String::new();
        self.finding = None;
        self.cursor = 0;
        self.anchor = 0;
        self.refresh_visible();
        self.remote.cancel_transfer();
        self.remote.refresh_counts(self.root.as_str(), &self.entries);
        let sampling = self.schedule_estimate();
        let opening = if single {
            self.open_compare(0)
        } else {
            Opening::Nothing
        };
        Installed { sampling, opening }
    }

    /// Ask for a path to be scanned. A newer request wins. A running conversion keeps
    /// its folder, and a path that is neither a file nor a folder opens nothing.
    pub fn request_path(&mut self, path: &str, is_file: bool, is_dir: bool) -> (out: Option<
        ScanRequest,
    >)
        requires
            old(self).sound(),
        ensures
            final(self).sound(),
            old(self).converting || (!is_file && !is_dir) ==> *final(self) == *old(self) && out
                is None,
            !old(self).converting && (is_file || is_dir) ==> {
                &&& *final(self) == (Audit {
                    scan_generation: after(old(self).scan_generation),
                    scanning: final(self).scanning,
                    ..*old(self)
                })
                &&& final(self).scanning matches Some(label)
                &&& label@ == scan_label(path@)
                &&& out matches Some(request)
                &&& request.request == final(self).scan_generation
                &&& request.single == is_file
            },
    {
        if self.converting || (!is_file && !is_dir) {
            return None;
        }
        self.scan_generation = bump(self.scan_generation);
        let label = match crate::paths::file_name(path) {
            Some(name) => name,
            None => path.to_string(),
        };
        self.scanning = Some(label);
        Some(ScanRequest { request: self.scan_generation, single: is_file })
    }

    /// A scan has come back: what it found and under which root, or nothing. An older
    /// request is answered by nothing, and a failed one leaves the last usable dataset
    /// in place.
    pub fn land_scan(
        &mut self,
        request: u64,
        found: Option<(Scan, String)>,
        single: bool,
    ) -> (out: Option<Installed>)
        requires
            old(self).sound(),
            found matches Some((scan, _)) ==> weighable(scan.entries@),
        ensures
            final(self).sound(),
            old(self).scan_generation != request ==> *final(self) == *old(self) && out is None,
            old(self).scan_generation == request ==> match found {
                Some((scan, root)) => {
                    &&& is_installed(
                        (Audit { scanning: None, ..*old(self) }),
                        *final(self),
                        scan,
                        root,
                    )
                    &&& final(self).estimate_generation == after(
                        after(old(self).estimate_generation),
                    )
                    &&& out matches Some(installed)
                    &&& is_asked(*final(self), installed.sampling)
                    &&& if single {
                        is_opened(
                            Audit { compare: None, ..*final(self) },
                            *final(self),
                            0,
                            installed.opening,
                        )
                    } else {
                        final(self).compare is None && installed.opening is Nothing
                    }
                },
                None => *final(self) == (Audit { scanning: None, ..*old(self) }) && out is None,
            },
    {
        if self.scan_generation != request {
            return None;
        }
        self.scanning = None;
        match found {
            Some((scan, root)) => Some(self.install_dataset(scan, root, single)),
            None => None,
        }
    }

    /// The walk of the paired folder has come back. One that started under another
    /// dataset retires with the rest of the work that dataset owned, and one for a pairing
    /// that has been replaced with that pairing.
    pub fn land_walk(
        &mut self,
        dataset_generation: u64,
        pairing_generation: u64,
        walked: Result<Vec<Node>, String>,
    )
        requires
            old(self).sound(),
        ensures
            final(self).sound(),
            *final(self) == (Audit { remote: final(self).remote, ..*old(self) }),
            dataset_generation != old(self).dataset_generation || pairing_generation != old(
                self,
            ).remote.pairing_generation ==> *final(self) == *old(self),
            dataset_generation == old(self).dataset_generation && pairing_generation == old(
                self,
            ).remote.pairing_generation ==> match old(self).remote.pairing {
                None => *final(self) == *old(self),
                Some(pairing) => match walked {
                    Ok(nodes) => {
                        let files = sync::keyed(pairing.dir@, nodes@, nodes@.len() as int);
                        &&& final(self).remote == (Remote {
                            pairing: final(self).remote.pairing,
                            counts: final(self).remote.counts,
                            ..old(self).remote
                        })
                        &&& final(self).remote.pairing matches Some(paired)
                        &&& paired.dir@ == pairing.dir@
                        &&& sync::ready_files(final(self).remote.pairing) matches Some(listed)
                        &&& listed@ == files
                        &&& final(self).remote.counts matches Some(counts)
                        &&& sync::is_tally(old(self).root@, old(self).entries@, files, counts)
                    },
                    Err(message) => final(self).remote == (Remote {
                        pairing: Some(
                            (sync::Pairing { files: sync::Listing::Failed(message), ..pairing }),
                        ),
                        ..old(self).remote
                    }),
                },
            },
    {
        if self.dataset_generation != dataset_generation {
            return;
        }
        self.remote.land_walk(pairing_generation, walked, self.root.as_str(), &self.entries);
    }
}

/// Everything the window needs to open.
pub struct Launch {
    pub root: String,
    pub scan: Scan,
    pub open_single: bool,
    pub format: Format,
    pub quality: Quality,
    pub max_edge: MaxEdge,
    pub grid: bool,
}

/// An audit with nothing in it but what the program was started with.
pub open spec fn is_fresh(audit: Audit, launch: Launch) -> bool {
    &&& audit.root == launch.root
    &&& audit.entries == launch.scan.entries
    &&& audit.skipped_raw == launch.scan.skipped_raw
    &&& audit.unreadable == launch.scan.unreadable
    &&& audit.existing_output == launch.scan.existing_output
    &&& audit.format == launch.format
    &&& audit.quality == launch.quality
    &&& audit.max_edge == launch.max_edge
    &&& audit.slider_quality == match launch.quality.0 {
        Some(units) => units as int,
        None => 80 * crate::picture::QUALITY_ONE,
    }
    &&& audit.selected@ == Set::<usize>::empty()
    &&& audit.results@ == Map::<usize, u64>::empty()
    &&& !audit.converting
    &&& audit.active_target_count is None
    &&& audit.failures@.len() == 0
    &&& audit.sort == (Sort { column: Column::Weight, descending: true })
    &&& audit.filter@.len() == 0
    &&& audit.finding is None
    &&& audit.cursor == 0
    &&& audit.anchor == 0
    &&& audit.grid == launch.grid
    &&& audit.gallery_columns is None
    &&& audit.estimate is None
    &&& audit.estimate_generation == 1
    &&& audit.dataset_generation == 0
    &&& audit.scan_generation == 0
    &&& audit.scanning is None
    &&& audit.thumbs@ == Set::<usize>::empty()
    &&& audit.requested@ == Set::<usize>::empty()
    &&& audit.thumb_order@.len() == 0
    &&& audit.cached is None
    &&& audit.remote.pairing is None
    &&& audit.remote.counts is None
    &&& audit.remote.job is None
    &&& audit.remote.generation == 0
    &&& audit.remote.browser is None
}

/// Build the audit a window shows: heaviest files first, nothing ticked, and for a
/// single file its comparison open.
pub fn build_audit(launch: Launch) -> (out: (Audit, Installed))
    requires
        launch.quality.in_range(),
        weighable(launch.scan.entries@),
    ensures
        out.0.sound(),
        is_fresh(out.0, launch),
        is_asked(out.0, out.1.sampling),
        if launch.open_single {
            is_opened((Audit { compare: None, ..out.0 }), out.0, 0, out.1.opening)
        } else {
            out.0.compare is None && out.1.opening is Nothing
        },
{
    let slider_quality: i64 = match launch.quality.0 {
        Some(units) => units as i64,
        None => 80 * crate::picture::QUALITY_ONE as i64,
    };
    let mislabelled = count_lying(&launch.scan.entries);
    let mut audit = Audit {
        root: launch.root,
        entries: launch.scan.entries,
        skipped_raw: launch.scan.skipped_raw,
        unreadable: launch.scan.unreadable,
        existing_output: launch.scan.existing_output,
        mislabelled,
        format: launch.format,
        quality: launch.quality,
        max_edge: launch.max_edge,
        slider_quality,
        selected: HashSet::new(),
        results: HashMap::new(),
        converting: false,
        active_target_count: None,
        failures: Vec::new(),
        sort: Sort { column: Column::Weight, descending: true },
        visible: Vec::new(),
        filter: String::new(),
        finding: None,
        cursor: 0,
        anchor: 0,
        grid: launch.grid,
        gallery_columns: None,
        estimate: None,
        estimate_generation: 0,
        dataset_generation: 0,
        scan_generation: 0,
        scanning: None,
        heaviest: 0,
        visible_bytes: 0,
        thumbs: HashSet::new(),
        requested: HashSet::new(),
        thumb_order: VecDeque::new(),
        compare: None,
        cached: None,
        remote: Remote::none(),
    };
    audit.refresh_visible();
    let sampling = audit.schedule_estimate();
    let opening = if launch.open_single {
        audit.open_compare(0)
    } else {
        Opening::Nothing
    };
    (audit, Installed { sampling, opening })
}

// ── What holds throughout ───────────────────────────────────────────────────

/// Asking for a finding and asking for it again puts the list back.
pub proof fn law_asking_again_puts_the_list_back(
    first: Audit,
    second: Audit,
    third: Audit,
    finding: Finding,
    narrowed: Option<Sampling>,
    widened: Option<Sampling>,
)
    requires
        first.sound(),
        second.sound(),
        third.sound(),
        first.finding is None,
        is_narrowed(first, second, finding, narrowed),
        is_narrowed(second, third, finding, widened),
    ensures
        third.finding is None,
        third.visible@ == first.visible@,
{
    rows::law_one_view(
        first.entries@,
        first.filter@,
        first.finding,
        first.sort,
        first.visible@,
        third.visible@,
    );
}

/// One finding holds at a time: asking for another takes the place of the first.
pub proof fn law_one_finding_at_a_time(
    before: Audit,
    after: Audit,
    finding: Finding,
    out: Option<Sampling>,
)
    requires
        after.sound(),
        is_narrowed(before, after, finding, out),
        !before.converting,
        before.finding != Some(finding),
    ensures
        forall|i: int|
            0 <= i < after.visible@.len() ==> rows::is_found(
                finding,
                after.entries@[(#[trigger] after.visible@[i]) as int],
            ),
{
    assert forall|i: int| 0 <= i < after.visible@.len() implies rows::is_found(
        finding,
        after.entries@[(#[trigger] after.visible@[i]) as int],
    ) by {
        assert(after.visible@.contains(after.visible@[i]));
    }
}

/// Sorting by the same column again turns the order round, and a third time back.
pub proof fn law_sorting_again_turns_the_order_round(sort: Sort, column: Column)
    ensures
        resorted(resorted(sort, column), column) == (Sort {
            column,
            descending: !resorted(sort, column).descending,
        }),
        resorted(resorted(resorted(sort, column), column), column) == resorted(sort, column),
{
}

/// Work started for one state never passes for work of the next: a generation that has
/// moved on is another one.
pub proof fn law_stale_work_can_tell(generation: u64)
    ensures
        after(generation) != generation,
{
}

/// What is kept of a list is what is in it and passes.
proof fn lemma_kept(list: Seq<usize>, pass: spec_fn(usize) -> bool, item: usize)
    ensures
        list.filter(pass).contains(item) <==> list.contains(item) && pass(item),
    decreases list.len(),
{
    reveal(Seq::filter);
    if list.len() > 0 {
        let front = list.drop_last();
        let kept = front.filter(pass);
        lemma_kept(front, pass, item);
        assert(list.contains(item) <==> front.contains(item) || list.last() == item) by {
            if list.contains(item) {
                let i = choose|i: int| 0 <= i < list.len() && list[i] == item;
                if i < front.len() {
                    assert(front[i] == item);
                }
            }
            if front.contains(item) {
                let i = choose|i: int| 0 <= i < front.len() && front[i] == item;
                assert(list[i] == item);
            }
            assert(list[list.len() - 1] == list.last());
        }
        assert(kept.push(list.last()).contains(item) <==> kept.contains(item) || list.last()
            == item) by {
            let more = kept.push(list.last());
            if more.contains(item) {
                let i = choose|i: int| 0 <= i < more.len() && more[i] == item;
                if i < kept.len() {
                    assert(kept[i] == item);
                }
            }
            if kept.contains(item) {
                let i = choose|i: int| 0 <= i < kept.len() && kept[i] == item;
                assert(more[i] == item);
            }
            assert(more[kept.len() as int] == list.last());
        }
    }
}

/// A conversion touches nothing that the list hides, and nothing that is not ticked
/// where anything is; everything on screen that is ticked, it touches.
pub proof fn law_hidden_files_are_not_converted(
    visible: Seq<usize>,
    selected: Set<usize>,
    entry: usize,
)
    ensures
        chosen(visible, selected).contains(entry) <==> visible.contains(entry) && (
        selected.is_empty() || selected.contains(entry)),
{
    if !selected.is_empty() {
        lemma_kept(visible, |k: usize| selected.contains(k), entry);
    }
}

/// Ticking a file twice leaves the ticks as they were.
pub proof fn law_ticking_twice_is_nothing(selected: Set<usize>, entry: usize)
    ensures
        toggled(toggled(selected, entry), entry) == selected,
{
    assert(toggled(toggled(selected, entry), entry) =~= selected);
}

/// In a comparison, stepping back undoes stepping forward.
pub proof fn law_stepping_back_undoes_stepping_forward(
    first: Audit,
    second: Audit,
    third: Audit,
    ahead: Opening,
    back: Opening,
)
    requires
        first.sound(),
        first.compare is Some,
        first.visible@.contains(first.compare->0.index),
        is_compare_stepped(first, second, true, ahead),
        is_compare_stepped(second, third, false, back),
        second.compare->0.index != first.compare->0.index,
    ensures
        third.compare is Some,
        third.compare->0.index == first.compare->0.index,
        third.visible@[third.cursor as int] == first.compare->0.index,
{
    let visible = first.visible@;
    let index = first.compare->0.index;
    visible.index_of_first_ensures(index);
    let row = visible.index_of_first(index)->0;
    assert(0 <= row + 1 < visible.len());
    assert(first.visible.len() == visible.len());
    assert(visible.contains(visible[row]) && visible.contains(visible[row + 1]));
    assert(second.visible@ == visible);
    visible.index_of_first_ensures(visible[row + 1]);
    let next = visible.index_of_first(visible[row + 1])->0;
    assert(next == row + 1) by {
        if next < row + 1 {
            assert(visible[next] != visible[row + 1]);
        }
        if row + 1 < next {
            assert(visible[row + 1] != visible[row + 1]);
        }
    }
}

/// No more thumbnails are kept than the cache holds.
pub proof fn law_the_cache_is_bounded(audit: Audit)
    requires
        audit.sound(),
    ensures
        audit.thumbs@.len() <= THUMB_CACHE,
{
    let line = audit.thumb_order@;
    line.unique_seq_to_set();
    assert(audit.thumbs@ =~= line.to_set()) by {
        assert forall|k: usize| audit.thumbs@.contains(k) <==> line.to_set().contains(k) by {
            assert(line.contains(k) <==> audit.thumbs@.contains(k));
        }
    }
}

/// What a conversion touches it takes in the order of the list, each file once.
pub proof fn law_a_conversion_follows_the_list(
    visible: Seq<usize>,
    selected: Set<usize>,
    i: int,
    j: int,
)
    requires
        visible.no_duplicates(),
        0 <= i < j < chosen(visible, selected).len(),
    ensures
        exists|p: int, q: int|
            {
                &&& 0 <= p < q < visible.len()
                &&& #[trigger] visible[p] == chosen(visible, selected)[i]
                &&& #[trigger] visible[q] == chosen(visible, selected)[j]
            },
        chosen(visible, selected)[i] != chosen(visible, selected)[j],
    decreases visible.len(),
{
    let all = chosen(visible, selected);
    lemma_chosen_of_view(visible, selected);
    assert(all[i] != all[j]);
    if selected.is_empty() {
        assert(visible[i] == all[i] && visible[j] == all[j]);
    } else {
        reveal(Seq::filter);
        let front = visible.drop_last();
        let kept = chosen(front, selected);
        assert(visible.len() > 0);
        assert(front.no_duplicates());
        if j < kept.len() {
            law_a_conversion_follows_the_list(front, selected, i, j);
            let (p, q) = choose|p: int, q: int|
                {
                    &&& 0 <= p < q < front.len()
                    &&& #[trigger] front[p] == kept[i]
                    &&& #[trigger] front[q] == kept[j]
                };
            assert(visible[p] == all[i] && visible[q] == all[j]);
        } else {
            lemma_chosen_of_view(front, selected);
            assert(front.contains(kept[i]));
            let p = choose|p: int| 0 <= p < front.len() && front[p] == kept[i];
            assert(visible[p] == all[i] && visible[visible.len() - 1] == all[j]);
        }
    }
}

/// Ticking the whole list, and ticking nothing, both convert the whole list.
pub proof fn law_all_and_nothing_ticked_convert_the_list(visible: Seq<usize>, selected: Set<usize>)
    ensures
        chosen(visible, selected.union(visible.to_set())) == visible,
        chosen(visible, Set::<usize>::empty()) == visible,
{
    let ticked = selected.union(visible.to_set());
    if !ticked.is_empty() {
        let keep = |index: usize| ticked.contains(index);
        assert forall|i: int| 0 <= i < visible.len() implies keep(#[trigger] visible[i]) by {
            assert(visible.contains(visible[i]));
        }
        lemma_all_kept(visible, keep);
    }
}

proof fn lemma_all_kept(list: Seq<usize>, keep: spec_fn(usize) -> bool)
    requires
        forall|i: int| 0 <= i < list.len() ==> keep(#[trigger] list[i]),
    ensures
        list.filter(keep) == list,
    decreases list.len(),
{
    reveal(Seq::filter);
    if list.len() > 0 {
        let front = list.drop_last();
        assert forall|i: int| 0 <= i < front.len() implies keep(#[trigger] front[i]) by {
            assert(front[i] == list[i]);
        }
        lemma_all_kept(front, keep);
        assert(keep(list[list.len() - 1]));
        assert(front.push(list.last()) =~= list);
    } else {
        assert(list.filter(keep) =~= list);
    }
}

/// The heaviest file on screen weighs as much as one of them, and none weighs more.
pub proof fn law_the_heaviest_outweighs_the_rest(entries: Seq<Entry>, rows: Seq<usize>, n: int)
    requires
        0 <= n <= rows.len(),
    ensures
        forall|i: int|
            0 <= i < n ==> entries[(#[trigger] rows[i]) as int].bytes <= most_bytes(
                entries,
                rows,
                n,
            ),
        n > 0 ==> exists|i: int|
            0 <= i < n && entries[(#[trigger] rows[i]) as int].bytes == most_bytes(
                entries,
                rows,
                n,
            ),
        n == 0 ==> most_bytes(entries, rows, n) == 0,
    decreases n,
{
    if n > 0 {
        law_the_heaviest_outweighs_the_rest(entries, rows, n - 1);
        let (before, last) = (most_bytes(entries, rows, n - 1), entries[rows[n - 1] as int].bytes);
        if last > before || n == 1 {
            assert(entries[rows[n - 1] as int].bytes == most_bytes(entries, rows, n));
        } else {
            let i = choose|i: int|
                0 <= i < n - 1 && entries[(#[trigger] rows[i]) as int].bytes == before;
            assert(entries[rows[i] as int].bytes == most_bytes(entries, rows, n));
        }
    }
}

/// As many files are counted as mislabelled as there are.
pub proof fn law_every_mislabelled_file_is_counted(entries: Seq<Entry>, n: int)
    requires
        0 <= n <= entries.len(),
    ensures
        lying(entries, n) == entries.take(n).filter(|e: Entry| scan::mislabelled(e)).len(),
    decreases n,
{
    reveal(Seq::filter);
    if n > 0 {
        law_every_mislabelled_file_is_counted(entries, n - 1);
        assert(entries.take(n).drop_last() =~= entries.take(n - 1));
        assert(entries.take(n).last() == entries[n - 1]);
    }
}

/// A column that the list was not ordered by opens with the most first where it counts
/// something, and from A to Z where it names something.
pub proof fn law_columns_open_the_useful_way_round(sort: Sort, column: Column)
    requires
        sort.column != column,
    ensures
        resorted(sort, column).column == column,
        resorted(sort, column).descending <==> column is Weight || column is Pixels
            || column is Density,
{
}

/// The cursor stays on the list: it moves by as many rows as it was told to, as far as there
/// are rows, and stops at the ends. When the list shrinks it stays where it was, or goes to
/// the last row.
pub proof fn law_the_cursor_stays_on_the_list(cursor: usize, delta: int, rows: nat)
    requires
        cursor < rows <= usize::MAX,
    ensures
        moved(cursor, delta, rows) < rows,
        0 <= cursor + delta < rows ==> moved(cursor, delta, rows) == cursor + delta,
        cursor + delta < 0 ==> moved(cursor, delta, rows) == 0,
        cursor + delta >= rows ==> moved(cursor, delta, rows) == rows - 1,
        clamped(cursor, rows) == cursor,
        forall|fewer: nat|
            0 < fewer <= cursor ==> #[trigger] clamped(cursor, fewer) == fewer - 1,
        clamped(cursor, 0) == 0,
{
}

/// A run of rows is the same from either end. It takes in both ends and every row between
/// them, and no other.
pub proof fn law_a_run_takes_both_ends(visible: Seq<usize>, a: usize, b: usize, row: int)
    requires
        visible.no_duplicates(),
        0 <= row < visible.len(),
    ensures
        run_between(visible, a, b) == run_between(visible, b, a),
        run_between(visible, a, b).contains(visible[row]) <==> (a <= row <= b || b <= row <= a),
{
    assert(run_between(visible, a, b) =~= run_between(visible, b, a));
    let (from, to) = if a <= b {
        (a as int, b as int)
    } else {
        (b as int, a as int)
    };
    if run_of(visible, from, to).contains(visible[row]) {
        let other = choose|other: int|
            from <= other <= to && 0 <= other < visible.len() && #[trigger] visible[other]
                == visible[row];
        assert(other == row);
    }
}

/// A batch lands file by file: one that encoded has its size among the results, one that
/// did not leaves what was there, and files that are not in the batch keep what they had.
pub proof fn law_results_land_where_they_belong(
    results: Map<usize, u64>,
    batch: Seq<(usize, Option<u64>)>,
    k: usize,
)
    requires
        forall|i: int, j: int|
            0 <= i < j < batch.len() ==> (#[trigger] batch[i]).0 != (#[trigger] batch[j]).0,
    ensures
        forall|i: int|
            0 <= i < batch.len() && (#[trigger] batch[i]).0 == k ==> match batch[i].1 {
                Some(bytes) => recorded(results, batch).contains_key(k) && recorded(
                    results,
                    batch,
                )[k] == bytes,
                None => recorded(results, batch).contains_key(k) == results.contains_key(k) && (
                results.contains_key(k) ==> recorded(results, batch)[k] == results[k]),
            },
        (forall|i: int| 0 <= i < batch.len() ==> (#[trigger] batch[i]).0 != k) ==> {
            &&& recorded(results, batch).contains_key(k) == results.contains_key(k)
            &&& results.contains_key(k) ==> recorded(results, batch)[k] == results[k]
        },
    decreases batch.len(),
{
    if batch.len() > 0 {
        let front = batch.drop_last();
        assert forall|i: int, j: int| 0 <= i < j < front.len() implies (#[trigger] front[i]).0 != (
        #[trigger] front[j]).0 by {
            assert(batch[i].0 != batch[j].0);
        }
        law_results_land_where_they_belong(results, front, k);
        assert forall|i: int| 0 <= i < front.len() implies #[trigger] front[i] == batch[i] by {
        }
        assert(batch[batch.len() - 1] == batch.last());
        if batch.last().0 == k {
            assert forall|i: int| 0 <= i < front.len() implies (#[trigger] front[i]).0 != k by {
                assert(batch[i].0 != batch[batch.len() - 1].0);
            }
        }
        assert forall|i: int| 0 <= i < batch.len() && (#[trigger] batch[i]).0 == k implies match batch[i].1 {
            Some(bytes) => recorded(results, batch).contains_key(k) && recorded(results, batch)[k]
                == bytes,
            None => recorded(results, batch).contains_key(k) == results.contains_key(k) && (
            results.contains_key(k) ==> recorded(results, batch)[k] == results[k]),
        } by {
            if i < front.len() {
                assert(front[i].0 == k);
                assert(batch[i].0 != batch[batch.len() - 1].0);
            }
        }
    }
}

/// Every file of a batch that did not encode is named, in order, and no other.
pub proof fn law_every_failure_is_named(entries: Seq<Entry>, batch: Seq<(usize, Option<u64>)>)
    ensures
        failed_names(entries, batch) == batch.filter(
            |done: (usize, Option<u64>)| done.1 is None,
        ).map_values(|done: (usize, Option<u64>)| scan::title(entries[done.0 as int].path@)),
    decreases batch.len(),
{
    reveal(Seq::filter);
    let failed = |done: (usize, Option<u64>)| done.1 is None;
    let named = |done: (usize, Option<u64>)| scan::title(entries[done.0 as int].path@);
    if batch.len() > 0 {
        law_every_failure_is_named(entries, batch.drop_last());
        let kept = batch.drop_last().filter(failed);
        assert(kept.push(batch.last()).map_values(named) =~= kept.map_values(named).push(
            named(batch.last()),
        ));
    } else {
        assert(batch.filter(failed).map_values(named) =~= seq![]);
    }
}

/// The totals of a run are of the files converted and no others: nothing without results,
/// and one more result adds its source to the one and itself to the other.
pub proof fn law_one_more_result_adds_to_the_totals(
    entries: Seq<Entry>,
    results: Map<usize, u64>,
    k: usize,
    bytes: u64,
    n: int,
)
    requires
        0 <= n <= entries.len() <= usize::MAX,
        !results.contains_key(k),
    ensures
        totals(entries, Map::<usize, u64>::empty(), n) == (0nat, 0nat),
        totals(entries, results.insert(k, bytes), n) == if k < n {
            (
                totals(entries, results, n).0 + entries[k as int].bytes as nat,
                totals(entries, results, n).1 + bytes as nat,
            )
        } else {
            totals(entries, results, n)
        },
    decreases n,
{
    if n > 0 {
        law_one_more_result_adds_to_the_totals(entries, results, k, bytes, n - 1);
    }
}

/// Another folder starts afresh: nothing ticked, no results, no failures, nothing searched
/// for, every file of it listed, and work for the old folder told apart. The settings, the
/// order and the pairing stay.
pub proof fn law_another_folder_starts_afresh(before: Audit, after: Audit, scan: Scan, root: String)
    requires
        after.sound(),
        is_installed(before, after, scan, root),
        rows::lowered(seq![]).len() == 0,
    ensures
        after.entries@ == scan.entries@,
        after.root@ == root@,
        after.selected@.is_empty(),
        after.results@.len() == 0,
        after.failures@.len() == 0,
        !after.converting,
        after.estimate is None,
        after.dataset_generation != before.dataset_generation,
        after.format == before.format && after.quality == before.quality && after.max_edge
            == before.max_edge,
        after.sort == before.sort,
        forall|k: usize| #[trigger] after.visible@.contains(k) <==> k < scan.entries@.len(),
        after.targeted() == after.visible@,
{
    assert(after.filter@ =~= seq![]);
}

/// Another setting outdates what was made with the old one: no results are left and no
/// estimate, work for the old setting is told apart, and everything else stays.
pub proof fn law_settings_outdate_results(changed: Audit, after: Audit, out: Option<Sampling>)
    requires
        is_reset(changed, after, out),
    ensures
        after.results@.len() == 0,
        after.estimate is None,
        after.estimate_generation != changed.estimate_generation,
        after.selected == changed.selected,
        after.visible == changed.visible,
        after.entries == changed.entries,
        after.sort == changed.sort,
        after.format == changed.format && after.quality == changed.quality && after.max_edge
            == changed.max_edge,
        after.remote == changed.remote,
{
}

/// Ticking leaves the list alone: what is shown, in what order, and what was converted stays;
/// only what is ticked and what is projected of it changes.
pub proof fn law_ticking_leaves_the_list_alone(before: Audit, after: Audit, out: Option<Sampling>)
    requires
        is_reselected(before, after, out),
    ensures
        after.visible == before.visible,
        after.entries == before.entries,
        after.results == before.results,
        after.sort == before.sort,
        after.cursor == before.cursor,
        after.estimate is None,
        after.estimate_generation != before.estimate_generation,
        out is Some <==> after.targeted().len() > 0,
        out matches Some(sampling) ==> sampling.generation == after.estimate_generation,
{
}

/// What is sampled is of what would be converted, with the settings that hold and for the
/// state there is.
pub proof fn law_samples_are_of_what_would_be_converted(audit: Audit, sampling: Sampling, k: int)
    requires
        is_sampling(audit, sampling),
        0 <= k < sampling.strata@.len(),
    ensures
        audit.targeted().contains(sampling.strata@[k].index),
        sampling.strata@[k].bytes == audit.entries@[sampling.strata@[k].index as int].bytes,
        sampling.format == audit.format,
        sampling.quality == audit.quality,
        sampling.max_edge == audit.max_edge,
        sampling.generation == audit.estimate_generation,
        sampling.dataset_generation == audit.dataset_generation,
{
    assert(estimate::is_stratum(
        audit.entries@,
        audit.targeted(),
        sampling.strata@.len() as int,
        k,
        sampling.strata@[k],
    ));
    let len = audit.targeted().len() as int;
    let slices = sampling.strata@.len() as int;
    let middle = (estimate::cut(k, len, slices) + estimate::cut(k + 1, len, slices)) / 2;
    assert(audit.targeted()[middle] == sampling.strata@[k].index);
}

/// A run converts just what is chosen, in order, with the settings that hold, each file from
/// where it lies.
pub proof fn law_a_run_converts_what_is_chosen(
    audit: Audit,
    conversion: Conversion,
    i: int,
)
    requires
        is_run(audit, audit.targeted(), conversion),
        0 <= i < conversion.tasks@.len(),
    ensures
        conversion.tasks@.len() == audit.targeted().len(),
        conversion.tasks@[i].index == audit.targeted()[i],
        conversion.tasks@[i].source@ == audit.entries@[audit.targeted()[i] as int].path@,
        conversion.format == audit.format,
        conversion.quality == audit.quality,
        conversion.max_edge == audit.max_edge,
        conversion.dataset_generation == audit.dataset_generation,
{
}

/// A comparison opens on the file it was asked for, with the settings that hold. It is ready
/// at once just where the pair built last shows that file with those settings.
pub proof fn law_a_comparison_opens_on_its_file(
    before: Audit,
    after: Audit,
    index: usize,
    out: Opening,
)
    requires
        is_opened(before, after, index, out),
        index < before.entries@.len(),
    ensures
        after.compare matches Some(open) && open.index == index && open.key.path@
            == before.entries@[index as int].path@ && open.key.format == before.format
            && open.key.quality == before.quality && open.key.max_edge == before.max_edge,
        out is Cached <==> before.cached is Some && before.cached->0.path@
            == before.entries@[index as int].path@ && before.cached->0.format == before.format
            && before.cached->0.quality == before.quality && before.cached->0.max_edge
            == before.max_edge,
        out is Cached <==> after.compare->0.progress is Ready,
        !(out is Cached) ==> out is Build,
        after.selected == before.selected && after.visible == before.visible,
{
}

/// Extending a selection takes in the row the cursor comes to and every row passed on the
/// way from the anchor, and lets go of none.
pub proof fn law_extending_lets_go_of_nothing(
    before: Audit,
    after: Audit,
    delta: int,
    out: Option<Sampling>,
    row: int,
)
    requires
        before.sound(),
        !before.converting,
        is_stepped(before, after, delta, true, out),
        0 <= row < before.visible@.len(),
    ensures
        before.selected@.subset_of(after.selected@),
        before.anchor <= row <= after.cursor || after.cursor <= row <= before.anchor
            ==> after.selected@.contains(before.visible@[row]),
        !before.selected@.contains(before.visible@[row]) && after.selected@.contains(
            before.visible@[row],
        ) ==> before.anchor <= row <= after.cursor || after.cursor <= row <= before.anchor,
{
    law_a_run_takes_both_ends(before.visible@, before.anchor, after.cursor, row);
}

/// Ticking a file changes its own tick and no other.
pub proof fn law_ticking_changes_one_file(selected: Set<usize>, entry: usize, other: usize)
    ensures
        toggled(selected, entry).contains(entry) <==> !selected.contains(entry),
        other != entry ==> (toggled(selected, entry).contains(other) <==> selected.contains(other)),
{
}

/// Ticking everything ticks what the list shows, keeps the ticks there were, and ticks
/// nothing else; putting the ticks down leaves none.
pub proof fn law_everything_shown_is_ticked_and_put_down(
    before: Audit,
    after: Audit,
    out: Option<Sampling>,
    index: usize,
)
    requires
        !before.converting,
    ensures
        is_all_ticked(before, after, out) ==> (after.selected@.contains(index)
            <==> before.selected@.contains(index) || before.visible@.contains(index)),
        is_put_down(before, after, out) ==> !after.selected@.contains(index),
        is_all_ticked(before, after, out) || is_put_down(before, after, out) ==> after.visible
            == before.visible,
{
}

/// Two comparisons show the same just where they are of one file under one choice of
/// container, quality and largest edge.
pub proof fn law_comparisons_are_told_apart(a: Audit, i: int, p: Key, b: Audit, j: int, q: Key)
    requires
        is_key_of(a, i, p),
        is_key_of(b, j, q),
    ensures
        same_key(p, q) <==> a.entries@[i].path@ == b.entries@[j].path@ && a.format == b.format
            && a.quality == b.quality && a.max_edge == b.max_edge,
{
}

/// Ticks stay as they are while a conversion runs.
pub proof fn law_ticks_rest_while_a_conversion_runs(
    before: Audit,
    after: Audit,
    out: Option<Sampling>,
)
    requires
        before.converting,
        is_all_ticked(before, after, out) || is_put_down(before, after, out)
            || is_ticked_at_cursor(before, after, out),
    ensures
        after == before,
        out is None,
{
}

/// A comparison of a file that is not there opens nothing.
pub proof fn law_only_files_there_are_compared(
    before: Audit,
    after: Audit,
    index: usize,
    out: Opening,
)
    requires
        is_opened(before, after, index, out),
    ensures
        index >= before.entries@.len() ==> after == before && out is Nothing,
        index < before.entries@.len() ==> after.compare is Some,
        after.entries == before.entries,
        after.selected == before.selected,
        after.results == before.results,
{
}

/// A decoded thumbnail of the folder that is open is there from then on. At most one other
/// leaves for it, the one that has been there longest, only where there are as many as fit,
/// and that one can be asked for again.
pub proof fn law_the_oldest_thumbnail_makes_room(
    before: Audit,
    after: Audit,
    index: usize,
    dataset_generation: u64,
    out: (bool, Option<usize>),
    other: usize,
)
    requires
        before.sound(),
        is_thumb_landed(before, after, index, dataset_generation, out),
    ensures
        dataset_generation == before.dataset_generation ==> after.thumbs@.contains(index),
        dataset_generation != before.dataset_generation ==> after == before,
        before.thumbs@.contains(other) && !after.thumbs@.contains(other) ==> {
            &&& before.thumb_order@.len() == THUMB_CACHE
            &&& before.thumb_order@[0] == other
            &&& out.1 == Some(other)
            &&& !after.requested@.contains(other)
        },
        after.thumbs@.contains(other) ==> before.thumbs@.contains(other) || other == index,
        out.1 is Some <==> out.0 && before.thumb_order@.len() == THUMB_CACHE,
{
    let line = before.thumb_order@.push(index);
    if before.thumb_order@.len() > 0 {
        assert(before.thumb_order@.contains(before.thumb_order@[0]));
        assert(line[0] == before.thumb_order@[0]);
    }
}

/// A window opens with nothing ticked, converted, searched for or paired, the heaviest file
/// first, under the settings it was launched with; where nothing is to be lost the slider
/// stands where it would without a setting.
pub proof fn law_a_window_opens_afresh(audit: Audit, launch: Launch, readings: Seq<Option<i64>>)
    requires
        is_fresh(audit, launch),
    ensures
        audit.quality == launch.quality,
        audit.format == launch.format,
        audit.max_edge == launch.max_edge,
        launch.quality.0 matches Some(units) ==> audit.slider_quality == units,
        launch.quality.0 is None ==> Some(audit.slider_quality as int) == Some(
            crate::args::asked_from(
                seq![],
                readings,
                0,
                crate::args::unasked(),
            ).quality.0->0 as int,
        ),
        audit.sort.column is Weight,
        audit.sort.descending,
        !audit.converting,
        audit.filter@.len() == 0,
        audit.finding is None,
        forall|k: usize| !#[trigger] audit.selected@.contains(k),
        forall|k: usize| !#[trigger] audit.results@.contains_key(k),
{
}

} // verus!
