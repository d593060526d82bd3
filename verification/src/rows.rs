//! The rows of the list: how two of them compare, and which of them a finding or a
//! search keeps.

use crate::number;
use crate::number::{Number, Precision};
use crate::order;
use crate::order::Ranking;
use crate::scan;
use crate::scan::{format_name, Entry};
use crate::text;
use std::cmp::Ordering;
use vstd::prelude::*;

verus! {

/// A column the list can be ordered by.
#[derive(Clone, Copy, Debug, PartialEq, Eq, Structural)]
pub enum Column {
    Name,
    Format,
    Pixels,
    Density,
    Weight,
}

/// List order. Every column is sortable, and clicking the active one reverses it.
#[derive(Clone, Copy, Debug, PartialEq, Eq, Structural)]
pub struct Sort {
    pub column: Column,
    pub descending: bool,
}

/// The small letters of a text, as `str::to_lowercase` gives them.
pub uninterp spec fn lowered(value: Seq<char>) -> Seq<char>;

/// `str::to_lowercase` gives the lowercase equivalent of a text by the Unicode
/// tables: the same text every time.
#[verifier::external_body]
pub(crate) fn lowercase(value: &str) -> (out: String)
    ensures
        out@ == lowered(value@),
{
    value.to_lowercase()
}

/// How two whole numbers compare: negative, zero or positive.
pub open spec fn whole_sign(a: int, b: int) -> int {
    if a < b {
        -1
    } else if a == b {
        0
    } else {
        1
    }
}

/// How two texts compare, character by character: negative, zero or positive.
pub open spec fn text_sign(a: Seq<char>, b: Seq<char>) -> int
    decreases a.len(),
{
    if a.len() == 0 || b.len() == 0 {
        whole_sign(a.len() as int, b.len() as int)
    } else if a[0] != b[0] {
        whole_sign(a[0] as int, b[0] as int)
    } else {
        text_sign(a.drop_first(), b.drop_first())
    }
}

/// How two numbers compare: negative, zero or positive.
pub open spec fn number_sign(a: (nat, int), b: (nat, int)) -> int {
    if number::below(a, b) {
        -1
    } else if number::below(b, a) {
        1
    } else {
        0
    }
}

/// How two entries compare in one column, ascending.
pub open spec fn column_sign(a: Entry, b: Entry, column: Column) -> int {
    match column {
        Column::Name => text_sign(
            lowered(scan::title(a.path@)),
            lowered(scan::title(b.path@)),
        ),
        Column::Format => text_sign(scan::short_name(a.format), scan::short_name(b.format)),
        Column::Pixels => whole_sign(scan::area(a) as int, scan::area(b) as int),
        Column::Density => number_sign(scan::density(a), scan::density(b)),
        Column::Weight => whole_sign(a.bytes as int, b.bytes as int),
    }
}

/// How two entries compare: by the column, then by their names.
pub open spec fn entry_sign(a: Entry, b: Entry, sort: Sort) -> int {
    let column = column_sign(a, b, sort.column);
    let ascending = if column != 0 {
        column
    } else {
        text_sign(scan::title(a.path@), scan::title(b.path@))
    };
    if sort.descending {
        -ascending
    } else {
        ascending
    }
}

/// `x` comes before `y` in the list: by the order, then as they were found.
pub open spec fn row_before(entries: Seq<Entry>, sort: Sort, x: int, y: int) -> bool {
    let sign = entry_sign(entries[x], entries[y], sort);
    sign < 0 || (sign == 0 && x < y)
}

/// The sign of a comparison, as an ordering.
pub open spec fn is_ordering(sign: int, ordering: Ordering) -> bool {
    match ordering {
        Ordering::Less => sign < 0,
        Ordering::Equal => sign == 0,
        Ordering::Greater => sign > 0,
    }
}

/// Comparing two texts and comparing them the other way round agree, and only equal
/// texts compare equal.
proof fn lemma_text_sign_flips(a: Seq<char>, b: Seq<char>)
    ensures
        text_sign(a, b) == -text_sign(b, a),
        text_sign(a, b) == 0 <==> a == b,
        -1 <= text_sign(a, b) <= 1,
    decreases a.len(),
{
    if a.len() > 0 && b.len() > 0 && a[0] == b[0] {
        lemma_text_sign_flips(a.drop_first(), b.drop_first());
        assert(a =~= seq![a[0]] + a.drop_first());
        assert(b =~= seq![b[0]] + b.drop_first());
    } else if a.len() == 0 && b.len() == 0 {
        assert(a =~= b);
    }
}

/// Comparing texts is transitive.
proof fn lemma_text_sign_chains(a: Seq<char>, b: Seq<char>, c: Seq<char>)
    requires
        text_sign(a, b) <= 0,
        text_sign(b, c) <= 0,
    ensures
        text_sign(a, c) <= 0,
        text_sign(a, b) < 0 || text_sign(b, c) < 0 ==> text_sign(a, c) < 0,
    decreases a.len(),
{
    if a.len() > 0 && b.len() > 0 && c.len() > 0 && a[0] == b[0] && b[0] == c[0] {
        lemma_text_sign_chains(a.drop_first(), b.drop_first(), c.drop_first());
    }
}

/// What one entry is ordered by: the column's value as text, whole number or ratio,
/// with the kinds it has none of left empty, and the name.
struct Key {
    text: Vec<char>,
    whole: u64,
    ratio: Number,
    name: Vec<char>,
}

/// How two ratios compare, by where they stand.
spec fn ratio_sign(a: Number, b: Number) -> int {
    if number::stands_below(a, b) {
        -1
    } else if number::stands_below(b, a) {
        1
    } else {
        0
    }
}

/// How two keys compare, ascending.
spec fn key_sign(a: Key, b: Key) -> int {
    if text_sign(a.text@, b.text@) != 0 {
        text_sign(a.text@, b.text@)
    } else if whole_sign(a.whole as int, b.whole as int) != 0 {
        whole_sign(a.whole as int, b.whole as int)
    } else if ratio_sign(a.ratio, b.ratio) != 0 {
        ratio_sign(a.ratio, b.ratio)
    } else {
        text_sign(a.name@, b.name@)
    }
}

/// The key holds what `column` and the name say of the entry.
spec fn keyed(key: Key, entry: Entry, column: Column) -> bool {
    &&& key.name@ == scan::title(entry.path@)
    &&& key.ratio.fills(Precision::Single)
    &&& match column {
        Column::Name => key.text@ == lowered(scan::title(entry.path@)),
        Column::Format => key.text@ == scan::short_name(entry.format),
        _ => key.text@.len() == 0,
    }
    &&& match column {
        Column::Pixels => key.whole == scan::area(entry),
        Column::Weight => key.whole == entry.bytes,
        _ => key.whole == 0,
    }
    &&& match column {
        Column::Density => key.ratio.parts() == scan::density(entry),
        _ => key.ratio.parts() == (0nat, 0int),
    }
}

proof fn lemma_key_sign_flips(a: Key, b: Key)
    ensures
        key_sign(a, b) == -key_sign(b, a),
        -1 <= key_sign(a, b) <= 1,
{
    lemma_text_sign_flips(a.text@, b.text@);
    lemma_text_sign_flips(a.name@, b.name@);
}

proof fn lemma_key_sign_chains(a: Key, b: Key, c: Key)
    requires
        key_sign(a, b) <= 0,
        key_sign(b, c) <= 0,
    ensures
        key_sign(a, c) <= 0,
        key_sign(a, b) < 0 || key_sign(b, c) < 0 ==> key_sign(a, c) < 0,
{
    lemma_text_sign_flips(a.text@, b.text@);
    lemma_text_sign_flips(b.text@, c.text@);
    lemma_text_sign_chains(a.text@, b.text@, c.text@);
    if text_sign(a.name@, b.name@) <= 0 && text_sign(b.name@, c.name@) <= 0 {
        lemma_text_sign_chains(a.name@, b.name@, c.name@);
    }
}

/// Keys compare as their entries do.
proof fn lemma_keys_stand_for_entries(a: Key, b: Key, x: Entry, y: Entry, column: Column)
    requires
        keyed(a, x, column),
        keyed(b, y, column),
    ensures
        key_sign(a, b) == entry_sign(x, y, (Sort { column, descending: false })),
{
    lemma_text_sign_flips(a.text@, b.text@);
    number::lemma_stands_below(a.ratio, b.ratio, Precision::Single);
    number::lemma_stands_below(b.ratio, a.ratio, Precision::Single);
    if a.text@.len() == 0 && b.text@.len() == 0 {
        assert(a.text@ =~= b.text@);
    }
}

/// The scalar value of a character.
fn code_of(c: char) -> (out: u32)
    ensures
        out as int == c as int,
{
    c as u32
}

/// How two texts compare.
fn text_sign_of(a: &Vec<char>, b: &Vec<char>) -> (out: i8)
    ensures
        out == text_sign(a@, b@),
{
    let mut i: usize = 0;
    assert(a@.skip(0) =~= a@ && b@.skip(0) =~= b@);
    while i < a.len() && i < b.len()
        invariant
            i <= a@.len(),
            i <= b@.len(),
            text_sign(a@, b@) == text_sign(a@.skip(i as int), b@.skip(i as int)),
        decreases a@.len() - i,
    {
        let (x, y) = (code_of(a[i]), code_of(b[i]));
        assert(a@.skip(i as int)[0] == a@[i as int] && b@.skip(i as int)[0] == b@[i as int]);
        if x < y {
            return -1;
        }
        if x > y {
            return 1;
        }
        assert(a@.skip(i as int).drop_first() =~= a@.skip(i + 1));
        assert(b@.skip(i as int).drop_first() =~= b@.skip(i + 1));
        i += 1;
    }
    if a.len() < b.len() {
        -1
    } else if a.len() == b.len() {
        0
    } else {
        1
    }
}

/// How two keys compare, ascending.
fn key_sign_of(a: &Key, b: &Key) -> (out: i8)
    ensures
        out == key_sign(*a, *b),
        -1 <= out <= 1,
{
    proof {
        lemma_key_sign_flips(*a, *b);
    }
    let by_text = text_sign_of(&a.text, &b.text);
    if by_text != 0 {
        return by_text;
    }
    if a.whole < b.whole {
        return -1;
    }
    if a.whole > b.whole {
        return 1;
    }
    if number::less(a.ratio, b.ratio) {
        return -1;
    }
    if number::less(b.ratio, a.ratio) {
        return 1;
    }
    text_sign_of(&a.name, &b.name)
}

/// What `entry` is ordered by in `column`.
fn key_of(entry: &Entry, column: Column) -> (out: Key)
    ensures
        keyed(out, *entry, column),
{
    let name = entry.name();
    let zero = Number { significand: 0, exponent: 0 };
    let nothing: Vec<char> = Vec::new();
    let chars = text::chars_of(name.as_str());
    match column {
        Column::Name => Key {
            text: text::chars_of(lowercase(name.as_str()).as_str()),
            whole: 0,
            ratio: zero,
            name: chars,
        },
        Column::Format => Key {
            text: text::chars_of(format_name(entry.format)),
            whole: 0,
            ratio: zero,
            name: chars,
        },
        Column::Pixels => Key { text: nothing, whole: entry.pixels(), ratio: zero, name: chars },
        Column::Density => Key {
            text: nothing,
            whole: 0,
            ratio: entry.bytes_per_pixel(),
            name: chars,
        },
        Column::Weight => Key { text: nothing, whole: entry.bytes, ratio: zero, name: chars },
    }
}

/// How two entries compare. Ties fall back to the filename so the order is stable
/// between runs: a list that reshuffles itself is worse than one sorted badly.
pub fn compare_entries(a: &Entry, b: &Entry, sort: Sort) -> (out: Ordering)
    ensures
        is_ordering(entry_sign(*a, *b, sort), out),
{
    let left = key_of(a, sort.column);
    let right = key_of(b, sort.column);
    proof {
        lemma_keys_stand_for_entries(left, right, *a, *b, sort.column);
    }
    let sign = key_sign_of(&left, &right);
    if sign == 0 {
        Ordering::Equal
    } else if (sign < 0) != sort.descending {
        Ordering::Less
    } else {
        Ordering::Greater
    }
}

/// Rows by their keys.
struct ByKey {
    keys: Vec<Key>,
    descending: bool,
}

impl ByKey {
    spec fn sign(&self, x: int, y: int) -> int {
        let sign = key_sign(self.keys@[x], self.keys@[y]);
        if self.descending {
            -sign
        } else {
            sign
        }
    }
}

impl Ranking for ByKey {
    closed spec fn count(&self) -> nat {
        self.keys@.len()
    }

    closed spec fn before(&self, x: int, y: int) -> bool {
        self.sign(x, y) < 0 || (self.sign(x, y) == 0 && x < y)
    }

    proof fn irreflexive(&self, x: int) {
        lemma_key_sign_flips(self.keys@[x], self.keys@[x]);
    }

    proof fn total(&self, x: int, y: int) {
        lemma_key_sign_flips(self.keys@[x], self.keys@[y]);
    }

    proof fn transitive(&self, x: int, y: int, z: int) {
        let (a, b, c) = (self.keys@[x], self.keys@[y], self.keys@[z]);
        lemma_key_sign_flips(a, b);
        lemma_key_sign_flips(b, c);
        lemma_key_sign_flips(a, c);
        if self.descending {
            lemma_key_sign_chains(c, b, a);
        } else {
            lemma_key_sign_chains(a, b, c);
        }
    }

    fn precedes(&self, x: usize, y: usize) -> (out: bool) {
        let sign = key_sign_of(&self.keys[x], &self.keys[y]);
        if sign == 0 {
            x < y
        } else {
            (sign < 0) != self.descending
        }
    }
}

/// `rows` lists just the numbers in `kept`, each once, and each before all that
/// follow it in the order of `sort`.
pub open spec fn is_arranged(
    entries: Seq<Entry>,
    sort: Sort,
    kept: Seq<usize>,
    rows: Seq<usize>,
) -> bool {
    &&& rows.no_duplicates()
    &&& order::same_items(rows, kept)
    &&& forall|i: int, j: int|
        0 <= i < j < rows.len() ==> row_before(
            entries,
            sort,
            (#[trigger] rows[i]) as int,
            (#[trigger] rows[j]) as int,
        )
}

/// `kept` in the order of `sort`.
pub fn arrange(entries: &Vec<Entry>, sort: Sort, kept: Vec<usize>) -> (out: Vec<usize>)
    requires
        kept@.no_duplicates(),
        forall|i: int| 0 <= i < kept@.len() ==> (#[trigger] kept@[i]) < entries@.len(),
    ensures
        is_arranged(entries@, sort, kept@, out@),
        forall|i: int| 0 <= i < out@.len() ==> (#[trigger] out@[i]) < entries@.len(),
{
    let mut keys: Vec<Key> = Vec::new();
    let mut i: usize = 0;
    while i < entries.len()
        invariant
            i <= entries@.len(),
            keys@.len() == i,
            forall|j: int| 0 <= j < i ==> keyed(#[trigger] keys@[j], entries@[j], sort.column),
        decreases entries@.len() - i,
    {
        keys.push(key_of(&entries[i], sort.column));
        i += 1;
    }
    let ranking = ByKey { keys, descending: sort.descending };
    let ghost items = kept@;
    let out = order::sorted(&ranking, kept);
    proof {
        order::lemma_order_keeps_ranked(&ranking, items, out@);
        assert forall|a: int, b: int| 0 <= a < b < out@.len() implies row_before(
            entries@,
            sort,
            (#[trigger] out@[a]) as int,
            (#[trigger] out@[b]) as int,
        ) by {
            let (x, y) = (out@[a] as int, out@[b] as int);
            assert(ranking.before(x, y));
            lemma_keys_stand_for_entries(
                ranking.keys@[x],
                ranking.keys@[y],
                entries@[x],
                entries@[y],
                sort.column,
            );
        }
    }
    out
}

/// What the audit found, as something the list can be narrowed to.
#[derive(Clone, Copy, Debug, PartialEq, Eq, Structural)]
pub enum Finding {
    /// The extension disagrees with the bytes inside the file.
    Mislabelled,
    /// More bytes per pixel than a photograph needs. These are the files a conversion
    /// is actually for.
    Heavy,
}

/// Half a byte per pixel, in single precision.
pub open spec fn density_good() -> (nat, int) {
    (0x80_0000, -24)
}

/// One and a half bytes per pixel, in single precision.
pub open spec fn density_heavy() -> (nat, int) {
    (0xc0_0000, -23)
}

/// The finding is true of the entry.
pub open spec fn is_found(finding: Finding, entry: Entry) -> bool {
    match finding {
        Finding::Mislabelled => scan::mislabelled(entry),
        Finding::Heavy => number::below(density_heavy(), scan::density(entry)),
    }
}

/// Whether `density` lies above half a byte per pixel, or above one and a half.
fn above_mark(density: Number, heavy: bool) -> (out: bool)
    requires
        density.fills(Precision::Single),
    ensures
        out == number::below(
            if heavy {
                density_heavy()
            } else {
                density_good()
            },
            density.parts(),
        ),
{
    let mark = if heavy {
        Number { significand: 0xc0_0000, exponent: -23 }
    } else {
        Number { significand: 0x80_0000, exponent: -24 }
    };
    proof {
        number::lemma_stands_below(mark, density, Precision::Single);
    }
    number::less(mark, density)
}

impl Finding {
    /// Whether the finding is true of the entry.
    pub fn holds(self, entry: &Entry) -> (out: bool)
        ensures
            out == is_found(self, *entry),
    {
        match self {
            Finding::Mislabelled => entry.extension_lies(),
            Finding::Heavy => above_mark(entry.bytes_per_pixel(), true),
        }
    }
}

/// Which band a file's byte density falls in: carrying its weight, suspicious, or a
/// screenshot saved as a PNG.
#[derive(Clone, Copy, Debug, PartialEq, Eq, Structural)]
pub enum Band {
    Good,
    Suspicious,
    Heavy,
}

/// The band of a density.
pub open spec fn band_of(density: (nat, int)) -> Band {
    if !number::below(density_good(), density) {
        Band::Good
    } else if !number::below(density_heavy(), density) {
        Band::Suspicious
    } else {
        Band::Heavy
    }
}

/// The band of an entry's density.
pub fn band(entry: &Entry) -> (out: Band)
    ensures
        out == band_of(scan::density(*entry)),
{
    let density = entry.bytes_per_pixel();
    if !above_mark(density, false) {
        Band::Good
    } else if !above_mark(density, true) {
        Band::Suspicious
    } else {
        Band::Heavy
    }
}

/// The entry's name holds what is searched for, in any mix of capitals, and the
/// finding is true of it.
pub open spec fn is_shown(entry: Entry, filter: Seq<char>, finding: Option<Finding>) -> bool {
    &&& lowered(filter).len() == 0 || text::holds_run(
        lowered(scan::title(entry.path@)),
        lowered(filter),
    )
    &&& finding matches Some(finding) ==> is_found(finding, entry)
}

/// `rows` lists just the entries that are shown, each once, in order.
pub open spec fn is_view(
    entries: Seq<Entry>,
    filter: Seq<char>,
    finding: Option<Finding>,
    sort: Sort,
    rows: Seq<usize>,
) -> bool {
    &&& rows.no_duplicates()
    &&& forall|k: usize| #[trigger]
        rows.contains(k) <==> k < entries.len() && is_shown(entries[k as int], filter, finding)
    &&& forall|i: int, j: int|
        0 <= i < j < rows.len() ==> row_before(
            entries,
            sort,
            (#[trigger] rows[i]) as int,
            (#[trigger] rows[j]) as int,
        )
}

/// The rows to show: the entries whose names hold what is searched for and of which
/// the finding is true, in order.
pub fn view(
    entries: &Vec<Entry>,
    filter: &str,
    finding: Option<Finding>,
    sort: Sort,
) -> (out: Vec<usize>)
    ensures
        is_view(entries@, filter@, finding, sort, out@),
{
    let needle = lowercase(filter);
    let mut kept: Vec<usize> = Vec::new();
    let mut i: usize = 0;
    while i < entries.len()
        invariant
            i <= entries@.len(),
            needle@ == lowered(filter@),
            forall|j: int| 0 <= j < kept@.len() ==> (#[trigger] kept@[j]) < i,
            kept@.no_duplicates(),
            forall|k: usize| #[trigger]
                kept@.contains(k) <==> k < i && is_shown(entries@[k as int], filter@, finding),
        decreases entries@.len() - i,
    {
        let named = needle.as_str().is_empty() || text::contains(
            lowercase(entries[i].name().as_str()).as_str(),
            needle.as_str(),
        );
        let found = match finding {
            Some(finding) => finding.holds(&entries[i]),
            None => true,
        };
        assert((named && found) == is_shown(entries@[i as int], filter@, finding));
        let ghost before = kept@;
        if named && found {
            kept.push(i);
            proof {
                assert forall|k: usize| #[trigger] kept@.contains(k) <==> before.contains(k) || k
                    == i by {
                    if before.contains(k) {
                        let j = choose|j: int| 0 <= j < before.len() && before[j] == k;
                        assert(kept@[j] == k);
                    }
                    assert(kept@[kept@.len() - 1] == i);
                }
            }
        }
        i += 1;
    }
    proof {
        assert forall|j: int| 0 <= j < kept@.len() implies (#[trigger] kept@[j])
            < entries@.len() by {
        }
    }
    let ghost had = kept@;
    let out = arrange(entries, sort, kept);
    assert forall|k: usize| #[trigger] out@.contains(k) <==> k < entries@.len() && is_shown(
        entries@[k as int],
        filter@,
        finding,
    ) by {
        assert(out@.contains(k) <==> had.contains(k));
    }
    out
}

/// Comparing two entries and comparing them the other way round agree.
proof fn lemma_entry_sign_flips(a: Entry, b: Entry, sort: Sort)
    ensures
        entry_sign(a, b, sort) == -entry_sign(b, a, sort),
{
    lemma_text_sign_flips(lowered(scan::title(a.path@)), lowered(scan::title(b.path@)));
    lemma_text_sign_flips(scan::short_name(a.format), scan::short_name(b.format));
    lemma_text_sign_flips(scan::title(a.path@), scan::title(b.path@));
}

/// Two lists of the same rows, both in order, are the same list.
proof fn lemma_one_order(entries: Seq<Entry>, sort: Sort, a: Seq<usize>, b: Seq<usize>)
    requires
        a.no_duplicates(),
        b.no_duplicates(),
        forall|k: usize| #[trigger] a.contains(k) <==> b.contains(k),
        forall|i: int, j: int|
            0 <= i < j < a.len() ==> row_before(
                entries,
                sort,
                (#[trigger] a[i]) as int,
                (#[trigger] a[j]) as int,
            ),
        forall|i: int, j: int|
            0 <= i < j < b.len() ==> row_before(
                entries,
                sort,
                (#[trigger] b[i]) as int,
                (#[trigger] b[j]) as int,
            ),
    ensures
        a == b,
    decreases a.len(),
{
    if a.len() == 0 {
        if b.len() > 0 {
            assert(b.contains(b[0]));
            assert(a.contains(b[0]));
        }
        assert(a =~= b);
        return;
    }
    assert(a.contains(a[0]));
    assert(b.contains(a[0]));
    let j = choose|j: int| 0 <= j < b.len() && b[j] == a[0];
    assert(b.contains(b[0]));
    assert(a.contains(b[0]));
    let i = choose|i: int| 0 <= i < a.len() && a[i] == b[0];
    assert(i == 0 && j == 0) by {
        if j > 0 && i > 0 {
            lemma_entry_sign_flips(entries[a[0] as int], entries[b[0] as int], sort);
            assert(row_before(entries, sort, b[0] as int, b[j] as int));
            assert(row_before(entries, sort, a[0] as int, a[i] as int));
        }
    }
    let (x, y) = (a.drop_first(), b.drop_first());
    assert forall|k: usize| #[trigger] x.contains(k) <==> y.contains(k) by {
        if x.contains(k) {
            let n = choose|n: int| 0 <= n < x.len() && x[n] == k;
            assert(a[n + 1] == k);
            assert(a.contains(k));
            let m = choose|m: int| 0 <= m < b.len() && b[m] == k;
            assert(m > 0) by {
                if m == 0 {
                    assert(a[0] == a[n + 1]);
                }
            }
            assert(y[m - 1] == k);
        }
        if y.contains(k) {
            let n = choose|n: int| 0 <= n < y.len() && y[n] == k;
            assert(b[n + 1] == k);
            assert(b.contains(k));
            assert(a.contains(k));
            let m = choose|m: int| 0 <= m < a.len() && a[m] == k;
            assert(m > 0) by {
                if m == 0 {
                    assert(b[0] == b[n + 1]);
                }
            }
            assert(x[m - 1] == k);
        }
    }
    lemma_one_order(entries, sort, x, y);
    assert(a =~= seq![a[0]] + x);
    assert(b =~= seq![b[0]] + y);
}

/// What the list shows depends on nothing but the files, the filter, the finding and the
/// order: going back to the same four puts the same list back.
pub proof fn law_one_view(
    entries: Seq<Entry>,
    filter: Seq<char>,
    finding: Option<Finding>,
    sort: Sort,
    a: Seq<usize>,
    b: Seq<usize>,
)
    requires
        is_view(entries, filter, finding, sort, a),
        is_view(entries, filter, finding, sort, b),
    ensures
        a == b,
{
    lemma_one_order(entries, sort, a, b);
}

/// Comparing two entries in a column and the other way round agree, and comparing is
/// transitive.
proof fn lemma_column_sign(a: Entry, b: Entry, c: Entry, column: Column)
    ensures
        column_sign(a, b, column) == -column_sign(b, a, column),
        column_sign(a, b, column) <= 0 && column_sign(b, c, column) <= 0 ==> {
            &&& column_sign(a, c, column) <= 0
            &&& column_sign(a, b, column) < 0 || column_sign(b, c, column) < 0 ==> column_sign(
                a,
                c,
                column,
            ) < 0
        },
{
    match column {
        Column::Name | Column::Format => {
            let (x, y, z) = if column is Name {
                (
                    lowered(scan::title(a.path@)),
                    lowered(scan::title(b.path@)),
                    lowered(scan::title(c.path@)),
                )
            } else {
                (
                    scan::short_name(a.format),
                    scan::short_name(b.format),
                    scan::short_name(c.format),
                )
            };
            lemma_text_sign_flips(x, y);
            if text_sign(x, y) <= 0 && text_sign(y, z) <= 0 {
                lemma_text_sign_chains(x, y, z);
            }
        },
        Column::Density => {
            let (x, y, z) = (scan::density(a), scan::density(b), scan::density(c));
            number::lemma_below_is_an_order(x, y, z);
            number::lemma_below_is_an_order(y, x, z);
        },
        _ => {},
    }
}

/// The order of the list is one: no two entries come before each other, of two that
/// differ in the column or the name one does, and what comes before comes before all that
/// follows.
pub proof fn law_rows_are_in_one_order(a: Entry, b: Entry, c: Entry, sort: Sort)
    ensures
        entry_sign(a, b, sort) == -entry_sign(b, a, sort),
        entry_sign(a, b, sort) <= 0 && entry_sign(b, c, sort) <= 0 ==> entry_sign(a, c, sort) <= 0,
        entry_sign(a, b, sort) == 0 <==> column_sign(a, b, sort.column) == 0 && scan::title(a.path@)
            == scan::title(b.path@),
{
    lemma_column_sign(a, b, c, sort.column);
    lemma_column_sign(b, a, c, sort.column);
    lemma_column_sign(c, b, a, sort.column);
    let (x, y, z) = (scan::title(a.path@), scan::title(b.path@), scan::title(c.path@));
    lemma_text_sign_flips(x, y);
    lemma_text_sign_flips(y, z);
    lemma_text_sign_flips(x, z);
    if text_sign(x, y) <= 0 && text_sign(y, z) <= 0 {
        lemma_text_sign_chains(x, y, z);
    }
    if text_sign(z, y) <= 0 && text_sign(y, x) <= 0 {
        lemma_text_sign_chains(z, y, x);
    }
}

/// The density column goes by bytes per pixel: of two files, one with no more bytes on no
/// fewer pixels never compares greater; it compares less wherever the densities differ, and
/// they do where it has at most half the bytes or at least twice the pixels. A file without
/// pixels compares less than one with bytes on them. Descending is the other way round.
pub proof fn law_denser_files_compare_greater(a: Entry, b: Entry)
    requires
        a.bytes <= b.bytes,
        0 < b.width * b.height,
        b.width * b.height <= a.width * a.height || a.width * a.height == 0,
    ensures
        ({
            let ascending = entry_sign(a, b, (Sort { column: Column::Density, descending: false }));
            let descending = entry_sign(a, b, (Sort { column: Column::Density, descending: true }));
            let differ = scan::density(a) != scan::density(b);
            let far = {
                ||| 2 * a.bytes <= b.bytes
                ||| 2 * (b.width * b.height) <= a.width * a.height
                ||| a.width * a.height == 0
            };
            &&& differ ==> ascending < 0 < descending
            &&& b.bytes > 0 && far ==> differ
        }),
{
    let (x, y) = (scan::density(a), scan::density(b));
    if scan::area(a) > 0 {
        number::law_ratios_go_with_their_counts(
            a.bytes as nat,
            scan::area(a),
            b.bytes as nat,
            scan::area(b),
            Precision::Single,
        );
    } else {
        number::law_ratios_go_with_their_counts(
            0,
            scan::area(b),
            b.bytes as nat,
            scan::area(b),
            Precision::Single,
        );
    }
    number::lemma_below_is_an_order(x, y, x);
}

/// `a` comes before `b` in a dictionary of characters: they are the same up to some point,
/// where `a` ends and `b` does not, or has the lower character.
pub open spec fn reads_before(a: Seq<char>, b: Seq<char>) -> bool {
    exists|n: int|
        {
            &&& 0 <= n <= a.len()
            &&& n < b.len()
            &&& #[trigger] a.take(n) == b.take(n)
            &&& n < a.len() ==> (a[n] as int) < b[n] as int
        }
}

proof fn lemma_text_sign_reads(a: Seq<char>, b: Seq<char>)
    ensures
        text_sign(a, b) < 0 <==> reads_before(a, b),
    decreases a.len(),
{
    if a.len() > 0 && b.len() > 0 && a[0] == b[0] {
        let (x, y) = (a.drop_first(), b.drop_first());
        lemma_text_sign_reads(x, y);
        if reads_before(x, y) {
            let n = choose|n: int|
                {
                    &&& 0 <= n <= x.len()
                    &&& n < y.len()
                    &&& #[trigger] x.take(n) == y.take(n)
                    &&& n < x.len() ==> (x[n] as int) < y[n] as int
                };
            assert forall|i: int| 0 <= i < n + 1 implies a[i] == b[i] by {
                if i > 0 {
                    assert(x.take(n)[i - 1] == y.take(n)[i - 1]);
                }
            }
            assert(a.take(n + 1) =~= b.take(n + 1));
        }
        if reads_before(a, b) {
            let n = choose|n: int|
                {
                    &&& 0 <= n <= a.len()
                    &&& n < b.len()
                    &&& #[trigger] a.take(n) == b.take(n)
                    &&& n < a.len() ==> (a[n] as int) < b[n] as int
                };
            assert(n > 0);
            assert forall|i: int| 0 <= i < n - 1 implies x[i] == y[i] by {
                assert(a.take(n)[i + 1] == b.take(n)[i + 1]);
            }
            assert(x.take(n - 1) =~= y.take(n - 1));
        }
    } else {
        if reads_before(a, b) {
            let n = choose|n: int|
                {
                    &&& 0 <= n <= a.len()
                    &&& n < b.len()
                    &&& #[trigger] a.take(n) == b.take(n)
                    &&& n < a.len() ==> (a[n] as int) < b[n] as int
                };
            if n > 0 {
                assert(a.take(n)[0] == b.take(n)[0]);
            }
        }
        assert(a.take(0) =~= b.take(0));
    }
}

/// The list is in the order its heading says: by weight, by pixels, and by name and format
/// in the order of a dictionary, names without regard to capitals; ascending the least
/// first, descending the most. Where two are level, their names decide, the same way round,
/// and of two with one name the one found first comes first.
pub proof fn law_the_list_is_in_the_order_asked_for(
    entries: Seq<Entry>,
    filter: Seq<char>,
    finding: Option<Finding>,
    sort: Sort,
    rows: Seq<usize>,
    i: int,
    j: int,
)
    requires
        is_view(entries, filter, finding, sort, rows),
        0 <= i < j < rows.len(),
    ensures
        ({
            let (first, second) = (entries[rows[i] as int], entries[rows[j] as int]);
            let (less, more) = if sort.descending {
                (second, first)
            } else {
                (first, second)
            };
            let level = match sort.column {
                Column::Weight => less.bytes == more.bytes,
                Column::Pixels => less.width * less.height == more.width * more.height,
                Column::Density => scan::density(less) == scan::density(more),
                Column::Name => lowered(scan::title(less.path@)) == lowered(scan::title(more.path@)),
                Column::Format => scan::short_name(less.format) == scan::short_name(more.format),
            };
            &&& match sort.column {
                Column::Weight => less.bytes <= more.bytes,
                Column::Pixels => less.width * less.height <= more.width * more.height,
                Column::Density => !(more.bytes <= less.bytes && more.width * more.height
                    >= less.width * less.height > 0 && !level),
                Column::Name => !reads_before(
                    lowered(scan::title(more.path@)),
                    lowered(scan::title(less.path@)),
                ),
                Column::Format => !reads_before(
                    scan::short_name(more.format),
                    scan::short_name(less.format),
                ),
            }
            &&& level ==> !reads_before(scan::title(more.path@), scan::title(less.path@))
            &&& level && scan::title(more.path@) == scan::title(less.path@) ==> rows[i] < rows[j]
        }),
{
    let (first, second) = (entries[rows[i] as int], entries[rows[j] as int]);
    let (less, more) = if sort.descending {
        (second, first)
    } else {
        (first, second)
    };
    assert(row_before(entries, sort, rows[i] as int, rows[j] as int));
    lemma_entry_sign_flips(first, second, sort);
    let (a, b) = (scan::title(less.path@), scan::title(more.path@));
    lemma_text_sign_reads(b, a);
    lemma_text_sign_flips(a, b);
    lemma_text_sign_reads(lowered(b), lowered(a));
    lemma_text_sign_flips(lowered(a), lowered(b));
    let (x, y) = (scan::short_name(less.format), scan::short_name(more.format));
    lemma_text_sign_reads(y, x);
    lemma_text_sign_flips(x, y);
    if sort.column == Column::Density {
        let (u, v) = (scan::density(less), scan::density(more));
        number::lemma_below_is_an_order(u, v, u);
        if more.bytes <= less.bytes && more.width * more.height >= less.width * less.height > 0
            && u != v {
            law_denser_files_compare_greater(more, less);
        }
    }
}

/// The list shows each file whose name holds what is searched for, without regard to
/// capitals, and that the finding is true of: all of them, each once, and no others. With
/// nothing to search for every name will do.
pub proof fn law_the_list_shows_what_is_searched_for(
    entries: Seq<Entry>,
    filter: Seq<char>,
    finding: Option<Finding>,
    sort: Sort,
    rows: Seq<usize>,
    k: usize,
    front: Seq<char>,
    back: Seq<char>,
)
    requires
        is_view(entries, filter, finding, sort, rows),
        k < entries.len(),
    ensures
        rows.no_duplicates(),
        ({
            let name = lowered(scan::title(entries[k as int].path@));
            let found = match finding {
                Some(finding) => is_found(finding, entries[k as int]),
                None => true,
            };
            &&& found && (name == front + lowered(filter) + back || lowered(filter).len() == 0)
                ==> rows.contains(k)
            &&& !found ==> !rows.contains(k)
            &&& rows.contains(k) ==> exists|i: int|
                {
                    &&& 0 <= i <= name.len() - lowered(filter).len()
                    &&& name =~= #[trigger] name.take(i) + lowered(filter) + name.skip(
                        i + lowered(filter).len(),
                    )
                }
        }),
{
    let name = lowered(scan::title(entries[k as int].path@));
    let needle = lowered(filter);
    if name == front + needle + back {
        let i = front.len() as int;
        assert(name.subrange(i, i + needle.len()) =~= needle);
    }
    if rows.contains(k) {
        if needle.len() == 0 {
            assert(name =~= name.take(0) + needle + name.skip(0));
        } else {
            let i = choose|i: int|
                0 <= i <= name.len() - needle.len() && #[trigger] name.subrange(
                    i,
                    i + needle.len(),
                ) == needle;
            assert(name =~= name.take(i) + needle + name.skip(i + needle.len() as int));
        }
    }
}

/// A file is heavy where it takes more than one and a half bytes a pixel, carries its weight
/// where it takes no more than half a byte, and is suspicious in between. On pictures of up
/// to four million pixels and sixteen million bytes the marks are exact; beyond, single
/// precision may blur them, but twice the pixels in bytes is always heavy, as many is never
/// heavy nor light, and a quarter is always light.
pub proof fn law_heavy_is_one_and_a_half_bytes_a_pixel(entry: Entry)
    requires
        entry.width * entry.height > 0,
    ensures
        ({
            let (bytes, pixels) = (entry.bytes as int, entry.width * entry.height);
            let band = band_of(scan::density(entry));
            &&& is_found(Finding::Heavy, entry) <==> band is Heavy
            &&& pixels <= 0x40_0000 && bytes < 0x100_0000 ==> {
                &&& band is Heavy <==> 2 * bytes > 3 * pixels
                &&& band is Good <==> 2 * bytes <= pixels
            }
            &&& bytes >= 2 * pixels ==> band is Heavy
            &&& bytes == pixels ==> band is Suspicious
            &&& bytes <= pixels ==> !(band is Heavy)
            &&& bytes >= pixels ==> !(band is Good)
            &&& 4 * bytes <= pixels ==> band is Good
        }),
{
    let (n, d) = (entry.bytes as nat, scan::area(entry));
    if d <= 0x40_0000 && n < 0x100_0000 {
        number::law_marks_part_exact_ratios(n, d);
    }
    number::law_marks_part_all_ratios(n, d, Precision::Single);
    let density = scan::density(entry);
    let (one, two, quarter) = ((0x80_0000nat, -23int), (0x80_0000nat, -22int), (0x80_0000nat, -25int));
    number::lemma_marks_stand_in_order();
    number::lemma_below_is_an_order(density_heavy(), two, density);
    number::lemma_below_is_an_order(one, density_heavy(), density);
    number::lemma_below_is_an_order(density, one, density_heavy());
    number::lemma_below_is_an_order(density_good(), one, density);
    number::lemma_below_is_an_order(density, quarter, density_good());
    number::lemma_below_is_an_order(density_good(), density_heavy(), density);
}

} // verus!
