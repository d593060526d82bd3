//! The paired remote folder: browsing to it, what it holds, how the local folder
//! stands against it, and the transfer that is running, if any.

use crate::audit;
use crate::paths;
use crate::scan::Entry;
use crate::sirv;
use crate::sirv::{Credentials, Node, SyncState};
use crate::text;
use vstd::hash_map::StringHashMap;
use vstd::hash_set::StringHashSet;
use vstd::prelude::*;

verus! {

/// The files of a remote folder, by the keys local files are known by too.
pub struct RemoteFiles {
    /// The keys, each once, in the order they came up.
    pub order: Vec<String>,
    pub index: StringHashMap<Node>,
}

impl View for RemoteFiles {
    type V = Map<Seq<char>, Node>;

    open spec fn view(&self) -> Map<Seq<char>, Node> {
        self.index@
    }
}

impl RemoteFiles {
    /// The keys listed in order are just those the index knows.
    pub open spec fn agrees(self) -> bool {
        &&& text::views(self.order@).no_duplicates()
        &&& forall|key: Seq<char>| #[trigger]
            text::views(self.order@).contains(key) <==> self@.contains_key(key)
    }
}

/// The files the first `n` of a listing leave below the paired folder, by key; a later
/// file with the same key takes the place of an earlier one.
pub open spec fn keyed(dir: Seq<char>, nodes: Seq<Node>, n: int) -> Map<Seq<char>, Node>
    decreases n,
{
    if n <= 0 {
        Map::empty()
    } else {
        let before = keyed(dir, nodes, n - 1);
        match sirv::unpaired(dir, nodes[n - 1].filename@) {
            Some(key) => before.insert(key, nodes[n - 1]),
            None => before,
        }
    }
}

/// The files of a listing below the paired folder, by key.
pub fn key_files(dir: &str, nodes: &Vec<Node>) -> (out: RemoteFiles)
    ensures
        out@ == keyed(dir@, nodes@, nodes@.len() as int),
        out.agrees(),
{
    let mut order: Vec<String> = Vec::new();
    let mut index: StringHashMap<Node> = StringHashMap::new();
    let mut i: usize = 0;
    assert(index@ =~= Map::empty());
    while i < nodes.len()
        invariant
            i <= nodes@.len(),
            index@ == keyed(dir@, nodes@, i as int),
            text::views(order@).no_duplicates(),
            forall|key: Seq<char>| #[trigger]
                text::views(order@).contains(key) <==> index@.contains_key(key),
        decreases nodes@.len() - i,
    {
        match sirv::unpair_remote(dir, nodes[i].filename.as_str()) {
            Some(key) => {
                let ghost (before, known) = (text::views(order@), index@);
                if !index.contains_key(key.as_str()) {
                    order.push(key.clone());
                    proof {
                        assert(text::views(order@) =~= before.push(key@));
                        assert(!before.contains(key@));
                        lemma_one_more(before, key@);
                    }
                }
                let ghost listed = text::views(order@);
                index.insert(key, nodes[i].clone());
                assert forall|k: Seq<char>| #[trigger] listed.contains(k) <==> index@.contains_key(
                    k,
                ) by {
                    assert(before.contains(k) <==> known.contains_key(k));
                }
            },
            None => {},
        }
        i += 1;
    }
    RemoteFiles { order, index }
}

/// A list with something new at its end holds that, and what it held.
proof fn lemma_one_more(list: Seq<Seq<char>>, item: Seq<char>)
    ensures
        forall|k: Seq<char>| #[trigger]
            list.push(item).contains(k) <==> list.contains(k) || k == item,
        list.no_duplicates() && !list.contains(item) ==> list.push(item).no_duplicates(),
{
    assert forall|k: Seq<char>| #[trigger] list.push(item).contains(k) <==> list.contains(k) || k
        == item by {
        if list.contains(k) {
            let i = choose|i: int| 0 <= i < list.len() && list[i] == k;
            assert(list.push(item)[i] == k);
        }
        assert(list.push(item)[list.len() as int] == item);
        if list.push(item).contains(k) && k != item {
            let i = choose|i: int| 0 <= i < list.push(item).len() && list.push(item)[i] == k;
            assert(list[i] == k);
        }
    }
}

/// How the entry stands against the remote files, where it has a key.
pub open spec fn entry_standing(
    root: Seq<char>,
    entry: Entry,
    files: Map<Seq<char>, Node>,
) -> Option<SyncState> {
    match sirv::key_below(root, entry.path@) {
        Some(key) => Some(
            sirv::standing(
                entry.bytes,
                if files.contains_key(key) {
                    Some(files[key])
                } else {
                    None
                },
            ),
        ),
        None => None,
    }
}

/// How many of the first `n` entries stand so.
pub open spec fn count_standing(
    root: Seq<char>,
    entries: Seq<Entry>,
    files: Map<Seq<char>, Node>,
    wanted: SyncState,
    n: int,
) -> nat
    decreases n,
{
    if n <= 0 {
        0
    } else {
        count_standing(root, entries, files, wanted, n - 1) + if entry_standing(
            root,
            entries[n - 1],
            files,
        ) == Some(wanted) {
            1nat
        } else {
            0nat
        }
    }
}

/// One of the first `n` entries carries this key.
pub open spec fn is_local(root: Seq<char>, entries: Seq<Entry>, n: int, key: Seq<char>) -> bool {
    exists|i: int|
        0 <= i < n && sirv::key_below(root, (#[trigger] entries[i]).path@) == Some(key)
}

/// The remote files that no entry carries the key of.
pub open spec fn only_remote(
    root: Seq<char>,
    entries: Seq<Entry>,
    files: Map<Seq<char>, Node>,
) -> Set<Seq<char>> {
    files.dom().filter(|key: Seq<char>| !is_local(root, entries, entries.len() as int, key))
}

/// The keys the entries carry.
fn local_keys(root: &str, entries: &Vec<Entry>) -> (out: StringHashSet)
    ensures
        forall|key: Seq<char>| #[trigger]
            out@.contains(key) <==> is_local(root@, entries@, entries@.len() as int, key),
{
    let mut out = StringHashSet::new();
    let mut i: usize = 0;
    while i < entries.len()
        invariant
            i <= entries@.len(),
            forall|key: Seq<char>| #[trigger]
                out@.contains(key) <==> is_local(root@, entries@, i as int, key),
        decreases entries@.len() - i,
    {
        let ghost before = out@;
        let key = sirv::relative_key(root, entries[i].path.as_str());
        let ghost added = sirv::key_below(root@, entries@[i as int].path@);
        match key {
            Some(key) => {
                out.insert(key);
            },
            None => {},
        }
        proof {
            assert forall|k: Seq<char>| #[trigger] out@.contains(k) <==> is_local(
                root@,
                entries@,
                i + 1,
                k,
            ) by {
                assert(before.contains(k) <==> is_local(root@, entries@, i as int, k));
                assert(out@.contains(k) <==> before.contains(k) || added == Some(k));
                if is_local(root@, entries@, i as int, k) {
                    let j = choose|j: int|
                        0 <= j < i && sirv::key_below(root@, (#[trigger] entries@[j]).path@)
                            == Some(k);
                    assert(sirv::key_below(root@, entries@[j].path@) == Some(k));
                }
                if added == Some(k) {
                    assert(sirv::key_below(root@, entries@[i as int].path@) == Some(k));
                }
                if is_local(root@, entries@, i + 1, k) {
                    let j = choose|j: int|
                        0 <= j < i + 1 && sirv::key_below(root@, (#[trigger] entries@[j]).path@)
                            == Some(k);
                    if j < i {
                        assert(sirv::key_below(root@, entries@[j].path@) == Some(k));
                    }
                }
            }
        }
        i += 1;
    }
    out
}

/// One of the first `n` files carries this key.
pub open spec fn is_present(root: Seq<char>, present: Seq<String>, n: int, key: Seq<char>) -> bool {
    exists|i: int| 0 <= i < n && sirv::key_below(root, (#[trigger] present[i])@) == Some(key)
}

/// `keys`, and those the files at `present` carry.
fn with_present(keys: StringHashSet, root: &str, present: &Vec<String>) -> (out: StringHashSet)
    ensures
        forall|key: Seq<char>| #[trigger]
            out@.contains(key) <==> keys@.contains(key) || is_present(
                root@,
                present@,
                present@.len() as int,
                key,
            ),
{
    let ghost first = keys@;
    let mut out = keys;
    let mut i: usize = 0;
    while i < present.len()
        invariant
            i <= present@.len(),
            first == keys@,
            forall|key: Seq<char>| #[trigger]
                out@.contains(key) <==> first.contains(key) || is_present(
                    root@,
                    present@,
                    i as int,
                    key,
                ),
        decreases present@.len() - i,
    {
        let ghost before = out@;
        let ghost added = sirv::key_below(root@, present@[i as int]@);
        match sirv::relative_key(root, present[i].as_str()) {
            Some(key) => {
                out.insert(key);
            },
            None => {},
        }
        proof {
            assert forall|k: Seq<char>| #[trigger] out@.contains(k) <==> first.contains(k)
                || is_present(root@, present@, i + 1, k) by {
                assert(before.contains(k) <==> first.contains(k) || is_present(
                    root@,
                    present@,
                    i as int,
                    k,
                ));
                assert(out@.contains(k) <==> before.contains(k) || added == Some(k));
                if is_present(root@, present@, i as int, k) {
                    let j = choose|j: int|
                        0 <= j < i && sirv::key_below(root@, (#[trigger] present@[j])@) == Some(k);
                    assert(sirv::key_below(root@, present@[j]@) == Some(k));
                }
                if added == Some(k) {
                    assert(sirv::key_below(root@, present@[i as int]@) == Some(k));
                }
                if is_present(root@, present@, i + 1, k) {
                    let j = choose|j: int|
                        0 <= j < i + 1 && sirv::key_below(root@, (#[trigger] present@[j])@) == Some(
                            k,
                        );
                    if j < i {
                        assert(sirv::key_below(root@, present@[j]@) == Some(k));
                    }
                }
            }
        }
        i += 1;
    }
    out
}

/// How many of a list's items pass, when none occurs twice, is how many of its set do.
proof fn lemma_filtered_count(list: Seq<Seq<char>>, pass: spec_fn(Seq<char>) -> bool)
    requires
        list.no_duplicates(),
    ensures
        list.to_set().filter(pass).len() == list.filter(pass).len(),
        list.to_set().filter(pass).finite(),
    decreases list.len(),
{
    reveal(Seq::filter);
    if list.len() == 0 {
        assert(list.to_set().filter(pass) =~= Set::empty());
    } else {
        let front = list.drop_last();
        let item = list.last();
        assert(front.no_duplicates());
        lemma_filtered_count(front, pass);
        assert(!front.contains(item)) by {
            if front.contains(item) {
                let i = choose|i: int| 0 <= i < front.len() && front[i] == item;
                assert(list[i] == list[list.len() - 1]);
            }
        }
        assert(list =~= front.push(item));
        lemma_one_more(front, item);
        if pass(item) {
            assert(list.to_set().filter(pass) =~= front.to_set().filter(pass).insert(item)) by {
                assert forall|k: Seq<char>| list.to_set().filter(pass).contains(k)
                    <==> front.to_set().filter(pass).insert(item).contains(k) by {
                    assert(list.contains(k) <==> front.contains(k) || k == item);
                }
            }
        } else {
            assert(list.to_set().filter(pass) =~= front.to_set().filter(pass)) by {
                assert forall|k: Seq<char>| list.to_set().filter(pass).contains(k)
                    <==> front.to_set().filter(pass).contains(k) by {
                    assert(list.contains(k) <==> front.contains(k) || k == item);
                }
            }
        }
    }
}

/// How the local folder stands against the remote one: files to push, files that
/// differ, files to pull.
pub open spec fn is_tally(
    root: Seq<char>,
    entries: Seq<Entry>,
    files: Map<Seq<char>, Node>,
    counts: (usize, usize, usize),
) -> bool {
    let n = entries.len() as int;
    &&& counts.0 == count_standing(root, entries, files, SyncState::OnlyLocal, n)
    &&& counts.1 == count_standing(root, entries, files, SyncState::Changed, n)
    &&& counts.2 == only_remote(root, entries, files).len()
}

/// How the entry stands against the remote files.
pub fn standing_of(root: &str, entry: &Entry, files: &RemoteFiles) -> (out: Option<SyncState>)
    ensures
        out == entry_standing(root@, *entry, files@),
{
    match sirv::relative_key(root, entry.path.as_str()) {
        Some(key) => Some(sirv::classify(entry.bytes, files.index.get(key.as_str()))),
        None => None,
    }
}

/// Count push, differs and pull across the whole dataset, not just the visible rows,
/// so the numbers do not move with the filter. `None` without a remote listing.
pub fn sirv_counts(
    root: &str,
    entries: &Vec<Entry>,
    files: Option<&RemoteFiles>,
) -> (out: Option<(usize, usize, usize)>)
    requires
        files matches Some(files) ==> files.agrees(),
    ensures
        out is Some == files is Some,
        files matches Some(files) ==> is_tally(root@, entries@, files@, out->0),
{
    let files = match files {
        Some(files) => files,
        None => {
            return None;
        },
    };
    let (mut to_push, mut changed): (usize, usize) = (0, 0);
    let mut i: usize = 0;
    while i < entries.len()
        invariant
            i <= entries@.len(),
            to_push == count_standing(root@, entries@, files@, SyncState::OnlyLocal, i as int) <= i,
            changed == count_standing(root@, entries@, files@, SyncState::Changed, i as int) <= i,
        decreases entries@.len() - i,
    {
        match standing_of(root, &entries[i], files) {
            Some(SyncState::OnlyLocal) => {
                to_push += 1;
            },
            Some(SyncState::Changed) => {
                changed += 1;
            },
            _ => {},
        }
        i += 1;
    }
    let local = local_keys(root, entries);
    let ghost order = text::views(files.order@);
    let ghost pass = |key: Seq<char>| !is_local(root@, entries@, entries@.len() as int, key);
    let mut to_pull: usize = 0;
    let mut i: usize = 0;
    proof {
        reveal(Seq::filter);
        assert(order.take(0).filter(pass).len() == 0);
    }
    while i < files.order.len()
        invariant
            i <= files.order@.len(),
            order == text::views(files.order@),
            pass == (|key: Seq<char>| !is_local(root@, entries@, entries@.len() as int, key)),
            forall|key: Seq<char>| #[trigger]
                local@.contains(key) <==> is_local(root@, entries@, entries@.len() as int, key),
            to_pull == order.take(i as int).filter(pass).len() <= i,
        decreases files.order@.len() - i,
    {
        proof {
            reveal(Seq::filter);
            assert(order.take(i + 1).drop_last() =~= order.take(i as int));
            assert(order.take(i + 1).last() == files.order@[i as int]@);
        }
        if !local.contains(files.order[i].as_str()) {
            to_pull += 1;
        }
        i += 1;
    }
    proof {
        assert(order.take(i as int) =~= order);
        lemma_filtered_count(order, pass);
        assert(order.to_set() =~= files@.dom()) by {
            assert forall|k: Seq<char>| order.to_set().contains(k) <==> files@.dom().contains(
                k,
            ) by {
                assert(order.contains(k) <==> files@.contains_key(k));
            }
        }
    }
    Some((to_push, changed, to_pull))
}

/// One file to upload: its key, and which entry it is.
pub struct Upload {
    pub key: String,
    pub index: usize,
}

/// The files to upload among the first `n` entries: those the remote folder lacks, in
/// the order of the scan, by key and index.
pub open spec fn uploads(
    root: Seq<char>,
    entries: Seq<Entry>,
    files: Map<Seq<char>, Node>,
    n: int,
) -> Seq<(Seq<char>, usize)>
    decreases n,
{
    if n <= 0 {
        seq![]
    } else {
        let before = uploads(root, entries, files, n - 1);
        match sirv::key_below(root, entries[n - 1].path@) {
            Some(key) => if !files.contains_key(key) {
                before.push((key, (n - 1) as usize))
            } else {
                before
            },
            None => before,
        }
    }
}

/// Uploads by key and index.
pub open spec fn uploads_view(list: Seq<Upload>) -> Seq<(Seq<char>, usize)> {
    list.map_values(|upload: Upload| (upload.key@, upload.index))
}

/// Local files the remote folder lacks, in the order of the scan: the upload list.
/// Changed files are left alone; overwriting is a decision, not a side effect.
pub fn sirv_push_plan(root: &str, entries: &Vec<Entry>, files: &RemoteFiles) -> (out: Vec<Upload>)
    ensures
        uploads_view(out@) == uploads(root@, entries@, files@, entries@.len() as int),
{
    let mut out: Vec<Upload> = Vec::new();
    let mut i: usize = 0;
    assert(uploads_view(out@) =~= seq![]);
    while i < entries.len()
        invariant
            i <= entries@.len(),
            uploads_view(out@) == uploads(root@, entries@, files@, i as int),
        decreases entries@.len() - i,
    {
        let ghost before = out@;
        match sirv::relative_key(root, entries[i].path.as_str()) {
            Some(key) => {
                let state = sirv::classify(entries[i].bytes, files.index.get(key.as_str()));
                if state == SyncState::OnlyLocal {
                    out.push(Upload { key, index: i });
                    assert(uploads_view(out@) =~= uploads_view(before).push((key@, i)));
                }
            },
            None => {},
        }
        i += 1;
    }
    out
}

/// The remote files in the order of their keys.
pub open spec fn in_order(order: Seq<String>, files: Map<Seq<char>, Node>) -> Seq<Node> {
    order.map_values(|key: String| files[key@])
}

/// Remote keys worth downloading, of a paired folder, where the local one holds the
/// entries and the files at `present`.
pub open spec fn downloads(
    root: Seq<char>,
    entries: Seq<Entry>,
    present: Seq<String>,
    dir: Seq<char>,
    files: RemoteFiles,
    keys: Seq<Seq<char>>,
) -> bool {
    exists|local: Set<Seq<char>>|
        {
            &&& forall|key: Seq<char>| #[trigger]
                local.contains(key) <==> is_local(root, entries, entries.len() as int, key)
                    || is_present(root, present, present.len() as int, key)
            &&& keys == #[trigger] sirv::missing_keys(
                in_order(files.order@, files@),
                dir,
                local,
                files.order@.len() as int,
            )
        }
}

/// Remote keys the local folder lacks: the download list. Existing files are never
/// overwritten, so a pull can never destroy local work. `present` names every file below
/// `root`, the ones that are not listed too.
pub fn sirv_pull_plan(
    root: &str,
    entries: &Vec<Entry>,
    present: &Vec<String>,
    dir: &str,
    files: &RemoteFiles,
) -> (out: Vec<String>)
    requires
        files.agrees(),
    ensures
        downloads(root@, entries@, present@, dir@, *files, text::views(out@)),
{
    let mut remote: Vec<Node> = Vec::new();
    let mut i: usize = 0;
    while i < files.order.len()
        invariant
            i <= files.order@.len(),
            files.agrees(),
            remote@.len() == i,
            forall|j: int|
                0 <= j < i ==> (#[trigger] remote@[j]) == in_order(files.order@, files@)[j],
        decreases files.order@.len() - i,
    {
        let key = files.order[i].as_str();
        assert(text::views(files.order@)[i as int] == key@);
        assert(text::views(files.order@).contains(key@));
        match files.index.get(key) {
            Some(node) => {
                remote.push(node.clone());
            },
            None => {},
        }
        i += 1;
    }
    assert(remote@ =~= in_order(files.order@, files@));
    let local = with_present(local_keys(root, entries), root, present);
    sirv::pull_plan(&remote, dir, &local)
}

/// What the paired folder's remote listing knows. A walk still running and one that
/// failed are different things to say.
pub enum Listing {
    Walking,
    Failed(String),
    Ready(RemoteFiles),
}

/// A paired remote folder.
pub struct Pairing {
    pub dir: String,
    pub files: Listing,
}

/// What a transfer does.
#[derive(Clone, Copy, Debug, PartialEq, Eq, Structural)]
pub enum JobKind {
    Pull,
    Push,
}

/// What a transfer is doing, and how far it got. Failures keep names, because "2
/// failed" is not a report.
#[derive(Debug)]
pub struct Job {
    pub kind: JobKind,
    pub done: usize,
    pub total: usize,
    pub failures: Vec<String>,
    pub finished: bool,
    /// The transfer generation this job belongs to.
    pub generation: u64,
}

/// The remote-folder browser: one path and its listing.
#[derive(Debug)]
pub struct Browser {
    pub path: String,
    /// `None` while the listing is in flight.
    pub nodes: Option<Result<Vec<Node>, String>>,
    /// Bumped per request, so that a listing of a folder already left lands nowhere.
    pub generation: u64,
}

/// Everything about the remote side.
pub struct Remote {
    pub pairing: Option<Pairing>,
    /// Files to push, files that differ, files to pull.
    pub counts: Option<(usize, usize, usize)>,
    /// A running or finished transfer.
    pub job: Option<Job>,
    /// Bumped whenever a running transfer stops being wanted.
    pub generation: u64,
    /// Bumped whenever the pairing is replaced, so that a walk for the old one cannot
    /// fill the new one.
    pub pairing_generation: u64,
    pub browser: Option<Browser>,
}

/// A listing to ask for, and the browser generation it belongs to.
#[derive(Debug)]
pub struct ListRequest {
    pub generation: u64,
    pub path: String,
}

/// A pull to run.
#[derive(Debug)]
pub struct Pull {
    pub generation: u64,
    pub dir: String,
    pub keys: Vec<String>,
}

/// A push to run.
pub struct Push {
    pub generation: u64,
    pub dir: String,
    /// Remote folders to create first, outer ones before inner ones.
    pub folders: Vec<String>,
    pub files: Vec<Upload>,
}

/// A transfer on its way: how many of its files are done, and what went wrong.
#[derive(Debug)]
pub struct Transfer {
    pub kind: JobKind,
    pub generation: u64,
    pub done: usize,
    pub total: usize,
    pub failures: Vec<String>,
}

/// What a transfer does next.
#[derive(Clone, Copy, Debug, PartialEq, Eq, Structural)]
pub enum Next {
    /// Move the file at this position of its list.
    Move(usize),
    /// Nobody wants it any more.
    Stop,
    /// Nothing is left to move.
    Finish,
}

/// What a transfer does next where `generation` is the one that is wanted.
pub open spec fn next_of(generation: u64, transfer: Transfer) -> Next {
    if transfer.done >= transfer.total {
        Next::Finish
    } else if generation != transfer.generation {
        Next::Stop
    } else {
        Next::Move(transfer.done)
    }
}

/// A transfer of `total` files that has moved none of them.
pub open spec fn is_begun(transfer: Transfer, kind: JobKind, generation: u64, total: nat) -> bool {
    &&& transfer.kind == kind
    &&& transfer.generation == generation
    &&& transfer.done == 0
    &&& transfer.total == total
    &&& transfer.failures@.len() == 0
}

impl Pull {
    /// The transfer this pull begins as.
    pub fn begin(&self) -> (out: Transfer)
        ensures
            is_begun(out, JobKind::Pull, self.generation, self.keys@.len()),
    {
        Transfer {
            kind: JobKind::Pull,
            generation: self.generation,
            done: 0,
            total: self.keys.len(),
            failures: Vec::new(),
        }
    }
}

impl Push {
    /// The transfer this push begins as.
    pub fn begin(&self) -> (out: Transfer)
        ensures
            is_begun(out, JobKind::Push, self.generation, self.files@.len()),
    {
        Transfer {
            kind: JobKind::Push,
            generation: self.generation,
            done: 0,
            total: self.files.len(),
            failures: Vec::new(),
        }
    }
}

/// What a file that was not moved is reported as: a pull names it, a push says why too.
pub open spec fn blame(kind: JobKind, key: Seq<char>, reason: Seq<char>) -> Seq<char> {
    match kind {
        JobKind::Pull => key,
        JobKind::Push => key + ": "@ + reason,
    }
}

impl Transfer {
    /// A folder the push needs could not be made.
    pub fn folder_failed(&mut self, folder: &str)
        ensures
            *final(self) == (Transfer { failures: final(self).failures, ..*old(self) }),
            text::views(final(self).failures@) == text::views(old(self).failures@).push(
                "could not create folder "@ + folder@,
            ),
    {
        let ghost before = self.failures@;
        self.failures.push(text::glued("could not create folder ", folder));
        assert(text::views(self.failures@) =~= text::views(before).push(
            "could not create folder "@ + folder@,
        ));
    }

    /// The file `key` was moved, or was not.
    pub fn moved(&mut self, key: &str, outcome: Result<(), String>)
        requires
            old(self).done < old(self).total,
        ensures
            *final(self) == (Transfer {
                done: (old(self).done + 1) as usize,
                failures: final(self).failures,
                ..*old(self)
            }),
            text::views(final(self).failures@) == match outcome {
                Ok(_) => text::views(old(self).failures@),
                Err(reason) => text::views(old(self).failures@).push(
                    blame(old(self).kind, key@, reason@),
                ),
            },
    {
        self.done = self.done + 1;
        match outcome {
            Ok(_) => {},
            Err(reason) => {
                let ghost before = self.failures@;
                let mut report = key.to_string();
                match self.kind {
                    JobKind::Pull => {},
                    JobKind::Push => {
                        report.append(": ");
                        report.append(reason.as_str());
                    },
                }
                self.failures.push(report);
                assert(text::views(self.failures@) =~= text::views(before).push(report@));
            },
        }
    }
}

/// The same texts again.
fn copied(list: &Vec<String>) -> (out: Vec<String>)
    ensures
        text::views(out@) == text::views(list@),
{
    let mut out: Vec<String> = Vec::new();
    let mut i: usize = 0;
    while i < list.len()
        invariant
            i <= list@.len(),
            out@.len() == i,
            forall|j: int| 0 <= j < i ==> (#[trigger] out@[j])@ == list@[j]@,
        decreases list@.len() - i,
    {
        out.push(list[i].clone());
        i += 1;
    }
    assert(text::views(out@) =~= text::views(list@));
    out
}

/// What the file `key` of the paired folder `dir` is called on the other side.
pub open spec fn remote_text(dir: Seq<char>, key: Seq<char>) -> Seq<char> {
    dir + "/"@ + key
}

/// What the file `key` of the paired folder `dir` is called on the other side.
pub fn remote_path(dir: &str, key: &str) -> (out: String)
    ensures
        out@ == remote_text(dir@, key@),
{
    let mut out = dir.to_string();
    out.append("/");
    out.append(key);
    out
}

/// Where the file `key` of the paired folder stands below `root`.
pub open spec fn local_text(root: Seq<char>, key: Seq<char>) -> Seq<char> {
    paths::path_text(paths::placed(paths::components(root), paths::components(key)))
}

/// Where the file `key` of the paired folder stands below `root`.
pub fn local_path(root: &str, key: &str) -> (out: String)
    ensures
        out@ == local_text(root@, key@),
{
    paths::path_of(&paths::place(&paths::components_of(root), &paths::components_of(key)))
}

/// A job that has just started.
pub open spec fn is_new_job(job: Job, kind: JobKind, total: nat, generation: u64) -> bool {
    &&& job.kind == kind
    &&& job.done == 0
    &&& job.total == total
    &&& job.failures@.len() == 0
    &&& !job.finished
    &&& job.generation == generation
}

/// A job that was stopped: it says so, and is over.
pub open spec fn is_stopped(before: Job, after: Job) -> bool {
    if before.finished {
        after == before
    } else {
        &&& after == (Job { finished: true, failures: after.failures, ..before })
        &&& text::views(after.failures@) == text::views(before.failures@).push("stopped"@)
    }
}

/// The listing, where it is there.
pub open spec fn ready_files(pairing: Option<Pairing>) -> Option<RemoteFiles> {
    match pairing {
        Some(pairing) => match pairing.files {
            Listing::Ready(files) => Some(files),
            _ => None,
        },
        None => None,
    }
}

/// The folder above a path: nothing above one without a slash before its last name.
pub open spec fn parent_of(path: Seq<char>) -> Option<Seq<char>> {
    match text::split_last(text::without_trailing(path, '/'), '/') {
        Some((parent, _)) => Some(
            if parent.len() == 0 {
                seq!['/']
            } else {
                parent
            },
        ),
        None => None,
    }
}

/// The folder `name` in `path`.
pub open spec fn child_of(path: Seq<char>, name: Seq<char>) -> Seq<char> {
    if path.len() > 0 && path.last() == '/' {
        path + name
    } else {
        path.push('/') + name
    }
}

impl Remote {
    /// A listing that is there agrees with itself.
    pub open spec fn sound(self) -> bool {
        ready_files(self.pairing) matches Some(files) ==> files.agrees()
    }

    /// Nothing paired, nothing running.
    pub fn none() -> (out: Self)
        ensures
            out.sound(),
            out.pairing is None,
            out.counts is None,
            out.job is None,
            out.generation == 0,
            out.pairing_generation == 0,
            out.browser is None,
    {
        Remote {
            pairing: None,
            counts: None,
            job: None,
            generation: 0,
            pairing_generation: 0,
            browser: None,
        }
    }

    /// Open the browser, on the paired folder where there is one. `account` says
    /// whether there are credentials; without any, and without a pairing, the browser
    /// opens on an error that names the file to fix.
    pub fn open_browser(&mut self, account: bool, store: Option<&str>) -> (out: Option<ListRequest>)
        ensures
            *final(self) == (Remote { browser: final(self).browser, ..*old(self) }),
            final(self).browser is Some,
            ({
                let browser = final(self).browser->0;
                if old(self).pairing is None && !account {
                    &&& out is None
                    &&& browser.path@ == "/"@
                    &&& browser.generation == 0
                    &&& browser.nodes matches Some(Err(message))
                    &&& message@ == "No Sirv credentials. Add client_id and client_secret to "@
                        + match store {
                        Some(path) => path@,
                        None => "the ImageGuide config file"@,
                    }
                } else {
                    &&& browser.path@ == match old(self).pairing {
                        Some(pairing) => pairing.dir@,
                        None => "/"@,
                    }
                    &&& browser.generation == 1
                    &&& browser.nodes is None
                    &&& out matches Some(request)
                    &&& request.generation == 1
                    &&& request.path@ == browser.path@
                }
            }),
    {
        if self.pairing.is_none() && !account {
            let message = text::glued(
                "No Sirv credentials. Add client_id and client_secret to ",
                match store {
                    Some(path) => path,
                    None => "the ImageGuide config file",
                },
            );
            self.browser = Some(
                Browser { path: "/".to_string(), nodes: Some(Err(message)), generation: 0 },
            );
            return None;
        }
        let path = match &self.pairing {
            Some(pairing) => pairing.dir.clone(),
            None => "/".to_string(),
        };
        let (browser, request) = Remote::browse(path, 0);
        self.browser = Some(browser);
        Some(request)
    }

    /// The browser on `path`, waiting for its listing, which supersedes the one of
    /// `generation`.
    fn browse(path: String, generation: u64) -> (out: (Browser, ListRequest))
        ensures
            out.0.path == path,
            out.0.nodes is None,
            out.0.generation == audit::after(generation),
            out.1.generation == out.0.generation,
            out.1.path == path,
    {
        let next = audit::bump(generation);
        let asked = path.clone();
        (
            Browser { path, nodes: None, generation: next },
            ListRequest { generation: next, path: asked },
        )
    }

    /// A listing has come in. One for a folder the browser has left lands nowhere.
    pub fn land_listing(&mut self, generation: u64, nodes: Result<Vec<Node>, String>)
        ensures
            *final(self) == (Remote { browser: final(self).browser, ..*old(self) }),
            match old(self).browser {
                Some(browser) => if browser.generation == generation {
                    final(self).browser == Some(Browser { nodes: Some(nodes), ..browser })
                } else {
                    final(self).browser == old(self).browser
                },
                None => final(self).browser is None,
            },
    {
        match self.browser.take() {
            Some(browser) => {
                if browser.generation == generation {
                    self.browser = Some(
                        Browser {
                            path: browser.path,
                            nodes: Some(nodes),
                            generation: browser.generation,
                        },
                    );
                } else {
                    self.browser = Some(browser);
                }
            },
            None => {},
        }
    }

    /// Enter a folder of the listing.
    pub fn descend(&mut self, name: &str) -> (out: Option<ListRequest>)
        ensures
            *final(self) == (Remote { browser: final(self).browser, ..*old(self) }),
            match old(self).browser {
                Some(browser) => {
                    &&& final(self).browser matches Some(opened)
                    &&& opened.path@ == child_of(browser.path@, name@)
                    &&& opened.nodes is None
                    &&& opened.generation == audit::after(browser.generation)
                    &&& out matches Some(request)
                    &&& request.generation == opened.generation
                    &&& request.path@ == opened.path@
                },
                None => final(self).browser is None && out is None,
            },
    {
        match self.browser.take() {
            Some(browser) => {
                let mut path = browser.path;
                if !text::ends_in(path.as_str(), '/') {
                    path.push('/');
                }
                path.append(name);
                let (opened, request) = Remote::browse(path, browser.generation);
                self.browser = Some(opened);
                Some(request)
            },
            None => None,
        }
    }

    /// Go up one folder. The root has no parent.
    pub fn ascend(&mut self) -> (out: Option<ListRequest>)
        ensures
            *final(self) == (Remote { browser: final(self).browser, ..*old(self) }),
            match old(self).browser {
                Some(browser) => match parent_of(browser.path@) {
                    Some(parent) => {
                        &&& final(self).browser matches Some(opened)
                        &&& opened.path@ == parent
                        &&& opened.nodes is None
                        &&& opened.generation == audit::after(browser.generation)
                        &&& out matches Some(request)
                        &&& request.generation == opened.generation
                        &&& request.path@ == parent
                    },
                    None => final(self).browser == old(self).browser && out is None,
                },
                None => final(self).browser is None && out is None,
            },
    {
        match self.browser.take() {
            Some(browser) => {
                let trimmed = text::trim_trailing(browser.path.as_str(), '/');
                match text::cut_last(trimmed.as_str(), '/') {
                    Some((parent, _)) => {
                        proof {
                            reveal_strlit("/");
                            assert("/"@ =~= seq!['/']);
                        }
                        let path = if parent.as_str().is_empty() {
                            "/".to_string()
                        } else {
                            parent
                        };
                        let (opened, request) = Remote::browse(path, browser.generation);
                        self.browser = Some(opened);
                        Some(request)
                    },
                    None => {
                        self.browser = Some(browser);
                        None
                    },
                }
            },
            None => None,
        }
    }

    /// Pair the browsed folder. The pairing exists at once; its diff arrives when the
    /// walk lands. The folder to walk comes back. A walk of the folder that was paired
    /// before lands nowhere.
    pub fn pair(&mut self) -> (out: Option<String>)
        requires
            old(self).sound(),
        ensures
            final(self).sound(),
            match old(self).browser {
                Some(browser) => {
                    let dir = text::without_trailing(browser.path@, '/');
                    &&& *final(self) == (Remote {
                        pairing: final(self).pairing,
                        pairing_generation: audit::after(old(self).pairing_generation),
                        counts: None,
                        browser: None,
                        ..*old(self)
                    })
                    &&& final(self).pairing matches Some(pairing)
                    &&& pairing.dir@ == dir
                    &&& pairing.files is Walking
                    &&& out matches Some(walked)
                    &&& walked@ == dir
                },
                None => *final(self) == *old(self) && out is None,
            },
    {
        match self.browser.take() {
            Some(browser) => {
                let dir = text::trim_trailing(browser.path.as_str(), '/');
                self.pairing_generation = audit::bump(self.pairing_generation);
                self.pairing = Some(Pairing { dir: dir.clone(), files: Listing::Walking });
                self.counts = None;
                Some(dir)
            },
            None => None,
        }
    }

    /// Close the browser.
    pub fn close_browser(&mut self)
        ensures
            *final(self) == (Remote { browser: None, ..*old(self) }),
    {
        self.browser = None;
    }

    /// Count again how the local folder stands.
    pub fn refresh_counts(&mut self, root: &str, entries: &Vec<Entry>)
        requires
            old(self).sound(),
        ensures
            final(self).sound(),
            *final(self) == (Remote { counts: final(self).counts, ..*old(self) }),
            match ready_files(old(self).pairing) {
                Some(files) => final(self).counts is Some && is_tally(
                    root@,
                    entries@,
                    files@,
                    final(self).counts->0,
                ),
                None => final(self).counts is None,
            },
    {
        let counts = match &self.pairing {
            Some(pairing) => match &pairing.files {
                Listing::Ready(files) => sirv_counts(root, entries, Some(files)),
                _ => None,
            },
            None => None,
        };
        self.counts = counts;
    }

    /// The walk of the paired folder has come back: its files, or why there are none.
    /// One for a pairing that has been replaced lands nowhere. A listing that failed is
    /// not a transfer that failed.
    pub fn land_walk(
        &mut self,
        pairing_generation: u64,
        walked: Result<Vec<Node>, String>,
        root: &str,
        entries: &Vec<Entry>,
    )
        requires
            old(self).sound(),
        ensures
            final(self).sound(),
            pairing_generation != old(self).pairing_generation ==> *final(self) == *old(self),
            pairing_generation == old(self).pairing_generation ==> match old(self).pairing {
                None => *final(self) == *old(self),
                Some(pairing) => match walked {
                    Ok(nodes) => {
                        let files = keyed(pairing.dir@, nodes@, nodes@.len() as int);
                        &&& *final(self) == (Remote {
                            pairing: final(self).pairing,
                            counts: final(self).counts,
                            ..*old(self)
                        })
                        &&& final(self).pairing matches Some(paired)
                        &&& paired.dir@ == pairing.dir@
                        &&& ready_files(final(self).pairing) matches Some(listed)
                        &&& listed@ == files
                        &&& final(self).counts matches Some(counts)
                        &&& is_tally(root@, entries@, files, counts)
                    },
                    Err(message) => *final(self) == (Remote {
                        pairing: Some(Pairing { files: Listing::Failed(message), ..pairing }),
                        ..*old(self)
                    }),
                },
            },
    {
        if self.pairing_generation != pairing_generation {
            return;
        }
        match self.pairing.take() {
            Some(pairing) => match walked {
                Ok(nodes) => {
                    let files = key_files(pairing.dir.as_str(), &nodes);
                    self.pairing = Some(Pairing { dir: pairing.dir, files: Listing::Ready(files) });
                    self.refresh_counts(root, entries);
                },
                Err(message) => {
                    self.pairing = Some(
                        Pairing { dir: pairing.dir, files: Listing::Failed(message) },
                    );
                },
            },
            None => {},
        }
    }

    /// Retire any running transfer. The loop checks the generation before each file,
    /// so the file in flight finishes and nothing after it starts.
    pub fn cancel_transfer(&mut self)
        requires
            old(self).sound(),
        ensures
            final(self).sound(),
            *final(self) == (Remote {
                generation: audit::after(old(self).generation),
                job: final(self).job,
                ..*old(self)
            }),
            final(self).generation != old(self).generation,
            match old(self).job {
                Some(job) => final(self).job is Some && is_stopped(job, final(self).job->0),
                None => final(self).job is None,
            },
    {
        self.generation = audit::bump(self.generation);
        match self.job.take() {
            Some(job) => {
                let mut job = job;
                if !job.finished {
                    let ghost before = job.failures@;
                    job.finished = true;
                    job.failures.push("stopped".to_string());
                    assert(text::views(job.failures@) =~= text::views(before).push("stopped"@));
                }
                self.job = Some(job);
            },
            None => {},
        }
    }

    /// Undo the pairing. A transfer into the folder stops with it.
    pub fn unpair(&mut self)
        requires
            old(self).sound(),
        ensures
            final(self).sound(),
            *final(self) == (Remote {
                pairing: None,
                counts: None,
                browser: None,
                generation: audit::after(old(self).generation),
                job: final(self).job,
                ..*old(self)
            }),
            match old(self).job {
                Some(job) => final(self).job is Some && is_stopped(job, final(self).job->0),
                None => final(self).job is None,
            },
    {
        self.pairing = None;
        self.counts = None;
        self.browser = None;
        self.cancel_transfer();
    }

    /// Whether this transfer is no longer the one that is wanted. Checked before each
    /// file rather than after, so nothing new starts.
    pub fn superseded(&self, generation: u64) -> (out: bool)
        ensures
            out == (self.generation != generation),
    {
        self.generation != generation
    }

    /// A transfer is running.
    pub open spec fn is_busy(self) -> bool {
        self.job matches Some(job) && !job.finished
    }

    /// Whether a transfer is running. One at a time: two progress lines would lie
    /// about order.
    pub fn busy(&self) -> (out: bool)
        ensures
            out == self.is_busy(),
    {
        match &self.job {
            Some(job) => !job.finished,
            None => false,
        }
    }

    /// Start downloading every remote file the local folder lacks, which holds the entries
    /// and the files at `present`. Nothing starts without a listing, while a transfer runs,
    /// or with nothing to download, and nothing is written over.
    pub fn start_pull(
        &mut self,
        root: &str,
        entries: &Vec<Entry>,
        present: &Vec<String>,
    ) -> (out: Option<Pull>)
        requires
            old(self).sound(),
        ensures
            final(self).sound(),
            out is None ==> *final(self) == *old(self) && (old(self).is_busy() || match ready_files(
                old(self).pairing,
            ) {
                Some(files) => downloads(
                    root@,
                    entries@,
                    present@,
                    old(self).pairing->0.dir@,
                    files,
                    seq![],
                ),
                None => true,
            }),
            out matches Some(pull) ==> {
                &&& !old(self).is_busy()
                &&& ready_files(old(self).pairing) matches Some(files)
                &&& pull.keys@.len() > 0
                &&& downloads(
                    root@,
                    entries@,
                    present@,
                    old(self).pairing->0.dir@,
                    files,
                    text::views(pull.keys@),
                )
                &&& forall|k: int|
                    0 <= k < pull.keys@.len() ==> is_clear(
                        root@,
                        entries@,
                        present@,
                        (#[trigger] pull.keys@[k])@,
                    )
                &&& pull.dir@ == old(self).pairing->0.dir@
                &&& pull.generation == final(self).generation
                &&& *final(self) == (Remote {
                    generation: audit::after(old(self).generation),
                    job: final(self).job,
                    ..*old(self)
                })
                &&& final(self).job matches Some(job)
                &&& is_new_job(job, JobKind::Pull, pull.keys@.len(), final(self).generation)
            },
    {
        if self.busy() {
            return None;
        }
        let (keys, dir) = match &self.pairing {
            Some(pairing) => match &pairing.files {
                Listing::Ready(files) => (
                    sirv_pull_plan(root, entries, present, pairing.dir.as_str(), files),
                    pairing.dir.clone(),
                ),
                _ => {
                    return None;
                },
            },
            None => {
                return None;
            },
        };
        if keys.len() == 0 {
            assert(text::views(keys@) =~= seq![]);
            return None;
        }
        proof {
            let files = ready_files(old(self).pairing)->0;
            let all = text::views(keys@);
            assert forall|k: int| 0 <= k < keys@.len() implies is_clear(
                root@,
                entries@,
                present@,
                (#[trigger] keys@[k])@,
            ) by {
                assert(all[k] == keys@[k]@);
                law_a_pull_never_overwrites(root@, entries@, present@, dir@, files, all, k);
            }
        }
        self.generation = audit::bump(self.generation);
        self.job = Some(
            Job {
                kind: JobKind::Pull,
                done: 0,
                total: keys.len(),
                failures: Vec::new(),
                finished: false,
                generation: self.generation,
            },
        );
        Some(Pull { generation: self.generation, dir, keys })
    }

    /// Start uploading every local file the remote folder lacks. Nothing starts
    /// without a listing, while a transfer runs, or with nothing to upload.
    pub fn start_push(&mut self, root: &str, entries: &Vec<Entry>) -> (out: Option<Push>)
        requires
            old(self).sound(),
        ensures
            final(self).sound(),
            ({
                let planned = match ready_files(old(self).pairing) {
                    Some(files) => uploads(root@, entries@, files@, entries@.len() as int),
                    None => seq![],
                };
                match out {
                    None => {
                        &&& *final(self) == *old(self)
                        &&& old(self).is_busy() || planned.len() == 0
                    },
                    Some(push) => {
                        &&& !old(self).is_busy()
                        &&& planned.len() > 0
                        &&& uploads_view(push.files@) == planned
                        &&& push.dir@ == old(self).pairing->0.dir@
                        &&& push.generation == final(self).generation
                        &&& exists|keys: Seq<String>|
                            {
                                &&& #[trigger] keys.len() == push.files@.len()
                                &&& forall|i: int|
                                    0 <= i < keys.len() ==> (#[trigger] keys[i])@ == planned[i].0
                                &&& text::views(push.folders@) == sirv::all_folders(
                                    keys,
                                    keys.len() as int,
                                )
                            }
                        &&& *final(self) == (Remote {
                            generation: audit::after(old(self).generation),
                            job: final(self).job,
                            ..*old(self)
                        })
                        &&& final(self).job matches Some(job)
                        &&& is_new_job(job, JobKind::Push, planned.len(), final(self).generation)
                    },
                }
            }),
    {
        if self.busy() {
            return None;
        }
        let (files, dir) = match &self.pairing {
            Some(pairing) => match &pairing.files {
                Listing::Ready(files) => (
                    sirv_push_plan(root, entries, files),
                    pairing.dir.clone(),
                ),
                _ => {
                    return None;
                },
            },
            None => {
                return None;
            },
        };
        if files.len() == 0 {
            return None;
        }
        let mut keys: Vec<String> = Vec::new();
        let mut i: usize = 0;
        while i < files.len()
            invariant
                i <= files@.len(),
                keys@.len() == i,
                forall|j: int| 0 <= j < i ==> (#[trigger] keys@[j])@ == files@[j].key@,
            decreases files@.len() - i,
        {
            keys.push(files[i].key.clone());
            i += 1;
        }
        let folders = sirv::push_folders(&keys);
        proof {
            assert(keys@.len() == files@.len());
            assert forall|j: int| 0 <= j < keys@.len() implies (#[trigger] keys@[j])@
                == uploads_view(files@)[j].0 by {
            }
        }
        self.generation = audit::bump(self.generation);
        self.job = Some(
            Job {
                kind: JobKind::Push,
                done: 0,
                total: files.len(),
                failures: Vec::new(),
                finished: false,
                generation: self.generation,
            },
        );
        Some(Push { generation: self.generation, dir, folders, files })
    }

    /// What a transfer does next. It is asked before each file rather than after, so that
    /// nothing new starts once it is not wanted any more.
    pub fn next(&self, transfer: &Transfer) -> (out: Next)
        ensures
            out == next_of(self.generation, *transfer),
    {
        if transfer.done >= transfer.total {
            Next::Finish
        } else if self.superseded(transfer.generation) {
            Next::Stop
        } else {
            Next::Move(transfer.done)
        }
    }

    /// A transfer got further. Only its own job says so: a slow last file can land
    /// after another transfer has started.
    pub fn progressed(&mut self, transfer: &Transfer)
        requires
            old(self).sound(),
        ensures
            final(self).sound(),
            match old(self).job {
                Some(job) => if job.generation == transfer.generation {
                    &&& *final(self) == (Remote { job: final(self).job, ..*old(self) })
                    &&& final(self).job matches Some(told)
                    &&& told == (Job { done: transfer.done, failures: told.failures, ..job })
                    &&& text::views(told.failures@) == text::views(transfer.failures@)
                } else {
                    *final(self) == *old(self)
                },
                None => *final(self) == *old(self),
            },
    {
        match self.job.take() {
            Some(job) => {
                let mut job = job;
                if job.generation == transfer.generation {
                    job.done = transfer.done;
                    job.failures = copied(&transfer.failures);
                }
                self.job = Some(job);
            },
            None => {},
        }
    }

    /// A transfer has run out of files.
    pub fn finished(&mut self, transfer: &Transfer)
        requires
            old(self).sound(),
        ensures
            final(self).sound(),
            match old(self).job {
                Some(job) => *final(self) == if job.generation == transfer.generation {
                    Remote { job: Some(Job { finished: true, ..job }), ..*old(self) }
                } else {
                    *old(self)
                },
                None => *final(self) == *old(self),
            },
    {
        match self.job.take() {
            Some(job) => {
                let mut job = job;
                if job.generation == transfer.generation {
                    job.finished = true;
                }
                self.job = Some(job);
            },
            None => {},
        }
    }
}

/// The credentials a filled-in form stands for, both fields trimmed, or what is wrong
/// with it.
pub fn form_credentials(client_id: &str, client_secret: &str) -> (out: Result<Credentials, String>)
    ensures
        ({
            let (id, secret) = (text::trimmed(client_id@), text::trimmed(client_secret@));
            match out {
                Ok(credentials) => {
                    &&& id.len() > 0 && secret.len() > 0
                    &&& credentials.client_id@ == id
                    &&& credentials.client_secret@ == secret
                },
                Err(message) => {
                    &&& id.len() == 0 || secret.len() == 0
                    &&& message@ == "Both fields are required."@
                },
            }
        }),
{
    let client_id = text::trim(client_id);
    let client_secret = text::trim(client_secret);
    if client_id.as_str().is_empty() || client_secret.as_str().is_empty() {
        Err("Both fields are required.".to_string())
    } else {
        Ok(Credentials { client_id, client_secret })
    }
}

/// What the form says once the store was written, or was not: what happened, not what
/// was attempted.
pub fn save_status(saved: Result<(), String>) -> (out: (bool, String))
    ensures
        out.0 == saved is Ok,
        out.1@ == match saved {
            Ok(_) => "Saved."@,
            Err(reason) => "Could not save: "@ + reason@,
        },
{
    match saved {
        Ok(_) => (true, "Saved.".to_string()),
        Err(reason) => (false, text::glued("Could not save: ", reason.as_str())),
    }
}

// ── What holds throughout ───────────────────────────────────────────────────

/// A transfer that was cancelled moves no further file, whatever it has moved by then.
pub proof fn law_a_cancelled_transfer_moves_nothing(generation: u64, transfer: Transfer)
    requires
        transfer.generation == generation,
    ensures
        !(next_of(audit::after(generation), transfer) is Move),
{
}

/// A file of the paired folder is read back by the key it was named by.
pub proof fn law_remote_paths_read_back(dir: Seq<char>, key: Seq<char>)
    requires
        text::without_trailing(dir, '/') == dir,
    ensures
        sirv::unpaired(dir, remote_text(dir, key)) == Some(key),
{
    reveal_strlit("/");
    assert("/"@ =~= seq!['/']);
    sirv::law_remote_names_lose_just_the_folder(dir, key);
    assert(remote_text(dir, key) =~= dir.push('/') + key);
}

/// The file that `key` is pulled to is none of the entries and none of the files at
/// `present`.
pub open spec fn is_clear(
    root: Seq<char>,
    entries: Seq<Entry>,
    present: Seq<String>,
    key: Seq<char>,
) -> bool {
    let written = paths::components(local_text(root, key));
    &&& forall|i: int|
        0 <= i < entries.len() ==> paths::components((#[trigger] entries[i]).path@) != written
    &&& forall|i: int|
        0 <= i < present.len() ==> paths::components((#[trigger] present[i])@) != written
}

/// Where a safe key is pulled to reads as the root and the names of the key, so its local
/// key is the key as local keys are spelled.
proof fn lemma_pulled_to(root: Seq<char>, key: Seq<char>, path: Seq<char>)
    requires
        sirv::is_safe(key),
        paths::components(path) == paths::components(local_text(root, key)),
    ensures
        sirv::key_below(root, path) == Some(sirv::spelled(key)),
{
    let (base, names) = (paths::components(root), paths::components(key));
    paths::lemma_components_are_spelled(root);
    paths::lemma_components_are_spelled(key);
    assert(names.len() == 0 || names[0] != seq!['/']) by {
        if names.len() > 0 {
            assert(paths::is_name(names[0]));
        }
    }
    let all = base + names;
    assert(paths::is_spelled(all)) by {
        assert forall|i: int| 0 <= i < all.len() implies {
            ||| i == 0 && all[0] == seq!['/']
            ||| {
                &&& (#[trigger] all[i]).len() > 0
                &&& !all[i].contains('/')
                &&& all[i] == seq!['.'] ==> i == 0
            }
        } by {
            if i < base.len() {
                assert(all[i] == base[i]);
            } else {
                assert(all[i] == names[i - base.len()]);
                assert(paths::is_name(names[i - base.len()]));
            }
        }
    }
    paths::law_written_path_reads_back(all);
    assert(paths::placed(base, names) == all);
    assert(all.subrange(0, base.len() as int) =~= base);
    assert(all.skip(base.len() as int) =~= names);
}

/// A pull writes over no file: what a planned key is written to is none of the files that
/// are there, listed or not.
pub proof fn law_a_pull_never_overwrites(
    root: Seq<char>,
    entries: Seq<Entry>,
    present: Seq<String>,
    dir: Seq<char>,
    files: RemoteFiles,
    keys: Seq<Seq<char>>,
    k: int,
)
    requires
        downloads(root, entries, present, dir, files, keys),
        0 <= k < keys.len(),
    ensures
        is_clear(root, entries, present, keys[k]),
{
    let key = keys[k];
    let remote = in_order(files.order@, files@);
    let n = files.order@.len() as int;
    let local = choose|local: Set<Seq<char>>|
        {
            &&& forall|key: Seq<char>| #[trigger]
                local.contains(key) <==> is_local(root, entries, entries.len() as int, key)
                    || is_present(root, present, present.len() as int, key)
            &&& keys == #[trigger] sirv::missing_keys(remote, dir, local, n)
        };
    sirv::law_a_pull_only_adds(remote, dir, local, n, k);
    let written = paths::components(local_text(root, key));
    assert forall|i: int| 0 <= i < entries.len() implies paths::components(
        (#[trigger] entries[i]).path@,
    ) != written by {
        if paths::components(entries[i].path@) == written {
            lemma_pulled_to(root, key, entries[i].path@);
            assert(is_local(root, entries, entries.len() as int, sirv::spelled(key)));
            assert(local.contains(sirv::spelled(key)));
        }
    }
    assert forall|i: int| 0 <= i < present.len() implies paths::components((#[trigger] present[i])@)
        != written by {
        if paths::components(present[i]@) == written {
            lemma_pulled_to(root, key, present[i]@);
            assert(is_present(root, present, present.len() as int, sirv::spelled(key)));
            assert(local.contains(sirv::spelled(key)));
        }
    }
}

/// A pulled file lies below the root and carries the key it was pulled by, as long as that
/// is spelled out plainly: it is missing no more.
pub proof fn law_a_pulled_file_is_known_by_its_key(root: Seq<char>, key: Seq<char>)
    requires
        sirv::is_safe(key),
        paths::path_text(paths::components(key)) == key,
    ensures
        sirv::key_below(root, local_text(root, key)) == Some(key),
{
    lemma_pulled_to(root, key, local_text(root, key));
}

/// Going up from a folder just entered leads back to where it was entered from.
pub proof fn law_going_up_undoes_going_down(path: Seq<char>, name: Seq<char>)
    requires
        path.len() > 0,
        path.last() == '/' ==> path == seq!['/'],
        name.len() > 0,
        !name.contains('/'),
    ensures
        parent_of(child_of(path, name)) == Some(path),
{
    let child = child_of(path, name);
    assert(child.last() == name.last());
    assert(name.contains(name.last())) by {
        assert(name[name.len() - 1] == name.last());
    }
    assert(text::without_trailing(child, '/') == child);
    let at = child.len() - name.len() - 1;
    child.index_of_last_ensures('/');
    assert(child[at] == '/');
    assert(child.contains('/'));
    let last = child.index_of_last('/')->0;
    assert(last == at) by {
        if at < last {
            assert(child[last] == name[last - at - 1]);
            assert(name.contains('/'));
        }
        if last < at {
            assert(child[at] != '/');
        }
    }
    if path.last() == '/' {
        assert(child.take(at).len() == 0);
    } else {
        assert(child.take(at) =~= path);
    }
}

/// A push sends just the files that the paired folder lacks: as many as the window counts
/// as new, each a file of the folder under the key it has there.
pub proof fn law_a_push_only_sends_new_files(
    root: Seq<char>,
    entries: Seq<Entry>,
    files: Map<Seq<char>, Node>,
    n: int,
)
    requires
        0 <= n <= entries.len(),
        entries.len() <= usize::MAX,
    ensures
        uploads(root, entries, files, n).len() == count_standing(
            root,
            entries,
            files,
            SyncState::OnlyLocal,
            n,
        ),
        forall|i: int|
            0 <= i < uploads(root, entries, files, n).len() ==> {
                let (key, index) = #[trigger] uploads(root, entries, files, n)[i];
                &&& index < n
                &&& sirv::key_below(root, entries[index as int].path@) == Some(key)
                &&& !files.contains_key(key)
            },
    decreases n,
{
    if n > 0 {
        law_a_push_only_sends_new_files(root, entries, files, n - 1);
        let before = uploads(root, entries, files, n - 1);
        let all = uploads(root, entries, files, n);
        assert forall|i: int| 0 <= i < all.len() implies {
            let (key, index) = #[trigger] all[i];
            &&& index < n
            &&& sirv::key_below(root, entries[index as int].path@) == Some(key)
            &&& !files.contains_key(key)
        } by {
            if i < before.len() {
                assert(all[i] == before[i]);
            }
        }
    }
}

/// A listing knows every file below the paired folder by its name there: the last one
/// listed under a name, and no name without a file.
pub proof fn law_a_listing_knows_every_file(dir: Seq<char>, nodes: Seq<Node>, n: int, key: Seq<char>)
    requires
        0 <= n <= nodes.len(),
        dir.len() == 0 || dir.last() != '/',
    ensures
        keyed(dir, nodes, n).contains_key(key) <==> exists|j: int|
            0 <= j < n && (#[trigger] nodes[j]).filename@ == dir + seq!['/'] + key,
        keyed(dir, nodes, n).contains_key(key) ==> exists|j: int|
            {
                &&& 0 <= j < n
                &&& (#[trigger] nodes[j]).filename@ == dir + seq!['/'] + key
                &&& keyed(dir, nodes, n)[key] == nodes[j]
                &&& forall|k: int|
                    j < k < n ==> (#[trigger] nodes[k]).filename@ != dir + seq!['/'] + key
            },
    decreases n,
{
    if n > 0 {
        law_a_listing_knows_every_file(dir, nodes, n - 1, key);
        let name = nodes[n - 1].filename@;
        sirv::law_remote_files_are_known_by_their_names(dir, key);
        sirv::law_remote_files_are_known_by_their_names(dir, name);
        let wanted = dir + seq!['/'] + key;
        if name == wanted {
            assert(sirv::unpaired(dir, name) == Some(key));
            assert(nodes[n - 1].filename@ == wanted);
        } else {
            assert(sirv::unpaired(dir, name) != Some(key));
            if keyed(dir, nodes, n - 1).contains_key(key) {
                let j = choose|j: int|
                    {
                        &&& 0 <= j < n - 1
                        &&& (#[trigger] nodes[j]).filename@ == wanted
                        &&& keyed(dir, nodes, n - 1)[key] == nodes[j]
                        &&& forall|k: int| j < k < n - 1 ==> (#[trigger] nodes[k]).filename@ != wanted
                    };
                assert(keyed(dir, nodes, n)[key] == nodes[j]);
            }
        }
    }
}

/// A local file with these names below the root carries them as its key, and no other file
/// carries that key.
proof fn lemma_key_of_names(root: Seq<char>, path: Seq<char>, names: Seq<Seq<char>>)
    requires
        sirv::are_plain_names(names),
    ensures
        sirv::key_below(root, path) == Some(text::joined(names, seq!['/']))
            <==> paths::components(path) == paths::components(root) + names,
{
    let (parts, base) = (paths::components(path), paths::components(root));
    let key = text::joined(names, seq!['/']);
    sirv::law_plain_names_make_safe_keys(names);
    if sirv::key_below(root, path) == Some(key) {
        let rest = parts.skip(base.len() as int);
        assert(base =~= parts.subrange(0, base.len() as int));
        assert(parts =~= base + rest);
        assert(text::joined(rest, seq!['/']) == key);
        assert(rest.len() > 0);
        paths::lemma_components_are_spelled(path);
        assert(forall|i: int| 0 <= i < names.len() ==> !(#[trigger] names[i]).contains('/'));
        paths::lemma_names_come_apart(names);
        if base.len() == 0 && rest[0] == seq!['/'] {
            // Only the root itself is written as a slash, and no plain key begins with one.
            lemma_joined_begins(rest);
            lemma_joined_begins(names);
            assert(seq!['/'][0] == '/');
            assert(names[0].contains(names[0][0]));
        } else {
            assert forall|i: int| 0 <= i < rest.len() implies !(#[trigger] rest[i]).contains(
                '/',
            ) by {
                assert(rest[i] == parts[base.len() + i]);
            }
            paths::lemma_names_come_apart(rest);
        }
    }
    if parts == base + names {
        assert(base =~= parts.subrange(0, base.len() as int));
        assert(parts.skip(base.len() as int) =~= names);
    }
}

proof fn lemma_joined_begins(names: Seq<Seq<char>>)
    requires
        names.len() > 0,
        names[0].len() > 0,
    ensures
        text::joined(names, seq!['/']).len() > 0,
        text::joined(names, seq!['/'])[0] == names[0][0],
    decreases names.len(),
{
    if names.len() > 1 {
        lemma_joined_begins(names.drop_last());
    }
}

/// A pull is complete: every file that the listing of the paired folder holds, at any
/// depth, is downloaded, as long as its names are plain and neither an entry nor a file on
/// disk has them below the root.
pub proof fn law_a_pull_is_complete(
    root: Seq<char>,
    entries: Seq<Entry>,
    present: Seq<String>,
    dir: Seq<char>,
    nodes: Seq<Node>,
    files: RemoteFiles,
    keys: Seq<Seq<char>>,
    j: int,
    names: Seq<Seq<char>>,
)
    requires
        downloads(root, entries, present, dir, files, keys),
        files.agrees(),
        files@ == keyed(dir, nodes, nodes.len() as int),
        dir.len() == 0 || dir.last() != '/',
        0 <= j < nodes.len(),
        sirv::are_plain_names(names),
        nodes[j].filename@ == dir + seq!['/'] + text::joined(names, seq!['/']),
        forall|i: int|
            0 <= i < entries.len() ==> paths::components((#[trigger] entries[i]).path@)
                != paths::components(root) + names,
        forall|i: int|
            0 <= i < present.len() ==> paths::components((#[trigger] present[i])@)
                != paths::components(root) + names,
    ensures
        keys.contains(text::joined(names, seq!['/'])),
{
    let key = text::joined(names, seq!['/']);
    let remote = in_order(files.order@, files@);
    let n = files.order@.len() as int;
    let local = choose|local: Set<Seq<char>>|
        {
            &&& forall|key: Seq<char>| #[trigger]
                local.contains(key) <==> is_local(root, entries, entries.len() as int, key)
                    || is_present(root, present, present.len() as int, key)
            &&& keys == #[trigger] sirv::missing_keys(remote, dir, local, n)
        };
    law_a_listing_knows_every_file(dir, nodes, nodes.len() as int, key);
    assert(files@.contains_key(key));
    assert(text::views(files.order@).contains(key));
    let at = choose|at: int|
        0 <= at < text::views(files.order@).len() && text::views(files.order@)[at] == key;
    assert(files.order@[at]@ == key);
    assert(remote[at] == files@[key]);
    assert(!local.contains(key)) by {
        if is_local(root, entries, entries.len() as int, key) {
            let i = choose|i: int|
                0 <= i < entries.len() && sirv::key_below(root, (#[trigger] entries[i]).path@)
                    == Some(key);
            lemma_key_of_names(root, entries[i].path@, names);
        }
        if is_present(root, present, present.len() as int, key) {
            let i = choose|i: int|
                0 <= i < present.len() && sirv::key_below(root, (#[trigger] present[i])@) == Some(
                    key,
                );
            lemma_key_of_names(root, present[i]@, names);
        }
    }
    sirv::law_a_pull_takes_every_missing_file(remote, dir, local, n, at, names);
}

/// A push is complete: every entry whose names below the root the paired folder does not
/// know is sent, under those names.
pub proof fn law_a_push_is_complete(
    root: Seq<char>,
    entries: Seq<Entry>,
    files: Map<Seq<char>, Node>,
    n: int,
    i: int,
    names: Seq<Seq<char>>,
)
    requires
        0 <= i < n <= entries.len() <= usize::MAX,
        sirv::are_plain_names(names),
        paths::components(entries[i].path@) == paths::components(root) + names,
        !files.contains_key(text::joined(names, seq!['/'])),
    ensures
        uploads(root, entries, files, n).contains((text::joined(names, seq!['/']), i as usize)),
    decreases n,
{
    let item = (text::joined(names, seq!['/']), i as usize);
    let (before, all) = (
        uploads(root, entries, files, n - 1),
        uploads(root, entries, files, n),
    );
    lemma_key_of_names(root, entries[i].path@, names);
    if i == n - 1 {
        assert(all[all.len() - 1] == item);
    } else {
        law_a_push_is_complete(root, entries, files, n - 1, i, names);
        let at = choose|at: int| 0 <= at < before.len() && before[at] == item;
        assert(all[at] == item);
    }
}

/// What the window counts is what there is: an entry whose names the paired folder does not
/// know is new, one that it knows with another number of bytes is changed, and one it knows
/// with as many is neither; each entry below the root is just one of the three.
pub proof fn law_every_entry_is_counted_once(
    root: Seq<char>,
    entries: Seq<Entry>,
    files: Map<Seq<char>, Node>,
    n: int,
)
    requires
        0 <= n <= entries.len(),
        forall|i: int|
            0 <= i < n ==> sirv::key_below(root, (#[trigger] entries[i]).path@) is Some,
    ensures
        count_standing(root, entries, files, SyncState::OnlyLocal, n) == entries.take(n).filter(
            |e: Entry| !files.contains_key(sirv::key_below(root, e.path@)->0),
        ).len(),
        count_standing(root, entries, files, SyncState::Changed, n) == entries.take(n).filter(
            |e: Entry|
                files.contains_key(sirv::key_below(root, e.path@)->0) && files[sirv::key_below(
                    root,
                    e.path@,
                )->0].size != e.bytes,
        ).len(),
        count_standing(root, entries, files, SyncState::OnlyLocal, n) + count_standing(
            root,
            entries,
            files,
            SyncState::Changed,
            n,
        ) + count_standing(root, entries, files, SyncState::Same, n) == n,
    decreases n,
{
    reveal(Seq::filter);
    if n > 0 {
        law_every_entry_is_counted_once(root, entries, files, n - 1);
        assert(entries.take(n).drop_last() =~= entries.take(n - 1));
        assert(entries.take(n).last() == entries[n - 1]);
        assert(sirv::key_below(root, entries[n - 1].path@) is Some);
    }
}

/// A transfer that is wanted moves the files of its list one after the other, and ends just
/// when all of them are done.
pub proof fn law_a_wanted_transfer_moves_every_file(transfer: Transfer)
    requires
        transfer.done <= transfer.total,
    ensures
        transfer.done < transfer.total ==> next_of(transfer.generation, transfer) == Next::Move(
            transfer.done,
        ),
        next_of(transfer.generation, transfer) is Finish <==> transfer.done == transfer.total,
{
}

/// A remote file is to be pulled, as the window counts, just where no entry carries its key.
pub proof fn law_what_only_the_other_side_has_is_counted(
    root: Seq<char>,
    entries: Seq<Entry>,
    files: Map<Seq<char>, Node>,
    names: Seq<Seq<char>>,
)
    requires
        sirv::are_plain_names(names),
    ensures
        only_remote(root, entries, files).contains(text::joined(names, seq!['/'])) <==> {
            &&& files.contains_key(text::joined(names, seq!['/']))
            &&& forall|i: int|
                0 <= i < entries.len() ==> paths::components((#[trigger] entries[i]).path@)
                    != paths::components(root) + names
        },
{
    let key = text::joined(names, seq!['/']);
    assert forall|i: int| 0 <= i < entries.len() implies (sirv::key_below(
        root,
        (#[trigger] entries[i]).path@,
    ) == Some(key)) == (paths::components(entries[i].path@) == paths::components(root) + names) by {
        lemma_key_of_names(root, entries[i].path@, names);
    }
    if is_local(root, entries, entries.len() as int, key) {
        let i = choose|i: int|
            0 <= i < entries.len() && sirv::key_below(root, (#[trigger] entries[i]).path@) == Some(
                key,
            );
        assert(paths::components(entries[i].path@) == paths::components(root) + names);
    }
}

/// Whatever is said of a file that was not moved begins with its name.
pub proof fn law_a_failure_names_its_file(kind: JobKind, key: Seq<char>, reason: Seq<char>)
    ensures
        key.is_prefix_of(blame(kind, key, reason)),
        kind is Push ==> reason.is_suffix_of(blame(kind, key, reason)),
{
    let said = blame(kind, key, reason);
    assert(said.take(key.len() as int) =~= key);
    if kind is Push {
        assert(said.skip(said.len() - reason.len()) =~= reason);
    }
}

/// A job that was stopped is over, with as much done as before, and one that ran says that
/// it was stopped.
pub proof fn law_a_stopped_job_is_over(before: Job, after: Job)
    requires
        is_stopped(before, after),
    ensures
        after.finished,
        after.done == before.done,
        after.total == before.total,
        before.finished ==> after.failures == before.failures,
        !before.finished ==> after.failures@.len() == before.failures@.len() + 1,
{
    assert(text::views(after.failures@).len() == after.failures@.len());
    assert(text::views(before.failures@).len() == before.failures@.len());
}

/// A job that has just started is running, has moved nothing and failed at nothing, and
/// keeps others from starting until it is over.
pub proof fn law_a_new_job_is_running(
    remote: Remote,
    job: Job,
    kind: JobKind,
    total: nat,
    generation: u64,
)
    requires
        is_new_job(job, kind, total, generation),
        remote.job == Some(job),
    ensures
        remote.is_busy(),
        job.done == 0,
        job.failures@.len() == 0,
        job.total == total,
        job.kind == kind,
{
}

/// A transfer is running just where there is a job that is not over.
pub proof fn law_busy_means_a_job_that_is_not_over(remote: Remote)
    ensures
        remote.job is None ==> !remote.is_busy(),
        remote.job matches Some(job) ==> (remote.is_busy() <==> !job.finished),
{
}

/// The three numbers of a tally: first the files that only this side has, behind them those
/// that both have with other numbers of bytes, and last those that only the other side has.
pub proof fn law_a_tally_counts_each_side(
    root: Seq<char>,
    entries: Seq<Entry>,
    files: Map<Seq<char>, Node>,
    counts: (usize, usize, usize),
)
    requires
        is_tally(root, entries, files, counts),
        forall|i: int|
            0 <= i < entries.len() ==> sirv::key_below(root, (#[trigger] entries[i]).path@) is Some,
    ensures
        counts.0 == entries.filter(
            |e: Entry| !files.contains_key(sirv::key_below(root, e.path@)->0),
        ).len(),
        counts.1 == entries.filter(
            |e: Entry|
                files.contains_key(sirv::key_below(root, e.path@)->0) && files[sirv::key_below(
                    root,
                    e.path@,
                )->0].size != e.bytes,
        ).len(),
        counts.2 == files.dom().filter(
            |key: Seq<char>|
                forall|i: int|
                    0 <= i < entries.len() ==> sirv::key_below(root, (#[trigger] entries[i]).path@)
                        != Some(key),
        ).len(),
{
    law_every_entry_is_counted_once(root, entries, files, entries.len() as int);
    assert(entries.take(entries.len() as int) =~= entries);
    let missing = files.dom().filter(
        |key: Seq<char>|
            forall|i: int|
                0 <= i < entries.len() ==> sirv::key_below(root, (#[trigger] entries[i]).path@)
                    != Some(key),
    );
    assert forall|key: Seq<char>| missing.contains(key) == only_remote(
        root,
        entries,
        files,
    ).contains(key) by {
        let n = entries.len() as int;
        if is_local(root, entries, n, key) {
            let i = choose|i: int|
                0 <= i < n && sirv::key_below(root, (#[trigger] entries[i]).path@) == Some(key);
            assert(sirv::key_below(root, entries[i].path@) == Some(key));
        }
    }
    assert(missing =~= only_remote(root, entries, files));
}

/// A transfer that has just begun is done just where there was nothing to move.
pub proof fn law_a_transfer_begins_with_nothing_done(
    transfer: Transfer,
    kind: JobKind,
    generation: u64,
    total: nat,
)
    requires
        is_begun(transfer, kind, generation, total),
    ensures
        transfer.done == transfer.total <==> total == 0,
        transfer.total - transfer.done == total,
        transfer.failures@.len() == 0,
{
}

} // verus!
