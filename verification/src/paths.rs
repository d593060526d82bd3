//! Paths as text with slashes between names, the way Unix writes them.
//!
//! Where a platform writes them otherwise, they are written so before they come here.
//!
//! A path is its components: the root where it starts with a slash, then the names
//! between slashes. Empty names and `.` do not count, except a `.` the path begins
//! with. Two paths are the same path when their components are the same.

use crate::text;
use crate::text::{after_prefix, chars_of, find_last, glued, join, same, split, text_of};
use vstd::prelude::*;

verus! {

/// The name between slashes at `index` counts as a component.
pub open spec fn counts(name: Seq<char>, index: int) -> bool {
    name.len() > 0 && (name != seq!['.'] || index == 0)
}

/// The names among the first `upto` of `names` that count.
pub open spec fn counted(names: Seq<Seq<char>>, upto: nat) -> Seq<Seq<char>>
    decreases upto,
{
    if upto == 0 {
        seq![]
    } else {
        let before = counted(names, (upto - 1) as nat);
        if counts(names[upto - 1], upto - 1) {
            before.push(names[upto - 1])
        } else {
            before
        }
    }
}

/// The path starts at the root.
pub open spec fn is_absolute(path: Seq<char>) -> bool {
    path.len() > 0 && path[0] == '/'
}

/// The components of `path`, the root as `/`.
pub open spec fn components(path: Seq<char>) -> Seq<Seq<char>> {
    let names = text::pieces(path, '/');
    let rest = counted(names, names.len());
    if is_absolute(path) {
        seq![seq!['/']] + rest
    } else {
        rest
    }
}

/// The text of a path with these components: one slash between neighbours.
pub open spec fn path_text(parts: Seq<Seq<char>>) -> Seq<char> {
    if parts.len() > 0 && parts[0] == seq!['/'] {
        seq!['/'] + text::joined(parts.drop_first(), seq!['/'])
    } else {
        text::joined(parts, seq!['/'])
    }
}

/// The component is a name, neither the root nor `.` nor `..`.
pub open spec fn is_name(part: Seq<char>) -> bool {
    part != seq!['/'] && part != seq!['.'] && part != seq!['.', '.']
}

/// The last component of a path, where it is a name.
pub open spec fn last_name(path: Seq<char>) -> Option<Seq<char>> {
    let parts = components(path);
    if parts.len() > 0 && is_name(parts.last()) {
        Some(parts.last())
    } else {
        None
    }
}

/// Where the extension's dot stands in a file name: the last dot, unless it is the
/// first character.
pub open spec fn dot(name: Seq<char>) -> Option<int> {
    match name.index_of_last('.') {
        Some(i) if i > 0 => Some(i),
        _ => None,
    }
}

/// A file name without its extension.
pub open spec fn stem(name: Seq<char>) -> Seq<char> {
    match dot(name) {
        Some(i) => name.take(i),
        None => name,
    }
}

/// The extension of a file name.
pub open spec fn suffix(name: Seq<char>) -> Option<Seq<char>> {
    match dot(name) {
        Some(i) => Some(name.skip(i + 1)),
        None => None,
    }
}

/// What follows `root` in `parts`, where `parts` begins with it.
pub open spec fn below(parts: Seq<Seq<char>>, root: Seq<Seq<char>>) -> Option<Seq<Seq<char>>> {
    if root.is_prefix_of(parts) {
        Some(parts.skip(root.len() as int))
    } else {
        None
    }
}

/// The components of `base` followed by `path`, or of `path` alone where it starts at
/// the root.
pub open spec fn placed(base: Seq<Seq<char>>, parts: Seq<Seq<char>>) -> Seq<Seq<char>> {
    if parts.len() > 0 && parts[0] == seq!['/'] {
        parts
    } else {
        base + parts
    }
}

/// `parts` with the extension of its last name replaced by `extension`. A path that
/// does not end in a name stays as it is.
pub open spec fn retitled(parts: Seq<Seq<char>>, extension: Seq<char>) -> Seq<Seq<char>> {
    if parts.len() > 0 && is_name(parts.last()) {
        parts.drop_last().push(stem(parts.last()) + seq!['.'] + extension)
    } else {
        parts
    }
}

/// The names among `parts`, without the root, `.` and `..`.
pub open spec fn names(parts: Seq<Seq<char>>) -> Seq<Seq<char>>
    decreases parts.len(),
{
    if parts.len() == 0 {
        seq![]
    } else if is_name(parts.last()) {
        names(parts.drop_last()).push(parts.last())
    } else {
        names(parts.drop_last())
    }
}

/// The components of `path`.
pub fn components_of(path: &str) -> (out: Vec<String>)
    ensures
        text::views(out@) == components(path@),
{
    let names = split(path, '/');
    let mut out: Vec<String> = Vec::new();
    proof {
        reveal_strlit("/");
        reveal_strlit(".");
        assert("/"@ =~= seq!['/']);
        assert("."@ =~= seq!['.']);
    }
    let ghost root = if is_absolute(path@) {
        seq![seq!['/']]
    } else {
        seq![]
    };
    if after_prefix(path, "/").is_some() {
        out.push("/".to_string());
    }
    assert(is_absolute(path@) == seq!['/'].is_prefix_of(path@)) by {
        if path@.len() > 0 {
            assert(path@.subrange(0, 1)[0] == path@[0]);
            assert(path@.subrange(0, 1) =~= seq![path@[0]]);
            assert(seq!['/'][0] == '/');
        }
    }
    assert(text::views(out@) =~= root);
    let mut i: usize = 0;
    while i < names.len()
        invariant
            i <= names@.len(),
            "."@ == seq!['.'],
            text::views(out@) == root + counted(text::views(names@), i as nat),
        decreases names@.len() - i,
    {
        let ghost before = out@;
        let dotted = same(names[i].as_str(), ".");
        assert(text::views(names@)[i as int] == names@[i as int]@);
        if names[i].as_str().is_empty() || (dotted && i != 0) {
            assert(names@[i as int]@.len() == 0 || names@[i as int]@ == seq!['.']);
        } else {
            out.push(names[i].clone());
            assert(text::views(out@) =~= text::views(before).push(names@[i as int]@));
        }
        i += 1;
        assert(text::views(out@) =~= root + counted(text::views(names@), i as nat));
    }
    assert(text::views(out@) =~= components(path@));
    out
}

/// The separator of Windows as a slash, anything else as it is.
pub open spec fn slash_for(c: char) -> char {
    if c == '\\' {
        '/'
    } else {
        c
    }
}

/// A path of Windows, written with slashes: it takes those as well.
pub fn slashed(path: &str) -> (out: String)
    ensures
        out@ == path@.map_values(|c: char| slash_for(c)),
{
    let chars = chars_of(path);
    let mut out = String::new();
    let mut i: usize = 0;
    assert(out@ =~= path@.take(0).map_values(|c: char| slash_for(c)));
    while i < chars.len()
        invariant
            i <= chars@.len(),
            chars@ == path@,
            out@ == path@.take(i as int).map_values(|c: char| slash_for(c)),
        decreases chars@.len() - i,
    {
        out.push(
            if chars[i] == '\\' {
                '/'
            } else {
                chars[i]
            },
        );
        i += 1;
        assert(out@ =~= path@.take(i as int).map_values(|c: char| slash_for(c)));
    }
    assert(path@.take(i as int) =~= path@);
    out
}

/// Whether `part` is the root.
fn root_part(part: &str) -> (out: bool)
    ensures
        out == (part@ == seq!['/']),
{
    proof {
        reveal_strlit("/");
        assert("/"@ =~= seq!['/']);
    }
    same(part, "/")
}

/// Whether `part` is a name, neither the root nor `.` nor `..`.
pub fn name_part(part: &str) -> (out: bool)
    ensures
        out == is_name(part@),
{
    proof {
        reveal_strlit(".");
        reveal_strlit("..");
        assert("."@ =~= seq!['.']);
        assert(".."@ =~= seq!['.', '.']);
    }
    !root_part(part) && !same(part, ".") && !same(part, "..")
}

/// The text of a path with these components.
pub fn path_of(parts: &Vec<String>) -> (out: String)
    ensures
        out@ == path_text(text::views(parts@)),
{
    proof {
        reveal_strlit("/");
        assert("/"@ =~= seq!['/']);
    }
    if parts.len() > 0 && root_part(parts[0].as_str()) {
        let rest = tail(parts, 1);
        assert(text::views(rest@) =~= text::views(parts@).drop_first());
        glued("/", join(&rest, "/").as_str())
    } else {
        join(parts, "/")
    }
}

/// The components of `parts` from `from` on.
fn tail(parts: &Vec<String>, from: usize) -> (out: Vec<String>)
    requires
        from <= parts@.len(),
    ensures
        text::views(out@) == text::views(parts@).skip(from as int),
{
    let mut out: Vec<String> = Vec::new();
    let mut i: usize = from;
    assert(text::views(out@) =~= text::views(parts@).subrange(from as int, i as int));
    while i < parts.len()
        invariant
            from <= i <= parts@.len(),
            text::views(out@) == text::views(parts@).subrange(from as int, i as int),
        decreases parts@.len() - i,
    {
        let ghost before = out@;
        out.push(parts[i].clone());
        assert(text::views(out@) =~= text::views(before).push(parts@[i as int]@));
        i += 1;
        assert(text::views(out@) =~= text::views(parts@).subrange(from as int, i as int));
    }
    assert(text::views(out@) =~= text::views(parts@).skip(from as int));
    out
}

/// The last component of `path`, where it is a name.
pub fn file_name(path: &str) -> (out: Option<String>)
    ensures
        last_name(path@) == match out {
            Some(name) => Some(name@),
            None => None,
        },
{
    let parts = components_of(path);
    if parts.len() > 0 && name_part(parts[parts.len() - 1].as_str()) {
        let last: usize = parts.len() - 1;
        assert(text::views(parts@).last() == parts@[last as int]@);
        Some(parts[last].clone())
    } else {
        None
    }
}

/// The path without its last component. There is nothing above the root, nor above a
/// path without components.
pub open spec fn parent_text(path: Seq<char>) -> Option<Seq<char>> {
    let parts = components(path);
    if parts.len() > 0 && parts.last() != seq!['/'] {
        Some(path_text(parts.drop_last()))
    } else {
        None
    }
}

/// The path without its last component.
pub fn parent(path: &str) -> (out: Option<String>)
    ensures
        parent_text(path@) == match out {
            Some(parent) => Some(parent@),
            None => None,
        },
{
    let mut parts = components_of(path);
    let ghost all = text::views(parts@);
    if parts.len() == 0 {
        return None;
    }
    assert(all.last() == parts@[parts@.len() - 1]@);
    if root_part(parts[parts.len() - 1].as_str()) {
        return None;
    }
    parts.pop();
    assert(text::views(parts@) =~= all.drop_last());
    Some(path_of(&parts))
}

/// The extension of a file name.
pub fn suffix_of(name: &str) -> (out: Option<String>)
    ensures
        suffix(name@) == match out {
            Some(extension) => Some(extension@),
            None => None,
        },
{
    let chars = chars_of(name);
    let end: usize = chars.len();
    match find_last(&chars, '.') {
        Some(i) => {
            if i > 0 {
                let out = text_of(&chars, i + 1, end);
                assert(out@ =~= name@.skip(i + 1));
                Some(out)
            } else {
                None
            }
        },
        None => None,
    }
}

/// A file name without its extension.
pub fn stem_of(name: &str) -> (out: String)
    ensures
        out@ == stem(name@),
{
    let chars = chars_of(name);
    match find_last(&chars, '.') {
        Some(i) => {
            if i > 0 {
                let out = text_of(&chars, 0, i);
                assert(out@ =~= name@.take(i as int));
                return out;
            }
        },
        None => {},
    }
    name.to_string()
}

/// What follows `root` in `parts`, where `parts` begins with it.
pub fn strip_root(parts: &Vec<String>, root: &Vec<String>) -> (out: Option<Vec<String>>)
    ensures
        below(text::views(parts@), text::views(root@)) == match out {
            Some(rest) => Some(text::views(rest@)),
            None => None,
        },
{
    if root.len() > parts.len() {
        return None;
    }
    let ghost (a, b) = (text::views(parts@), text::views(root@));
    let mut i: usize = 0;
    while i < root.len()
        invariant
            i <= root@.len() <= parts@.len(),
            a == text::views(parts@),
            b == text::views(root@),
            forall|j: int| 0 <= j < i ==> a[j] == b[j],
        decreases root@.len() - i,
    {
        assert(a[i as int] == parts@[i as int]@ && b[i as int] == root@[i as int]@);
        if !same(parts[i].as_str(), root[i].as_str()) {
            assert(a.subrange(0, b.len() as int)[i as int] != b[i as int]);
            return None;
        }
        i += 1;
    }
    assert(b =~= a.subrange(0, b.len() as int));
    Some(tail(parts, root.len()))
}

/// The names among `parts`.
pub fn names_of(parts: &Vec<String>) -> (out: Vec<String>)
    ensures
        text::views(out@) == names(text::views(parts@)),
{
    let mut out: Vec<String> = Vec::new();
    let ghost all = text::views(parts@);
    let mut i: usize = 0;
    assert(all.take(0) =~= seq![]);
    assert(text::views(out@) =~= names(all.take(0)));
    while i < parts.len()
        invariant
            i <= parts@.len(),
            all == text::views(parts@),
            text::views(out@) == names(all.take(i as int)),
        decreases parts@.len() - i,
    {
        assert(all.take(i + 1).drop_last() =~= all.take(i as int));
        assert(all.take(i + 1).last() == parts@[i as int]@);
        if name_part(parts[i].as_str()) {
            let ghost before = out@;
            out.push(parts[i].clone());
            assert(text::views(out@) =~= text::views(before).push(parts@[i as int]@));
        }
        i += 1;
    }
    assert(all.take(i as int) =~= all);
    out
}

/// The components of `base` followed by `parts`, or `parts` alone where it starts at
/// the root.
pub fn place(base: &Vec<String>, parts: &Vec<String>) -> (out: Vec<String>)
    ensures
        text::views(out@) == placed(text::views(base@), text::views(parts@)),
{
    if parts.len() > 0 && root_part(parts[0].as_str()) {
        assert(text::views(parts@)[0] == parts@[0]@);
        let out = tail(parts, 0);
        assert(text::views(out@) =~= text::views(parts@));
        return out;
    }
    let mut out = tail(base, 0);
    assert(text::views(out@) =~= text::views(base@));
    let mut i: usize = 0;
    assert(text::views(out@) =~= text::views(base@) + text::views(parts@).take(0));
    while i < parts.len()
        invariant
            i <= parts@.len(),
            text::views(out@) == text::views(base@) + text::views(parts@).take(i as int),
        decreases parts@.len() - i,
    {
        let ghost before = out@;
        out.push(parts[i].clone());
        assert(text::views(out@) =~= text::views(before).push(parts@[i as int]@));
        i += 1;
        assert(text::views(out@) =~= text::views(base@) + text::views(parts@).take(i as int));
    }
    assert(text::views(parts@).take(i as int) =~= text::views(parts@));
    proof {
        if parts@.len() > 0 {
            assert(text::views(parts@)[0] == parts@[0]@);
        }
    }
    out
}

/// `parts` with the extension of its last name replaced by `extension`.
pub fn retitle(parts: Vec<String>, extension: &str) -> (out: Vec<String>)
    ensures
        text::views(out@) == retitled(text::views(parts@), extension@),
{
    let mut out = parts;
    let count: usize = out.len();
    if count > 0 && name_part(out[count - 1].as_str()) {
        let name = out[count - 1].clone();
        assert(text::views(out@).last() == name@);
        let mut title = stem_of(name.as_str());
        title.push('.');
        title.append(extension);
        assert(title@ =~= stem(name@) + seq!['.'] + extension@);
        out.pop();
        assert(text::views(out@) =~= text::views(parts@).drop_last());
        let ghost before = out@;
        out.push(title);
        assert(text::views(out@) =~= text::views(before).push(title@));
        out
    } else {
        proof {
            if count > 0 {
                assert(text::views(out@).last() == out@[count - 1]@);
            }
        }
        out
    }
}

/// The components make a path that reads back as them: names without slashes, the
/// root only at the front, and a `.` only where a path begins with it.
pub open spec fn is_spelled(parts: Seq<Seq<char>>) -> bool {
    let rooted = parts.len() > 0 && parts[0] == seq!['/'];
    forall|i: int|
        0 <= i < parts.len() ==> {
            ||| i == 0 && rooted
            ||| {
                &&& (#[trigger] parts[i]).len() > 0
                &&& !parts[i].contains('/')
                &&& parts[i] == seq!['.'] ==> i == 0
            }
        }
}

/// Names joined by slashes come apart into the same names.
pub proof fn lemma_names_come_apart(names: Seq<Seq<char>>)
    requires
        names.len() > 0,
        forall|i: int| 0 <= i < names.len() ==> !(#[trigger] names[i]).contains('/'),
    ensures
        text::pieces(text::joined(names, seq!['/']), '/') == names,
    decreases names.len(),
{
    if names.len() == 1 {
        text::lemma_one_piece(names[0], '/');
        assert(seq![names[0]] =~= names);
    } else {
        let front = names.drop_last();
        assert forall|i: int| 0 <= i < front.len() implies !(#[trigger] front[i]).contains('/') by {
            assert(front[i] == names[i]);
        }
        lemma_names_come_apart(front);
        let above = text::joined(front, seq!['/']);
        text::lemma_pieces_join(above, '/', names.last());
        assert(above + seq!['/'] + names.last() =~= above.push('/') + names.last());
        text::lemma_one_piece(names.last(), '/');
        assert(front + seq![names.last()] =~= names);
    }
}

/// Names that all count are all counted.
proof fn lemma_all_counted(names: Seq<Seq<char>>, n: nat)
    requires
        n <= names.len(),
        forall|i: int| 0 <= i < n ==> counts(#[trigger] names[i], i),
    ensures
        counted(names, n) == names.take(n as int),
    decreases n,
{
    if n > 0 {
        lemma_all_counted(names, (n - 1) as nat);
        assert(counts(names[n - 1], n - 1));
        assert(names.take(n as int) =~= names.take(n - 1).push(names[n - 1]));
    } else {
        assert(names.take(0) =~= seq![]);
    }
}

/// Behind an empty first name, names other than `.` are all counted.
proof fn lemma_rest_counted(names: Seq<Seq<char>>, n: nat)
    requires
        n <= names.len(),
        forall|i: int|
            0 <= i < n ==> (#[trigger] names[i]).len() > 0 && names[i] != seq!['.'],
    ensures
        counted(seq![seq![]] + names, n + 1) == names.take(n as int),
    decreases n,
{
    let all = seq![seq![]] + names;
    if n == 0 {
        assert(!counts(all[0], 0));
        assert(counted(all, 0) =~= seq![]);
        assert(counted(all, 1) =~= seq![]);
        assert(names.take(0) =~= seq![]);
    } else {
        lemma_rest_counted(names, (n - 1) as nat);
        assert(all[n as int] == names[n - 1]);
        assert(names.take(n as int) =~= names.take(n - 1).push(names[n - 1]));
    }
}

/// A path written out from its components reads back as them.
pub proof fn law_written_path_reads_back(parts: Seq<Seq<char>>)
    requires
        is_spelled(parts),
    ensures
        components(path_text(parts)) == parts,
{
    let path = path_text(parts);
    if parts.len() == 0 {
        assert(path =~= seq![]);
        assert(text::pieces(path, '/') =~= seq![path]);
        assert(!counts(seq![path][0], 0));
        assert(counted(seq![path], 0) =~= seq![]);
        assert(counted(seq![path], 1) =~= seq![]);
        assert(components(path) =~= parts);
    } else if parts[0] == seq!['/'] {
        let names = parts.drop_first();
        assert(path[0] == '/');
        let empty = Seq::<char>::empty();
        let rest = text::joined(names, seq!['/']);
        assert(path =~= empty.push('/') + rest);
        text::lemma_pieces_join(empty, '/', rest);
        text::lemma_one_piece(empty, '/');
        if names.len() == 0 {
            assert(rest =~= empty);
            let both = seq![empty] + seq![empty];
            assert(text::pieces(path, '/') =~= both);
            assert(!counts(both[0], 0) && !counts(both[1], 1));
            assert(counted(both, 0) =~= seq![]);
            assert(counted(both, 1) =~= seq![]);
            assert(counted(both, 2) =~= seq![]);
            assert(components(path) =~= parts);
        } else {
            assert forall|i: int| 0 <= i < names.len() implies !(#[trigger] names[i]).contains('/')
                && names[i].len() > 0 && names[i] != seq!['.'] by {
                assert(names[i] == parts[i + 1]);
            }
            lemma_names_come_apart(names);
            lemma_rest_counted(names, names.len());
            assert(text::pieces(path, '/') =~= seq![empty] + names);
            assert(names.take(names.len() as int) =~= names);
            assert(components(path) =~= parts);
        }
    } else {
        assert forall|i: int| 0 <= i < parts.len() implies !(#[trigger] parts[i]).contains('/') by {
        }
        lemma_names_come_apart(parts);
        assert forall|i: int| 0 <= i < parts.len() implies counts(#[trigger] parts[i], i) by {
        }
        lemma_all_counted(parts, parts.len());
        assert(parts.take(parts.len() as int) =~= parts);
        assert(!is_absolute(path)) by {
            lemma_first_piece_leads(parts);
        }
        assert(components(path) =~= parts);
    }
}

/// A piece holds nothing of what pieces are cut at.
pub proof fn lemma_pieces_are_plain(text: Seq<char>, c: char, i: int)
    requires
        0 <= i < text::pieces(text, c).len(),
    ensures
        !text::pieces(text, c)[i].contains(c),
    decreases text.len(),
{
    if text.len() > 0 {
        let rest = text::pieces(text.drop_last(), c);
        text::lemma_some_piece(text.drop_last(), c);
        if i < rest.len() {
            lemma_pieces_are_plain(text.drop_last(), c, i);
        }
        if text.last() != c && i == rest.len() - 1 {
            let piece = rest.last().push(text.last());
            if piece.contains(c) {
                let j = choose|j: int| 0 <= j < piece.len() && piece[j] == c;
                assert(rest.last()[j] == c);
            }
        }
    }
}

/// What counts among names is a name with something in it, and a `.` only in front.
proof fn lemma_counted_are_names(names: Seq<Seq<char>>, upto: nat)
    requires
        upto <= names.len(),
    ensures
        counted(names, upto).len() <= upto,
        forall|j: int|
            0 <= j < counted(names, upto).len() ==> {
                let name = #[trigger] counted(names, upto)[j];
                &&& name.len() > 0
                &&& names.contains(name)
                &&& name == seq!['.'] ==> j == 0 && names[0] == seq!['.']
            },
    decreases upto,
{
    if upto > 0 {
        lemma_counted_are_names(names, (upto - 1) as nat);
        let before = counted(names, (upto - 1) as nat);
        let all = counted(names, upto);
        assert forall|j: int| 0 <= j < all.len() implies {
            let name = #[trigger] all[j];
            &&& name.len() > 0
            &&& names.contains(name)
            &&& name == seq!['.'] ==> j == 0 && names[0] == seq!['.']
        } by {
            if j < before.len() {
                assert(all[j] == before[j]);
            } else {
                assert(all[j] == names[upto - 1]);
            }
        }
    }
}

/// What a path reads as can be written out again.
pub proof fn lemma_components_are_spelled(path: Seq<char>)
    ensures
        is_spelled(components(path)),
{
    let names = text::pieces(path, '/');
    let rest = counted(names, names.len());
    let parts = components(path);
    lemma_counted_are_names(names, names.len());
    assert forall|j: int| 0 <= j < rest.len() implies !(#[trigger] rest[j]).contains('/') by {
        assert(names.contains(rest[j]));
        let i = choose|i: int| 0 <= i < names.len() && names[i] == rest[j];
        lemma_pieces_are_plain(path, '/', i);
    }
    if is_absolute(path) {
        let (empty, tail) = (Seq::<char>::empty(), path.drop_first());
        assert(path =~= empty.push('/') + tail);
        text::lemma_pieces_join(empty, '/', tail);
        text::lemma_one_piece(empty, '/');
        assert(names[0] == empty);
        assert forall|i: int| 1 <= i < parts.len() implies (#[trigger] parts[i]).len() > 0
            && !parts[i].contains('/') && parts[i] != seq!['.'] by {
            assert(parts[i] == rest[i - 1]);
            assert(seq!['.'].len() == 1);
        }
    } else {
        assert forall|i: int| 0 <= i < parts.len() implies (#[trigger] parts[i]).len() > 0
            && !parts[i].contains('/') && (parts[i] == seq!['.'] ==> i == 0) by {
            assert(parts[i] == rest[i]);
        }
    }
}

/// The names among what a path reads as, each with something in it and no slash.
proof fn lemma_names_are_spelled(parts: Seq<Seq<char>>)
    requires
        is_spelled(parts),
    ensures
        forall|i: int|
            0 <= i < names(parts).len() ==> {
                &&& is_name(#[trigger] names(parts)[i])
                &&& names(parts)[i].len() > 0
                &&& !names(parts)[i].contains('/')
            },
    decreases parts.len(),
{
    if parts.len() > 0 {
        let front = parts.drop_last();
        assert forall|i: int| 0 <= i < front.len() implies {
            ||| i == 0 && front[0] == seq!['/']
            ||| {
                &&& (#[trigger] front[i]).len() > 0
                &&& !front[i].contains('/')
                &&& front[i] == seq!['.'] ==> i == 0
            }
        } by {
            assert(front[i] == parts[i]);
        }
        lemma_names_are_spelled(front);
        let all = names(parts);
        assert forall|i: int| 0 <= i < all.len() implies is_name(#[trigger] all[i]) && all[i].len()
            > 0 && !all[i].contains('/') by {
            if i < names(front).len() {
                assert(all[i] == names(front)[i]);
            } else {
                assert(all[i] == parts[parts.len() - 1]);
            }
        }
    }
}

/// Names are names.
pub proof fn lemma_names_are_names(parts: Seq<Seq<char>>)
    ensures
        forall|i: int| 0 <= i < names(parts).len() ==> is_name(#[trigger] names(parts)[i]),
    decreases parts.len(),
{
    if parts.len() > 0 {
        let front = parts.drop_last();
        lemma_names_are_names(front);
        assert forall|i: int| 0 <= i < names(parts).len() implies is_name(
            #[trigger] names(parts)[i],
        ) by {
            if i < names(front).len() {
                assert(names(parts)[i] == names(front)[i]);
            }
        }
    }
}

/// What stands in front of the last name in a path whose other components are these.
pub open spec fn lead(front: Seq<Seq<char>>) -> Seq<char> {
    if front.len() == 0 {
        seq![]
    } else if front == seq![seq!['/']] {
        seq!['/']
    } else {
        path_text(front).push('/')
    }
}

/// A path ends in its last name.
pub proof fn lemma_path_ends_in_its_name(front: Seq<Seq<char>>, name: Seq<char>)
    requires
        name != seq!['/'],
    ensures
        path_text(front.push(name)) == lead(front) + name,
{
    let (all, slash) = (front.push(name), seq!['/']);
    if front.len() == 0 {
        assert(all =~= seq![name]);
        assert(path_text(all) =~= lead(front) + name);
    } else if front[0] == slash {
        let (names, rest) = (front.drop_first(), all.drop_first());
        assert(rest =~= names.push(name));
        assert(rest.drop_last() =~= names);
        assert(all[0] == slash);
        if front.len() == 1 {
            assert(front =~= seq![slash]);
            assert(rest =~= seq![name]);
        } else {
            assert(front != seq![slash]);
            assert(text::joined(rest, slash) =~= text::joined(names, slash) + slash + name);
        }
        assert(path_text(all) =~= lead(front) + name);
    } else {
        assert(front != seq![slash]) by {
            assert(seq![slash][0] == slash);
        }
        assert(all[0] == front[0]);
        assert(all.drop_last() =~= front);
        assert(path_text(all) =~= lead(front) + name);
    }
}

/// The names of a path below a folder, the last with another extension, make a path that
/// reads as just that.
pub proof fn lemma_names_go_below(base: Seq<char>, parts: Seq<Seq<char>>, extension: Seq<char>)
    requires
        is_spelled(parts),
        extension.len() > 0,
        !extension.contains('/'),
    ensures
        ({
            let all = components(base) + retitled(names(parts), extension);
            components(path_text(all)) == all
        }),
{
    let front = components(base);
    let titled = retitled(names(parts), extension);
    let all = front + titled;
    lemma_components_are_spelled(base);
    lemma_names_are_spelled(parts);
    assert forall|i: int| 0 <= i < titled.len() implies (#[trigger] titled[i]).len() > 0
        && !titled[i].contains('/') && titled[i] != seq!['.'] by {
        if i < names(parts).len() - 1 {
            assert(titled[i] == names(parts)[i]);
        } else {
            let name = names(parts).last();
            assert(name == names(parts)[names(parts).len() - 1]);
            let title = stem(name) + seq!['.'] + extension;
            name.index_of_last_ensures('.');
            assert(titled[i] == title);
            assert(title.len() >= 2 && seq!['.'].len() == 1);
            if title.contains('/') {
                let k = choose|k: int| 0 <= k < title.len() && title[k] == '/';
                let n = stem(name).len();
                if k < n {
                    assert(stem(name)[k] == '/');
                    assert(name[k] == '/');
                } else if k > n {
                    assert(extension[k - n - 1] == '/');
                }
            }
        }
    }
    assert(is_spelled(all)) by {
        assert forall|i: int| 0 <= i < all.len() implies {
            ||| i == 0 && all[0] == seq!['/']
            ||| {
                &&& (#[trigger] all[i]).len() > 0
                &&& !all[i].contains('/')
                &&& all[i] == seq!['.'] ==> i == 0
            }
        } by {
            if i < front.len() {
                assert(all[i] == front[i]);
            } else {
                assert(all[i] == titled[i - front.len()]);
            }
        }
    }
    law_written_path_reads_back(all);
}

/// Writing a path out from what it reads as gives a path that reads the same.
pub proof fn law_rewritten_path_reads_the_same(path: Seq<char>)
    ensures
        components(path_text(components(path))) == components(path),
{
    lemma_components_are_spelled(path);
    law_written_path_reads_back(components(path));
}

/// Joined names begin with the first of them.
proof fn lemma_first_piece_leads(names: Seq<Seq<char>>)
    requires
        names.len() > 0,
        names[0].len() > 0,
        !names[0].contains('/'),
    ensures
        !is_absolute(text::joined(names, seq!['/'])),
        text::joined(names, seq!['/']).len() > 0,
        text::joined(names, seq!['/'])[0] == names[0][0],
    decreases names.len(),
{
    assert(names[0].contains(names[0][0]));
    if names.len() > 1 {
        lemma_first_piece_leads(names.drop_last());
    }
}

/// What counts among names goes by the names looked at.
proof fn lemma_counted_by_front(names: Seq<Seq<char>>, other: Seq<Seq<char>>, n: nat)
    requires
        n <= names.len(),
        n <= other.len(),
        forall|i: int| 0 <= i < n ==> names[i] == #[trigger] other[i],
    ensures
        counted(names, n) == counted(other, n),
    decreases n,
{
    if n > 0 {
        lemma_counted_by_front(names, other, (n - 1) as nat);
        assert(names[n - 1] == other[n - 1]);
    }
}

/// A path that is a folder and a name ends in that name, and in nothing else besides what
/// the folder reads as.
pub proof fn law_a_path_ends_in_its_file_name(lead: Seq<char>, name: Seq<char>)
    requires
        lead.len() == 0 || lead.last() == '/',
        name.len() > 0,
        !name.contains('/'),
        name != seq!['.'],
        name != seq!['.', '.'],
    ensures
        components(lead + name) == components(lead).push(name),
        last_name(lead + name) == Some(name),
{
    let path = lead + name;
    assert(seq!['/'].contains('/')) by {
        assert(seq!['/'][0] == '/');
    }
    assert(name.contains(name[0]));
    text::lemma_one_piece(name, '/');
    if lead.len() == 0 {
        assert(path =~= name);
        assert(lead =~= seq![]);
        assert(text::pieces(lead, '/') =~= seq![lead]);
        assert(counted(seq![name], 0) =~= seq![]);
        assert(counted(seq![lead], 0) =~= seq![]);
        assert(counts(seq![name][0], 0) && !counts(seq![lead][0], 0));
        assert(counted(seq![name], 1) =~= seq![name]);
        assert(counted(seq![lead], 1) =~= seq![]);
        assert(components(path) =~= components(lead).push(name));
    } else {
        let above = lead.drop_last();
        assert(lead =~= above.push('/') + seq![]);
        assert(path =~= above.push('/') + name);
        text::lemma_pieces_join(above, '/', name);
        text::lemma_pieces_join(above, '/', seq![]);
        text::lemma_some_piece(above, '/');
        let upper = text::pieces(above, '/');
        let empty = Seq::<char>::empty();
        assert(text::pieces(seq![], '/') =~= seq![empty]);
        let (all, folder) = (upper + seq![name], upper + seq![empty]);
        let n = upper.len();
        assert(all.len() == n + 1 && folder.len() == n + 1);
        lemma_counted_by_front(all, folder, n);
        assert(counts(all[n as int], n as int) && !counts(folder[n as int], n as int));
        assert(counted(all, n + 1) == counted(folder, n + 1).push(name));
        assert(is_absolute(path) == is_absolute(lead)) by {
            assert(path[0] == lead[0]);
        }
        assert(components(path) =~= components(lead).push(name));
    }
}

/// The extension of a name is what stands behind its last dot, and the stem what stands
/// before it. A name without a dot, or with none but in front, has no extension.
pub proof fn law_the_last_dot_parts_a_name(front: Seq<char>, extension: Seq<char>)
    requires
        front.len() > 0,
        !extension.contains('.'),
    ensures
        suffix(front + seq!['.'] + extension) == Some(extension),
        stem(front + seq!['.'] + extension) == front,
        suffix(extension) is None,
        stem(extension) == extension,
        suffix(seq!['.'] + extension) is None,
        stem(seq!['.'] + extension) == seq!['.'] + extension,
{
    let name = front + seq!['.'] + extension;
    let at = front.len() as int;
    lemma_last_dot(name, at);
    assert(name.skip(at + 1) =~= extension);
    assert(name.take(at) =~= front);
    extension.index_of_last_ensures('.');
    let hidden = seq!['.'] + extension;
    assert forall|i: int| 1 <= i < hidden.len() implies hidden[i] != '.' by {
        if hidden[i] == '.' {
            assert(extension[i - 1] == '.');
        }
    }
    lemma_last_dot(hidden, 0);
}

proof fn lemma_last_dot(name: Seq<char>, at: int)
    requires
        0 <= at < name.len(),
        name[at] == '.',
        forall|i: int| at < i < name.len() ==> #[trigger] name[i] != '.',
    ensures
        name.index_of_last('.') == Some(at),
{
    name.index_of_last_ensures('.');
    assert(name.contains('.'));
    let last = name.index_of_last('.')->0;
    assert(name[last] == '.');
    if last < at {
        assert(name[at] != '.');
    }
}

/// Everything between the slashes of a path that counts is one of its components.
pub proof fn law_nothing_between_slashes_is_lost(path: Seq<char>, i: int)
    requires
        0 <= i < text::pieces(path, '/').len(),
        text::pieces(path, '/')[i].len() > 0,
        text::pieces(path, '/')[i] != seq!['.'],
    ensures
        components(path).contains(text::pieces(path, '/')[i]),
{
    let names = text::pieces(path, '/');
    lemma_counts_are_counted(names, names.len(), i);
    let rest = counted(names, names.len());
    let at = choose|at: int| 0 <= at < rest.len() && rest[at] == names[i];
    if is_absolute(path) {
        assert(components(path)[at + 1] == names[i]);
    } else {
        assert(components(path)[at] == names[i]);
    }
}

proof fn lemma_counts_are_counted(names: Seq<Seq<char>>, n: nat, i: int)
    requires
        0 <= i < n <= names.len(),
        counts(names[i], i),
    ensures
        counted(names, n).contains(names[i]),
    decreases n,
{
    let (before, all) = (counted(names, (n - 1) as nat), counted(names, n));
    if i == n - 1 {
        assert(all[all.len() - 1] == names[i]);
    } else {
        lemma_counts_are_counted(names, (n - 1) as nat, i);
        let at = choose|at: int| 0 <= at < before.len() && before[at] == names[i];
        assert(all[at] == names[i]);
    }
}

/// Nothing is no path, a slash is the root, and a path that begins with a slash begins at
/// the root.
pub proof fn law_paths_begin_at_the_root_or_nowhere(path: Seq<char>)
    ensures
        components(seq![]) == Seq::<Seq<char>>::empty(),
        components(seq!['/']) == seq![seq!['/']],
        path.len() > 0 && path[0] == '/' ==> components(path).len() > 0 && components(path)[0]
            == seq!['/'],
        path.len() > 0 && path[0] != '/' ==> !components(path).contains(seq!['/']),
{
    let empty = Seq::<char>::empty();
    assert(text::pieces(seq![], '/') =~= seq![empty]);
    assert(counted(seq![empty], 0) =~= seq![]);
    assert(!counts(seq![empty][0], 0));
    assert(counted(seq![empty], 1) =~= seq![]);
    assert(components(seq![]) =~= seq![]);
    let root = seq!['/'];
    assert(root =~= empty.push('/') + empty);
    text::lemma_pieces_join(empty, '/', empty);
    let two = seq![empty] + seq![empty];
    assert(text::pieces(root, '/') == two);
    assert(!counts(two[0], 0) && !counts(two[1], 1));
    assert(counted(two, 0) =~= seq![]);
    assert(counted(two, 1) =~= seq![]);
    assert(counted(two, 2) =~= seq![]);
    assert(components(root) =~= seq![root]);
    if path.len() > 0 && path[0] != '/' && components(path).contains(root) {
        lemma_components_are_spelled(path);
        let parts = components(path);
        let i = choose|i: int| 0 <= i < parts.len() && parts[i] == root;
        let names = text::pieces(path, '/');
        lemma_counted_are_names(names, names.len());
        assert(names.contains(parts[i]));
        let k = choose|k: int| 0 <= k < names.len() && names[k] == parts[i];
        lemma_pieces_are_plain(path, '/', k);
        assert(root[0] == '/');
        assert(root.contains('/'));
    }
}

/// A path is placed below another just where it does not begin at the root; one that does
/// stands for itself.
pub proof fn law_paths_are_placed_below_their_base(base: Seq<Seq<char>>, path: Seq<char>)
    ensures
        path.len() > 0 && path[0] == '/' ==> placed(base, components(path)) == components(path),
        path.len() == 0 || path[0] != '/' ==> placed(base, components(path)) == base
            + components(path),
{
    law_paths_begin_at_the_root_or_nowhere(path);
    let parts = components(path);
    if path.len() == 0 {
        assert(path =~= seq![]);
    } else if parts.len() > 0 {
        assert(parts.contains(parts[0]));
    }
}

} // verus!
