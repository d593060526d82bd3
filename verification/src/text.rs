//! Text as a sequence of characters: the few string operations everything else is
//! written with, each stated over the characters it reads and writes.

use vstd::prelude::*;

verus! {

/// `String::push` appends one character to the end of the text.
pub assume_specification[ String::push ](s: &mut String, c: char)
    ensures
        final(s)@ == old(s)@.push(c),
;

/// The characters with the `White_Space` property.
pub open spec fn is_white(c: char) -> bool {
    let code = c as u32;
    ||| 0x9 <= code <= 0xd
    ||| code == 0x20
    ||| code == 0x85
    ||| code == 0xa0
    ||| code == 0x1680
    ||| 0x2000 <= code <= 0x200a
    ||| code == 0x2028
    ||| code == 0x2029
    ||| code == 0x202f
    ||| code == 0x205f
    ||| code == 0x3000
}

/// `text` without its leading white space.
pub open spec fn trimmed_start(text: Seq<char>) -> Seq<char>
    decreases text.len(),
{
    if text.len() > 0 && is_white(text[0]) {
        trimmed_start(text.drop_first())
    } else {
        text
    }
}

/// `text` without its trailing white space.
pub open spec fn trimmed_end(text: Seq<char>) -> Seq<char>
    decreases text.len(),
{
    if text.len() > 0 && is_white(text.last()) {
        trimmed_end(text.drop_last())
    } else {
        text
    }
}

/// `text` without white space at either end.
pub open spec fn trimmed(text: Seq<char>) -> Seq<char> {
    trimmed_end(trimmed_start(text))
}

/// `text` without the run of `c` it ends in.
pub open spec fn without_trailing(text: Seq<char>, c: char) -> Seq<char>
    decreases text.len(),
{
    if text.len() > 0 && text.last() == c {
        without_trailing(text.drop_last(), c)
    } else {
        text
    }
}

/// What stands before and after the first `c`, if `c` occurs.
pub open spec fn split_first(text: Seq<char>, c: char) -> Option<(Seq<char>, Seq<char>)> {
    match text.index_of_first(c) {
        Some(i) => Some((text.take(i), text.skip(i + 1))),
        None => None,
    }
}

/// What stands before and after the last `c`, if `c` occurs.
pub open spec fn split_last(text: Seq<char>, c: char) -> Option<(Seq<char>, Seq<char>)> {
    match text.index_of_last(c) {
        Some(i) => Some((text.take(i), text.skip(i + 1))),
        None => None,
    }
}

/// The pieces of `text` between occurrences of `c`, in order; one more than there
/// are occurrences.
pub open spec fn pieces(text: Seq<char>, c: char) -> Seq<Seq<char>>
    decreases text.len(),
{
    if text.len() == 0 {
        seq![text]
    } else if text.last() == c {
        pieces(text.drop_last(), c).push(seq![])
    } else {
        let rest = pieces(text.drop_last(), c);
        rest.drop_last().push(rest.last().push(text.last()))
    }
}

/// `parts` one after the other with `gap` between neighbours.
pub open spec fn joined(parts: Seq<Seq<char>>, gap: Seq<char>) -> Seq<char>
    decreases parts.len(),
{
    if parts.len() == 0 {
        seq![]
    } else if parts.len() == 1 {
        parts[0]
    } else {
        joined(parts.drop_last(), gap) + gap + parts.last()
    }
}

/// `text` holds `needle` as a run of neighbouring characters.
pub open spec fn holds_run(text: Seq<char>, needle: Seq<char>) -> bool {
    exists|i: int|
        0 <= i <= text.len() - needle.len() && #[trigger] text.subrange(i, i + needle.len())
            == needle
}

/// The decimal digit with value `value`.
pub open spec fn digit(value: nat) -> char {
    if value == 0 {
        '0'
    } else if value == 1 {
        '1'
    } else if value == 2 {
        '2'
    } else if value == 3 {
        '3'
    } else if value == 4 {
        '4'
    } else if value == 5 {
        '5'
    } else if value == 6 {
        '6'
    } else if value == 7 {
        '7'
    } else if value == 8 {
        '8'
    } else {
        '9'
    }
}

/// `value` in decimal.
pub open spec fn decimal(value: nat) -> Seq<char>
    decreases value,
{
    if value < 10 {
        seq![digit(value)]
    } else {
        decimal(value / 10).push(digit(value % 10))
    }
}

/// Each element of `list`, by its text.
pub open spec fn views(list: Seq<String>) -> Seq<Seq<char>> {
    list.map_values(|s: String| s@)
}

/// The characters of `text`, as a vector.
pub fn chars_of(text: &str) -> (out: Vec<char>)
    ensures
        out@ == text@,
{
    let mut out: Vec<char> = Vec::new();
    for c in it: text.chars()
        invariant
            out@ == it.seq().take(it.index() as int),
            it.seq() == text@,
    {
        out.push(c);
    }
    assert(text@.take(text@.len() as int) =~= text@);
    out
}

/// The text behind an optional string.
pub open spec fn text_in(value: Option<String>) -> Option<Seq<char>> {
    match value {
        Some(value) => Some(value@),
        None => None,
    }
}

/// The characters of `chars` from `from` to before `to`, as text.
pub fn text_of(chars: &Vec<char>, from: usize, to: usize) -> (out: String)
    requires
        from <= to <= chars@.len(),
    ensures
        out@ == chars@.subrange(from as int, to as int),
{
    let mut out = String::new();
    let mut i: usize = from;
    while i < to
        invariant
            from <= i <= to <= chars@.len(),
            out@ == chars@.subrange(from as int, i as int),
        decreases to - i,
    {
        out.push(chars[i]);
        i += 1;
    }
    out
}

/// Whether two texts are the same.
pub fn same(a: &str, b: &str) -> (out: bool)
    ensures
        out == (a@ == b@),
{
    let left = chars_of(a);
    let right = chars_of(b);
    if left.len() != right.len() {
        return false;
    }
    let mut i: usize = 0;
    while i < left.len()
        invariant
            i <= left@.len() == right@.len(),
            left@ == a@,
            right@ == b@,
            forall|j: int| 0 <= j < i ==> left@[j] == right@[j],
        decreases left@.len() - i,
    {
        if left[i] != right[i] {
            return false;
        }
        i += 1;
    }
    assert(left@ =~= right@);
    true
}

/// Whether `c` is white space.
pub fn white(c: char) -> (out: bool)
    ensures
        out == is_white(c),
{
    let code: u32 = c as u32;
    (0x9 <= code && code <= 0xd) || code == 0x20 || code == 0x85 || code == 0xa0 || code == 0x1680
        || (0x2000 <= code && code <= 0x200a) || code == 0x2028 || code == 0x2029 || code == 0x202f
        || code == 0x205f || code == 0x3000
}

/// Where the first `c` stands in `chars`.
pub fn find_first(chars: &Vec<char>, c: char) -> (out: Option<usize>)
    ensures
        chars@.index_of_first(c) == match out {
            Some(i) => Some(i as int),
            None => None,
        },
        out matches Some(i) ==> i < chars@.len() && chars@[i as int] == c,
{
    proof {
        chars@.index_of_first_ensures(c);
    }
    let mut i: usize = 0;
    while i < chars.len()
        invariant
            i <= chars@.len(),
            forall|j: int| 0 <= j < i ==> chars@[j] != c,
            match chars@.index_of_first(c) {
                Some(first) => chars@.contains(c) && 0 <= first < chars@.len() && chars@[first] == c
                    && forall|j: int| 0 <= j < first ==> chars@[j] != c,
                None => !chars@.contains(c),
            },
        decreases chars@.len() - i,
    {
        if chars[i] == c {
            assert(chars@.contains(c));
            return Some(i);
        }
        i += 1;
    }
    None
}

/// Where the last `c` stands in `chars`.
pub fn find_last(chars: &Vec<char>, c: char) -> (out: Option<usize>)
    ensures
        chars@.index_of_last(c) == match out {
            Some(i) => Some(i as int),
            None => None,
        },
        out matches Some(i) ==> i < chars@.len() && chars@[i as int] == c,
{
    proof {
        chars@.index_of_last_ensures(c);
    }
    let mut i: usize = chars.len();
    while i > 0
        invariant
            i <= chars@.len(),
            forall|j: int| i <= j < chars@.len() ==> chars@[j] != c,
            match chars@.index_of_last(c) {
                Some(last) => chars@.contains(c) && 0 <= last < chars@.len() && chars@[last] == c
                    && forall|j: int| last < j < chars@.len() ==> chars@[j] != c,
                None => !chars@.contains(c),
            },
        decreases i,
    {
        i -= 1;
        if chars[i] == c {
            assert(chars@.contains(c));
            return Some(i);
        }
    }
    None
}

/// What stands before and after the first `c`, if `c` occurs.
pub fn cut_first(text: &str, c: char) -> (out: Option<(String, String)>)
    ensures
        split_first(text@, c) == match out {
            Some(cut) => Some((cut.0@, cut.1@)),
            None => None,
        },
{
    let chars = chars_of(text);
    match find_first(&chars, c) {
        Some(i) => {
            let end: usize = chars.len();
            let before = text_of(&chars, 0, i);
            let after = text_of(&chars, i + 1, end);
            assert(before@ =~= text@.take(i as int));
            assert(after@ =~= text@.skip(i + 1));
            Some((before, after))
        },
        None => None,
    }
}

/// What stands before and after the last `c`, if `c` occurs.
pub fn cut_last(text: &str, c: char) -> (out: Option<(String, String)>)
    ensures
        split_last(text@, c) == match out {
            Some(cut) => Some((cut.0@, cut.1@)),
            None => None,
        },
{
    let chars = chars_of(text);
    match find_last(&chars, c) {
        Some(i) => {
            let end: usize = chars.len();
            let before = text_of(&chars, 0, i);
            let after = text_of(&chars, i + 1, end);
            assert(before@ =~= text@.take(i as int));
            assert(after@ =~= text@.skip(i + 1));
            Some((before, after))
        },
        None => None,
    }
}

/// `text` without white space at either end.
pub fn trim(text: &str) -> (out: String)
    ensures
        out@ == trimmed(text@),
{
    let chars = chars_of(text);
    let mut from: usize = 0;
    assert(chars@.skip(0) =~= chars@);
    while from < chars.len() && white(chars[from])
        invariant
            from <= chars@.len(),
            trimmed_start(chars@) == trimmed_start(chars@.skip(from as int)),
        decreases chars@.len() - from,
    {
        assert(chars@.skip(from as int).drop_first() =~= chars@.skip(from + 1));
        from += 1;
    }
    let ghost rest = chars@.skip(from as int);
    assert(trimmed_start(chars@) == rest);
    let mut to: usize = chars.len();
    assert(chars@.subrange(from as int, to as int) =~= rest);
    while to > from && white(chars[to - 1])
        invariant
            from <= to <= chars@.len(),
            trimmed_end(rest) == trimmed_end(chars@.subrange(from as int, to as int)),
        decreases to,
    {
        assert(chars@.subrange(from as int, to as int).drop_last() =~= chars@.subrange(
            from as int,
            to - 1,
        ));
        to -= 1;
    }
    assert(trimmed_end(rest) == chars@.subrange(from as int, to as int));
    text_of(&chars, from, to)
}

/// `text` without the run of `c` it ends in.
pub fn trim_trailing(text: &str, c: char) -> (out: String)
    ensures
        out@ == without_trailing(text@, c),
{
    let chars = chars_of(text);
    let mut to: usize = chars.len();
    assert(chars@.take(to as int) =~= chars@);
    while to > 0 && chars[to - 1] == c
        invariant
            to <= chars@.len(),
            without_trailing(chars@, c) == without_trailing(chars@.take(to as int), c),
        decreases to,
    {
        assert(chars@.take(to as int).drop_last() =~= chars@.take(to - 1));
        to -= 1;
    }
    let out = text_of(&chars, 0, to);
    assert(out@ =~= chars@.take(to as int));
    out
}

/// The pieces of `text` between occurrences of `c`, in order.
pub fn split(text: &str, c: char) -> (out: Vec<String>)
    ensures
        views(out@) == pieces(text@, c),
        out@.len() >= 1,
{
    let chars = chars_of(text);
    let mut out: Vec<String> = Vec::new();
    let mut current = String::new();
    let mut i: usize = 0;
    assert(chars@.take(0) =~= seq![]);
    assert(views(out@).push(current@) =~= pieces(chars@.take(0), c));
    while i < chars.len()
        invariant
            i <= chars@.len(),
            views(out@).push(current@) == pieces(chars@.take(i as int), c),
        decreases chars@.len() - i,
    {
        let ghost before = pieces(chars@.take(i as int), c);
        assert(chars@.take(i + 1).drop_last() =~= chars@.take(i as int));
        let ghost had = out@;
        if chars[i] == c {
            out.push(current);
            current = String::new();
            assert(views(out@) =~= before);
            assert(current@ =~= seq![]);
        } else {
            let ghost was = current@;
            current.push(chars[i]);
            assert(before.last() == was);
            assert(before.drop_last() =~= views(out@));
        }
        i += 1;
    }
    assert(chars@.take(i as int) =~= chars@);
    let ghost before = out@;
    out.push(current);
    assert(views(out@) =~= views(before).push(current@));
    out
}

/// `parts` one after the other with `gap` between neighbours.
pub fn join(parts: &Vec<String>, gap: &str) -> (out: String)
    ensures
        out@ == joined(views(parts@), gap@),
{
    let mut out = String::new();
    let mut i: usize = 0;
    let ghost all = views(parts@);
    assert(out@ =~= joined(all.take(0), gap@));
    while i < parts.len()
        invariant
            i <= parts@.len(),
            all == views(parts@),
            out@ == joined(all.take(i as int), gap@),
        decreases parts@.len() - i,
    {
        assert(all.take(i + 1).drop_last() =~= all.take(i as int));
        assert(all.take(i + 1).last() == parts@[i as int]@);
        if i > 0 {
            out.append(gap);
        }
        out.append(parts[i].as_str());
        if i == 0 {
            assert(out@ =~= parts@[0]@);
        } else {
            assert(out@ =~= joined(all.take(i as int), gap@) + gap@ + parts@[i as int]@);
        }
        i += 1;
    }
    assert(all.take(i as int) =~= all);
    out
}

/// Whether `chars` holds `needle` at `at`.
fn run_at(chars: &Vec<char>, needle: &Vec<char>, at: usize) -> (out: bool)
    requires
        at + needle@.len() <= chars@.len(),
    ensures
        out == (chars@.subrange(at as int, at + needle@.len()) == needle@),
{
    let end: usize = chars.len();
    let mut i: usize = 0;
    while i < needle.len()
        invariant
            i <= needle@.len(),
            at + needle@.len() <= end == chars@.len(),
            forall|j: int| 0 <= j < i ==> chars@[at + j] == needle@[j],
        decreases needle@.len() - i,
    {
        if chars[at + i] != needle[i] {
            assert(chars@.subrange(at as int, at + needle@.len())[i as int] != needle@[i as int]);
            return false;
        }
        i += 1;
    }
    assert(chars@.subrange(at as int, at + needle@.len()) =~= needle@);
    true
}

/// Whether `text` holds `needle` as a run of neighbouring characters.
pub fn contains(text: &str, needle: &str) -> (out: bool)
    ensures
        out == holds_run(text@, needle@),
{
    let chars = chars_of(text);
    let run = chars_of(needle);
    if run.len() > chars.len() {
        return false;
    }
    let last: usize = chars.len() - run.len();
    let mut at: usize = 0;
    while at <= last
        invariant
            chars@ == text@,
            run@ == needle@,
            last == chars@.len() - run@.len(),
            at <= last + 1,
            forall|i: int|
                0 <= i < at ==> #[trigger] text@.subrange(i, i + needle@.len()) != needle@,
        decreases last + 1 - at,
    {
        if run_at(&chars, &run, at) {
            return true;
        }
        if at == last {
            assert(forall|i: int|
                0 <= i <= last ==> #[trigger] text@.subrange(i, i + needle@.len()) != needle@);
            return false;
        }
        at += 1;
    }
    false
}

/// What follows `prefix` in `text`, if `text` begins with it.
pub fn after_prefix(text: &str, prefix: &str) -> (out: Option<String>)
    ensures
        out is Some == prefix@.is_prefix_of(text@),
        out matches Some(rest) ==> rest@ == text@.skip(prefix@.len() as int),
{
    let chars = chars_of(text);
    let run = chars_of(prefix);
    if run.len() > chars.len() {
        return None;
    }
    if run_at(&chars, &run, 0) {
        let rest = text_of(&chars, run.len(), chars.len());
        assert(rest@ =~= text@.skip(prefix@.len() as int));
        Some(rest)
    } else {
        None
    }
}

/// Whether `text` ends in `c`.
pub fn ends_in(text: &str, c: char) -> (out: bool)
    ensures
        out == (text@.len() > 0 && text@.last() == c),
{
    let chars = chars_of(text);
    chars.len() > 0 && chars[chars.len() - 1] == c
}

/// `a` and `b`, one after the other.
pub fn glued(a: &str, b: &str) -> (out: String)
    ensures
        out@ == a@ + b@,
{
    let mut out = a.to_string();
    out.append(b);
    out
}

/// The decimal digit with value `value`.
pub fn digit_of(value: u128) -> (out: char)
    requires
        value < 10,
    ensures
        out == digit(value as nat),
{
    if value == 0 {
        '0'
    } else if value == 1 {
        '1'
    } else if value == 2 {
        '2'
    } else if value == 3 {
        '3'
    } else if value == 4 {
        '4'
    } else if value == 5 {
        '5'
    } else if value == 6 {
        '6'
    } else if value == 7 {
        '7'
    } else if value == 8 {
        '8'
    } else {
        '9'
    }
}

/// `value` in decimal.
pub fn decimal_of(value: u128) -> (out: String)
    ensures
        out@ == decimal(value as nat),
    decreases value,
{
    if value < 10 {
        let mut out = String::new();
        out.push(digit_of(value));
        assert(out@ =~= seq![digit(value as nat)]);
        out
    } else {
        let mut out = decimal_of(value / 10);
        out.push(digit_of(value % 10));
        out
    }
}

/// The value a line gives for `key`: what follows its first `=`, trimmed, where what
/// stands before it is `key`.
pub open spec fn line_value(line: Seq<char>, key: Seq<char>) -> Option<Seq<char>> {
    match split_first(line, '=') {
        Some((name, value)) => if trimmed(name) == key {
            Some(trimmed(value))
        } else {
            None
        },
        None => None,
    }
}

/// The value the last of the first `n` lines that names `key` gives for it.
pub open spec fn last_value(lines: Seq<Seq<char>>, key: Seq<char>, n: int) -> Option<Seq<char>>
    decreases n,
{
    if n <= 0 {
        None
    } else if line_value(lines[n - 1], key) is Some {
        line_value(lines[n - 1], key)
    } else {
        last_value(lines, key, n - 1)
    }
}

/// The value a text of `key=value` lines gives for `key`: the last line to name it
/// wins, and lines without an `=` are passed over.
pub open spec fn value_in(text: Seq<char>, key: Seq<char>) -> Option<Seq<char>> {
    let lines = pieces(text, '\n');
    last_value(lines, key, lines.len() as int)
}

/// The value a text of `key=value` lines gives for `key`.
pub fn find_value(text: &str, key: &str) -> (out: Option<String>)
    ensures
        value_in(text@, key@) == match out {
            Some(value) => Some(value@),
            None => None,
        },
{
    let lines = split(text, '\n');
    let ghost all = pieces(text@, '\n');
    let mut out: Option<String> = None;
    let mut i: usize = 0;
    while i < lines.len()
        invariant
            i <= lines@.len(),
            all == views(lines@),
            last_value(all, key@, i as int) == match out {
                Some(value) => Some(value@),
                None => None,
            },
        decreases lines@.len() - i,
    {
        assert(all[i as int] == lines@[i as int]@);
        match cut_first(lines[i].as_str(), '=') {
            Some((name, value)) => {
                if same(trim(name.as_str()).as_str(), key) {
                    out = Some(trim(value.as_str()));
                }
            },
            None => {},
        }
        i += 1;
    }
    out
}

/// A text without `c` is one piece.
pub proof fn lemma_one_piece(text: Seq<char>, c: char)
    requires
        !text.contains(c),
    ensures
        pieces(text, c) == seq![text],
    decreases text.len(),
{
    if text.len() > 0 {
        let front = text.drop_last();
        assert(!front.contains(c)) by {
            if front.contains(c) {
                let i = choose|i: int| 0 <= i < front.len() && front[i] == c;
                assert(text[i] == c);
            }
        }
        lemma_one_piece(front, c);
        assert(text.last() != c) by {
            assert(text[text.len() - 1] == text.last());
        }
        assert(front.push(text.last()) =~= text);
        assert(pieces(text, c) =~= seq![text]);
    }
}

/// There is always a piece.
pub proof fn lemma_some_piece(text: Seq<char>, c: char)
    ensures
        pieces(text, c).len() >= 1,
    decreases text.len(),
{
    if text.len() > 0 {
        lemma_some_piece(text.drop_last(), c);
    }
}

/// The pieces of two texts with `c` between them are those of the one and then those
/// of the other.
pub proof fn lemma_pieces_join(a: Seq<char>, c: char, b: Seq<char>)
    ensures
        pieces(a.push(c) + b, c) == pieces(a, c) + pieces(b, c),
    decreases b.len(),
{
    let whole = a.push(c) + b;
    if b.len() == 0 {
        assert(whole =~= a.push(c));
        assert(whole.drop_last() =~= a);
        assert(pieces(whole, c) =~= pieces(a, c).push(seq![]));
        assert(pieces(b, c) =~= seq![b]);
        assert(b =~= seq![]);
        assert(pieces(a, c).push(seq![]) =~= pieces(a, c) + pieces(b, c));
    } else {
        let front = b.drop_last();
        lemma_pieces_join(a, c, front);
        lemma_some_piece(front, c);
        assert(whole.drop_last() =~= a.push(c) + front);
        assert(whole.last() == b.last());
        let (x, y) = (pieces(a, c), pieces(front, c));
        if b.last() == c {
            assert((x + y).push(seq![]) =~= x + y.push(seq![]));
        } else {
            assert((x + y).drop_last() =~= x + y.drop_last());
            assert((x + y).last() == y.last());
            assert((x + y.drop_last()).push(y.last().push(b.last())) =~= x + y.drop_last().push(
                y.last().push(b.last()),
            ));
        }
    }
}

/// A line that starts with `key=` gives the rest of itself, trimmed, for `key`, where
/// `key` holds no `=` and no white space at its ends.
pub proof fn lemma_line_value(key: Seq<char>, value: Seq<char>)
    requires
        !key.contains('='),
        trimmed(key) == key,
    ensures
        line_value(key.push('=') + value, key) == Some(trimmed(value)),
{
    let line = key.push('=') + value;
    line.index_of_first_ensures('=');
    let at = key.len() as int;
    assert(line[at] == '=');
    assert(line.contains('='));
    let first = line.index_of_first('=')->0;
    assert(first == at) by {
        if first < at {
            assert(line[first] == key[first]);
            assert(key.contains('='));
        }
        if at < first {
            assert(line[at] != '=');
        }
    }
    assert(line.take(at) =~= key);
    assert(line.skip(at + 1) =~= value);
}

/// A line that starts with another key and `=` gives nothing for `key`.
pub proof fn lemma_other_line(other: Seq<char>, value: Seq<char>, key: Seq<char>)
    requires
        !other.contains('='),
        trimmed(other) == other,
        other != key,
    ensures
        line_value(other.push('=') + value, key) is None,
{
    lemma_line_value(other, value);
    let line = other.push('=') + value;
    line.index_of_first_ensures('=');
    let at = other.len() as int;
    assert(line[at] == '=');
    assert(line.contains('='));
    let first = line.index_of_first('=')->0;
    assert(first == at) by {
        if first < at {
            assert(line[first] == other[first]);
            assert(other.contains('='));
        }
        if at < first {
            assert(line[at] != '=');
        }
    }
    assert(line.take(at) =~= other);
}

/// A line in front of others leaves what they say of `key`, and speaks where they say
/// nothing.
proof fn lemma_last_value_after(line: Seq<char>, lines: Seq<Seq<char>>, key: Seq<char>, n: int)
    requires
        0 <= n <= lines.len(),
    ensures
        last_value(seq![line] + lines, key, n + 1) == if last_value(lines, key, n) is Some {
            last_value(lines, key, n)
        } else {
            line_value(line, key)
        },
    decreases n,
{
    let all = seq![line] + lines;
    assert(all[n] == if n == 0 {
        line
    } else {
        lines[n - 1]
    });
    if n > 0 {
        lemma_last_value_after(line, lines, key, n - 1);
    } else {
        assert(last_value(all, key, 0) is None);
    }
}

/// What a text gives for `key` where a line stands in front of it.
pub proof fn lemma_value_after_line(line: Seq<char>, rest: Seq<char>, key: Seq<char>)
    requires
        !line.contains('\n'),
    ensures
        value_in(line.push('\n') + rest, key) == if value_in(rest, key) is Some {
            value_in(rest, key)
        } else {
            line_value(line, key)
        },
{
    lemma_pieces_join(line, '\n', rest);
    lemma_one_piece(line, '\n');
    let lines = pieces(rest, '\n');
    lemma_last_value_after(line, lines, key, lines.len() as int);
}

/// An empty text gives nothing.
pub proof fn lemma_value_in_nothing(key: Seq<char>)
    ensures
        value_in(seq![], key) is None,
{
    let nothing = Seq::<char>::empty();
    nothing.index_of_first_ensures('=');
    reveal_with_fuel(last_value, 2);
    assert(pieces(nothing, '\n') =~= seq![nothing]);
    assert(line_value(nothing, key) is None);
}

/// The number that decimal digits stand for, the last the ones.
pub open spec fn read_back(digits: Seq<char>) -> int
    decreases digits.len(),
{
    if digits.len() == 0 {
        0
    } else {
        10 * read_back(digits.drop_last()) + (digits.last() as int - '0' as int)
    }
}

/// A number in decimal is made of digits, begins with no zero unless it is zero, and reads
/// back as the number.
pub proof fn law_decimals_read_back(value: nat)
    ensures
        read_back(decimal(value)) == value,
        decimal(value).len() > 0,
        forall|i: int|
            0 <= i < decimal(value).len() ==> '0' <= #[trigger] decimal(value)[i] && decimal(
                value,
            )[i] <= '9',
        decimal(value)[0] == '0' ==> value == 0,
    decreases value,
{
    if value < 10 {
        let digits = decimal(value);
        assert(digits.drop_last() =~= seq![]);
        assert(read_back(digits.drop_last()) == 0);
    } else {
        law_decimals_read_back(value / 10);
        let front = decimal(value / 10);
        assert(decimal(value).drop_last() =~= front);
        assert(decimal(value)[0] == front[0]);
        assert forall|i: int| 0 <= i < decimal(value).len() implies '0' <= #[trigger] decimal(
            value,
        )[i] && decimal(value)[i] <= '9' by {
            if i < front.len() {
                assert(decimal(value)[i] == front[i]);
            }
        }
    }
}

/// Trimming takes white space off both ends and nothing else: what is left neither begins
/// nor ends in it, and the text is white space, what is left, and white space.
pub proof fn law_trimming_takes_white_space_off_the_ends(text: Seq<char>)
    ensures
        ({
            let left = trimmed(text);
            &&& left.len() > 0 ==> !is_white(left[0]) && !is_white(left.last())
            &&& exists|i: int, j: int|
                {
                    &&& 0 <= i <= j <= text.len()
                    &&& left == #[trigger] text.subrange(i, j)
                    &&& forall|k: int| 0 <= k < i || j <= k < text.len() ==> is_white(
                        #[trigger] text[k],
                    )
                }
        }),
{
    let start = trimmed_start(text);
    let i = lemma_trimmed_start(text);
    let j = lemma_trimmed_end(start);
    let left = trimmed(text);
    assert(left =~= text.subrange(i, i + j));
    assert forall|k: int| 0 <= k < i || i + j <= k < text.len() implies is_white(
        #[trigger] text[k],
    ) by {
        if k >= i {
            assert(start[k - i] == text[k]);
        }
    }
    if left.len() > 0 {
        assert(left[0] == start[0]);
    }
}

proof fn lemma_trimmed_start(text: Seq<char>) -> (i: int)
    ensures
        0 <= i <= text.len(),
        trimmed_start(text) == text.skip(i),
        forall|k: int| 0 <= k < i ==> is_white(#[trigger] text[k]),
        i < text.len() ==> !is_white(text[i]),
    decreases text.len(),
{
    if text.len() > 0 && is_white(text[0]) {
        let rest = text.drop_first();
        let i = lemma_trimmed_start(rest);
        assert(rest.skip(i) =~= text.skip(i + 1));
        assert forall|k: int| 0 <= k < i + 1 implies is_white(#[trigger] text[k]) by {
            if k > 0 {
                assert(rest[k - 1] == text[k]);
            }
        }
        if i < rest.len() {
            assert(rest[i] == text[i + 1]);
        }
        i + 1
    } else {
        assert(text.skip(0) =~= text);
        0
    }
}

proof fn lemma_trimmed_end(text: Seq<char>) -> (j: int)
    ensures
        0 <= j <= text.len(),
        trimmed_end(text) == text.take(j),
        forall|k: int| j <= k < text.len() ==> is_white(#[trigger] text[k]),
        j > 0 ==> !is_white(text[j - 1]),
    decreases text.len(),
{
    if text.len() > 0 && is_white(text.last()) {
        let front = text.drop_last();
        let j = lemma_trimmed_end(front);
        assert(front.take(j) =~= text.take(j));
        assert forall|k: int| j <= k < text.len() implies is_white(#[trigger] text[k]) by {
            if k < front.len() {
                assert(front[k] == text[k]);
            }
        }
        j
    } else {
        assert(text.take(text.len() as int) =~= text);
        text.len() as int
    }
}

/// The pieces of a text, joined again, are the text, and none of them holds what parted
/// them.
pub proof fn law_pieces_join_to_the_text(text: Seq<char>, c: char)
    ensures
        joined(pieces(text, c), seq![c]) == text,
        forall|i: int|
            0 <= i < pieces(text, c).len() ==> !(#[trigger] pieces(text, c)[i]).contains(c),
    decreases text.len(),
{
    if text.len() > 0 {
        let front = text.drop_last();
        law_pieces_join_to_the_text(front, c);
        lemma_some_piece(front, c);
        let (before, all) = (pieces(front, c), pieces(text, c));
        if text.last() == c {
            assert(all.drop_last() =~= before);
            assert(front + seq![c] + seq![] =~= text);
            if before.len() == 0 {
                assert(false);
            }
        } else {
            assert(all.drop_last() =~= before.drop_last());
            let (old, new) = (before.last(), before.last().push(text.last()));
            if before.len() == 1 {
                assert(all[0] == new);
                assert(joined(before, seq![c]) == old);
                assert(new =~= text);
            } else {
                let lead = joined(before.drop_last(), seq![c]) + seq![c];
                assert(lead + new =~= (lead + old).push(text.last()));
                assert((lead + old).push(text.last()) =~= text);
            }
            assert(!new.contains(c)) by {
                if new.contains(c) {
                    let i = choose|i: int| 0 <= i < new.len() && new[i] == c;
                    if i < old.len() {
                        assert(old[i] == c);
                        assert(before[before.len() - 1].contains(c));
                    }
                }
            }
        }
        assert forall|i: int| 0 <= i < all.len() implies !(#[trigger] all[i]).contains(c) by {
            if i < all.len() - 1 {
                assert(all[i] == before[i]);
            }
        }
    } else {
        assert(joined(seq![text], seq![c]) == text);
        assert(pieces(text, c)[0] == text);
    }
}

/// The last line to name a key gives its value, whatever stands before it, with white space
/// around it left out.
pub proof fn law_the_last_line_wins(front: Seq<char>, key: Seq<char>, value: Seq<char>)
    requires
        !key.contains('='),
        !key.contains('\n'),
        !value.contains('\n'),
        trimmed(key) == key,
    ensures
        value_in(front.push('\n') + key.push('=') + value, key) == Some(trimmed(value)),
        value_in(key.push('=') + value, key) == Some(trimmed(value)),
{
    let line = key.push('=') + value;
    assert(!line.contains('\n')) by {
        if line.contains('\n') {
            let i = choose|i: int| 0 <= i < line.len() && line[i] == '\n';
            if i < key.len() {
                assert(key[i] == '\n');
            } else if i > key.len() {
                assert(value[i - key.len() - 1] == '\n');
            }
        }
    }
    let at = key.len() as int;
    line.index_of_first_ensures('=');
    assert(line[at] == '=');
    let first = line.index_of_first('=')->0;
    assert(first == at) by {
        if first < at {
            assert(key[first] == '=');
        }
        if at < first {
            assert(line[at] != '=');
        }
    }
    assert(line.take(at) =~= key);
    assert(line.skip(at + 1) =~= value);
    lemma_one_piece(line, '\n');
    lemma_pieces_join(front, '\n', line);
    let whole = front.push('\n') + key.push('=') + value;
    assert(whole =~= front.push('\n') + line);
    let lines = pieces(whole, '\n');
    assert(lines[lines.len() - 1] == line);
}

/// A text cut at a character comes together again. What stands before the first of them
/// holds none, and neither does what stands behind the last.
pub proof fn law_cutting_loses_just_the_character(text: Seq<char>, c: char)
    ensures
        split_first(text, c) is Some <==> text.contains(c),
        split_last(text, c) is Some <==> text.contains(c),
        split_first(text, c) matches Some((front, back)) ==> front + seq![c] + back == text
            && !front.contains(c),
        split_last(text, c) matches Some((front, back)) ==> front + seq![c] + back == text
            && !back.contains(c),
{
    text.index_of_first_ensures(c);
    text.index_of_last_ensures(c);
    if let Some(i) = text.index_of_first(c) {
        assert(text.take(i) + seq![c] + text.skip(i + 1) =~= text);
        if text.take(i).contains(c) {
            let k = choose|k: int| 0 <= k < text.take(i).len() && text.take(i)[k] == c;
            assert(text[k] == c);
        }
    }
    if let Some(i) = text.index_of_last(c) {
        assert(text.take(i) + seq![c] + text.skip(i + 1) =~= text);
        let back = text.skip(i + 1);
        if back.contains(c) {
            let k = choose|k: int| 0 <= k < back.len() && back[k] == c;
            assert(text[i + 1 + k] == c);
        }
    }
}

/// A text without its trailing characters is its beginning, ends in none of them, and lost
/// nothing else.
pub proof fn law_only_trailing_characters_go(text: Seq<char>, c: char, i: int)
    ensures
        without_trailing(text, c).is_prefix_of(text),
        without_trailing(text, c).len() > 0 ==> without_trailing(text, c).last() != c,
        without_trailing(text, c).len() <= i < text.len() ==> text[i] == c,
    decreases text.len(),
{
    let rest = without_trailing(text, c);
    if text.len() > 0 && text.last() == c {
        law_only_trailing_characters_go(text.drop_last(), c, i);
        assert(text.drop_last().subrange(0, rest.len() as int) =~= text.subrange(
            0,
            rest.len() as int,
        ));
    } else {
        assert(text.subrange(0, text.len() as int) =~= text);
    }
}

} // verus!
