//! Remember where the window was and what you were looking at.
//!
//! A tiny `key=value` file. A length is kept as the text that stands for it, and only a
//! text that reads as a number counts.

use crate::sirv;
use crate::sirv::{Environment, Platform};
use crate::text;
use crate::text::{chars_of, cut_first, find_value, text_of};
use vstd::prelude::*;

verus! {

/// What is remembered between runs.
#[derive(Debug, Default)]
pub struct Settings {
    pub width: Option<String>,
    pub height: Option<String>,
    pub folder: Option<String>,
}

/// `c` is a decimal digit.
pub open spec fn is_digit(c: char) -> bool {
    '0' <= c <= '9'
}

/// Every character is a decimal digit.
pub open spec fn all_digits(text: Seq<char>) -> bool {
    forall|i: int| 0 <= i < text.len() ==> is_digit(#[trigger] text[i])
}

/// Digits with at most one point among them, and at least one digit.
pub open spec fn is_plain(text: Seq<char>) -> bool {
    match text::split_first(text, '.') {
        Some((whole, part)) => all_digits(whole) && all_digits(part) && whole.len() + part.len()
            > 0,
        None => all_digits(text) && text.len() > 0,
    }
}

/// `text` without the sign in front of it.
pub open spec fn unsigned(text: Seq<char>) -> Seq<char> {
    if text.len() > 0 && (text[0] == '+' || text[0] == '-') {
        text.skip(1)
    } else {
        text
    }
}

/// Digits, with a sign in front or without.
pub open spec fn is_power(text: Seq<char>) -> bool {
    all_digits(unsigned(text)) && unsigned(text).len() > 0
}

/// A decimal number, with a power of ten behind an `e` or without.
pub open spec fn is_decimal(text: Seq<char>) -> bool {
    match text::split_first(text, 'e') {
        Some((number, power)) => is_plain(number) && is_power(power),
        None => match text::split_first(text, 'E') {
            Some((number, power)) => is_plain(number) && is_power(power),
            None => is_plain(text),
        },
    }
}

/// `text` is `word` in any mix of capitals.
pub open spec fn is_word(text: Seq<char>, word: Seq<char>) -> bool {
    &&& text.len() == word.len()
    &&& forall|i: int| 0 <= i < text.len() ==> crate::scan::small(#[trigger] text[i]) == word[i]
}

/// The text reads as a number: a decimal one, an infinite one or none at all, with a
/// sign in front or without.
pub open spec fn is_number(text: Seq<char>) -> bool {
    let body = unsigned(text);
    ||| is_word(body, "inf"@)
    ||| is_word(body, "infinity"@)
    ||| is_word(body, "nan"@)
    ||| is_decimal(body)
}

/// The value a text of `key=value` lines gives for `key`, where it is a number.
pub open spec fn number_in(text: Seq<char>, key: Seq<char>) -> Option<Seq<char>> {
    match text::value_in(text, key) {
        Some(value) => if is_number(value) {
            Some(value)
        } else {
            None
        },
        None => None,
    }
}

/// One `key=value` line, where there is a value.
pub open spec fn setting(key: Seq<char>, value: Option<Seq<char>>) -> Seq<char> {
    match value {
        Some(value) => key.push('=') + value.push('\n'),
        None => seq![],
    }
}

/// The text that settings are stored as.
pub open spec fn stored(
    width: Option<Seq<char>>,
    height: Option<Seq<char>>,
    folder: Option<Seq<char>>,
) -> Seq<char> {
    setting("width"@, width) + setting("height"@, height) + setting("folder"@, folder)
}

fn digits(text: &str) -> (out: bool)
    ensures
        out == all_digits(text@),
{
    let chars = chars_of(text);
    let mut i: usize = 0;
    while i < chars.len()
        invariant
            i <= chars@.len(),
            chars@ == text@,
            forall|j: int| 0 <= j < i ==> is_digit(#[trigger] text@[j]),
        decreases chars@.len() - i,
    {
        let c = chars[i];
        if !('0' <= c && c <= '9') {
            assert(!is_digit(text@[i as int]));
            return false;
        }
        i += 1;
    }
    true
}

fn some(text: &str) -> (out: bool)
    ensures
        out == (text@.len() > 0),
{
    chars_of(text).len() > 0
}

fn plain(text: &str) -> (out: bool)
    ensures
        out == is_plain(text@),
{
    match cut_first(text, '.') {
        Some((whole, part)) => digits(whole.as_str()) && digits(part.as_str()) && (some(
            whole.as_str(),
        ) || some(part.as_str())),
        None => digits(text) && some(text),
    }
}

fn without_sign(text: &str) -> (out: String)
    ensures
        out@ == unsigned(text@),
{
    let chars = chars_of(text);
    if chars.len() > 0 && (chars[0] == '+' || chars[0] == '-') {
        let out = text_of(&chars, 1, chars.len());
        assert(out@ =~= text@.skip(1));
        out
    } else {
        text.to_string()
    }
}

fn power(text: &str) -> (out: bool)
    ensures
        out == is_power(text@),
{
    let body = without_sign(text);
    digits(body.as_str()) && some(body.as_str())
}

fn decimal(text: &str) -> (out: bool)
    ensures
        out == is_decimal(text@),
{
    match cut_first(text, 'e') {
        Some((number, exponent)) => plain(number.as_str()) && power(exponent.as_str()),
        None => match cut_first(text, 'E') {
            Some((number, exponent)) => plain(number.as_str()) && power(exponent.as_str()),
            None => plain(text),
        },
    }
}

fn spells(text: &str, word: &str) -> (out: bool)
    ensures
        out == is_word(text@, word@),
{
    let chars = chars_of(text);
    let wanted = chars_of(word);
    if chars.len() != wanted.len() {
        return false;
    }
    let mut i: usize = 0;
    while i < chars.len()
        invariant
            i <= chars@.len() == wanted@.len(),
            chars@ == text@,
            wanted@ == word@,
            forall|j: int| 0 <= j < i ==> crate::scan::small(#[trigger] text@[j]) == word@[j],
        decreases chars@.len() - i,
    {
        let c = chars[i];
        let small = if 'A' <= c && c <= 'Z' {
            (c as u8 + 32) as char
        } else {
            c
        };
        if small != wanted[i] {
            assert(crate::scan::small(text@[i as int]) != word@[i as int]);
            return false;
        }
        i += 1;
    }
    true
}

/// Whether a text reads as a number.
pub fn reads_as_number(text: &str) -> (out: bool)
    ensures
        out == is_number(text@),
{
    let body = without_sign(text);
    let body = body.as_str();
    spells(body, "inf") || spells(body, "infinity") || spells(body, "nan") || decimal(body)
}

fn find_number(text: &str, key: &str) -> (out: Option<String>)
    ensures
        text::text_in(out) == number_in(text@, key@),
{
    match find_value(text, key) {
        Some(value) => if reads_as_number(value.as_str()) {
            Some(value)
        } else {
            None
        },
        None => None,
    }
}

/// Where the file lives on each platform, or nowhere when the environment gives nothing
/// usable.
pub fn path(platform: Platform, environment: &Environment) -> (out: Option<String>)
    ensures
        text::text_in(out) == match sirv::config_parts(platform, *environment) {
            Some(parts) => Some(sirv::stored_at(parts, "settings"@)),
            None => None,
        },
{
    match sirv::config_parts_of(platform, environment) {
        Some(parts) => Some(sirv::stored_at_of(parts, "settings")),
        None => None,
    }
}

/// What a stored file says, or the defaults where there is none.
pub fn load(contents: Option<&str>) -> (out: Settings)
    ensures
        match contents {
            Some(contents) => {
                &&& text::text_in(out.width) == number_in(contents@, "width"@)
                &&& text::text_in(out.height) == number_in(contents@, "height"@)
                &&& text::text_in(out.folder) == text::value_in(contents@, "folder"@)
            },
            None => out.width is None && out.height is None && out.folder is None,
        },
{
    match contents {
        Some(contents) => parse(contents),
        None => Settings { width: None, height: None, folder: None },
    }
}

/// What a stored text says. The last line to name a setting wins, a length that is no
/// number is left out, and lines that say nothing are passed over.
pub fn parse(text: &str) -> (out: Settings)
    ensures
        text::text_in(out.width) == number_in(text@, "width"@),
        text::text_in(out.height) == number_in(text@, "height"@),
        text::text_in(out.folder) == text::value_in(text@, "folder"@),
{
    Settings {
        width: find_number(text, "width"),
        height: find_number(text, "height"),
        folder: find_value(text, "folder"),
    }
}

fn line(key: &str, value: &Option<String>) -> (out: String)
    ensures
        out@ == setting(key@, text::text_in(*value)),
{
    match value {
        Some(value) => {
            let mut out = key.to_string();
            out.push('=');
            out.append(value.as_str());
            out.push('\n');
            assert(out@ =~= key@.push('=') + value@.push('\n'));
            out
        },
        None => String::new(),
    }
}

/// The text to store.
pub fn render(settings: &Settings) -> (out: String)
    ensures
        out@ == stored(
            text::text_in(settings.width),
            text::text_in(settings.height),
            text::text_in(settings.folder),
        ),
{
    let mut out = line("width", &settings.width);
    out.append(line("height", &settings.height).as_str());
    out.append(line("folder", &settings.folder).as_str());
    out
}

fn same_value(a: &Option<String>, b: &Option<String>) -> (out: bool)
    ensures
        out == (text::text_in(*a) == text::text_in(*b)),
{
    match (a, b) {
        (Some(a), Some(b)) => text::same(a.as_str(), b.as_str()),
        (None, None) => true,
        _ => false,
    }
}

/// The two settings say the same.
pub open spec fn are_same(a: Settings, b: Settings) -> bool {
    &&& text::text_in(a.width) == text::text_in(b.width)
    &&& text::text_in(a.height) == text::text_in(b.height)
    &&& text::text_in(a.folder) == text::text_in(b.folder)
}

/// What the window is to remember, and whether writing it is on its way.
///
/// Dragging a window edge changes the size on every frame. One delayed save collects
/// the whole drag and stores the size it ended at.
#[derive(Debug)]
pub struct Memory {
    pub settings: Settings,
    pub save_pending: bool,
}

impl Memory {
    /// Nothing to remember yet.
    pub fn new() -> (out: Self)
        ensures
            are_same(out.settings, (Settings { width: None, height: None, folder: None })),
            !out.save_pending,
    {
        Memory {
            settings: Settings { width: None, height: None, folder: None },
            save_pending: false,
        }
    }

    /// Remember `settings`. Whether a save has to be started: not while one is on its
    /// way, and not where nothing changed.
    pub fn remember(&mut self, settings: Settings) -> (out: bool)
        ensures
            are_same(settings, old(self).settings) ==> *final(self) == *old(self) && !out,
            !are_same(settings, old(self).settings) ==> {
                &&& final(self).settings == settings
                &&& final(self).save_pending
                &&& out == !old(self).save_pending
            },
    {
        if same_value(&settings.width, &self.settings.width) && same_value(
            &settings.height,
            &self.settings.height,
        ) && same_value(&settings.folder, &self.settings.folder) {
            return false;
        }
        self.settings = settings;
        let start = !self.save_pending;
        self.save_pending = true;
        start
    }

    /// The save is due: the text to write, of what is remembered by now.
    pub fn due(&mut self) -> (out: String)
        ensures
            *final(self) == (Memory { save_pending: false, ..*old(self) }),
            out@ == stored(
                text::text_in(old(self).settings.width),
                text::text_in(old(self).settings.height),
                text::text_in(old(self).settings.folder),
            ),
    {
        self.save_pending = false;
        render(&self.settings)
    }
}

/// A character that a number can hold: a digit, a point, a sign or a letter.
spec fn is_mark(c: char) -> bool {
    is_digit(c) || c == '.' || c == '+' || c == '-' || 'A' <= c <= 'Z' || 'a' <= c <= 'z'
}

spec fn all_marks(text: Seq<char>) -> bool {
    forall|i: int| 0 <= i < text.len() ==> is_mark(#[trigger] text[i])
}

/// A text cut at a mark is made of marks where both parts are.
proof fn lemma_marks_of_cut(text: Seq<char>, c: char)
    requires
        is_mark(c),
        text::split_first(text, c) matches Some((front, back)) ==> all_marks(front) && all_marks(
            back,
        ),
        text::split_first(text, c) is None ==> all_marks(text),
    ensures
        all_marks(text),
{
    text.index_of_first_ensures(c);
    if let Some(i) = text.index_of_first(c) {
        assert forall|k: int| 0 <= k < text.len() implies is_mark(#[trigger] text[k]) by {
            if k < i {
                assert(text.take(i)[k] == text[k]);
            } else if k > i {
                assert(text.skip(i + 1)[k - i - 1] == text[k]);
            }
        }
    }
}

proof fn lemma_marks_of_plain(text: Seq<char>)
    requires
        is_plain(text),
    ensures
        all_marks(text),
{
    lemma_marks_of_cut(text, '.');
}

proof fn lemma_marks_of_signed(text: Seq<char>)
    requires
        all_marks(unsigned(text)),
    ensures
        all_marks(text),
{
    if unsigned(text) != text {
        assert forall|k: int| 0 <= k < text.len() implies is_mark(#[trigger] text[k]) by {
            if k > 0 {
                assert(text.skip(1)[k - 1] == text[k]);
            }
        }
    }
}

/// A number holds no white space and no line break.
proof fn lemma_marks_of_number(text: Seq<char>)
    requires
        is_number(text),
    ensures
        !text.contains('\n'),
        text::trimmed(text) == text,
{
    reveal_strlit("inf");
    reveal_strlit("infinity");
    reveal_strlit("nan");
    let body = unsigned(text);
    assert(all_marks(body)) by {
        if is_decimal(body) {
            match text::split_first(body, 'e') {
                Some((number, power)) => {
                    lemma_marks_of_plain(number);
                    lemma_marks_of_signed(power);
                    lemma_marks_of_cut(body, 'e');
                },
                None => {
                    if let Some((number, power)) = text::split_first(body, 'E') {
                        lemma_marks_of_plain(number);
                        lemma_marks_of_signed(power);
                    } else {
                        lemma_marks_of_plain(body);
                    }
                    lemma_marks_of_cut(body, 'E');
                },
            }
        }
    }
    lemma_marks_of_signed(text);
    assert(forall|c: char| is_mark(c) ==> !text::is_white(c) && c != '\n');
}

/// What a text says of `key` with the line of a setting in front of it.
proof fn lemma_setting_in_front(
    name: Seq<char>,
    value: Option<Seq<char>>,
    rest: Seq<char>,
    key: Seq<char>,
)
    requires
        !name.contains('=') && !name.contains('\n') && text::trimmed(name) == name,
        value matches Some(value) ==> !value.contains('\n') && text::trimmed(value) == value,
    ensures
        text::value_in(setting(name, value) + rest, key) == if text::value_in(rest, key) is Some {
            text::value_in(rest, key)
        } else if name == key {
            value
        } else {
            None
        },
{
    match value {
        Some(value) => {
            let line = name.push('=') + value;
            assert(setting(name, Some(value)) + rest =~= line.push('\n') + rest);
            assert(!line.contains('\n')) by {
                if line.contains('\n') {
                    let i = choose|i: int| 0 <= i < line.len() && line[i] == '\n';
                    if i < name.len() {
                        assert(name[i] == '\n');
                    } else if i > name.len() {
                        assert(value[i - name.len() - 1] == '\n');
                    }
                }
            }
            text::lemma_value_after_line(line, rest, key);
            if name == key {
                text::lemma_line_value(name, value);
            } else {
                text::lemma_other_line(name, value, key);
            }
        },
        None => {
            assert(setting(name, value) + rest =~= rest);
        },
    }
}

/// Stored settings read back the same, as long as the lengths are numbers and the
/// folder neither spans lines nor begins or ends with white space.
pub proof fn law_stored_settings_read_back(
    width: Option<Seq<char>>,
    height: Option<Seq<char>>,
    folder: Option<Seq<char>>,
)
    requires
        width matches Some(width) ==> is_number(width),
        height matches Some(height) ==> is_number(height),
        folder matches Some(folder) ==> !folder.contains('\n') && text::trimmed(folder) == folder,
    ensures
        number_in(stored(width, height, folder), "width"@) == width,
        number_in(stored(width, height, folder), "height"@) == height,
        text::value_in(stored(width, height, folder), "folder"@) == folder,
{
    reveal_strlit("width");
    reveal_strlit("height");
    reveal_strlit("folder");
    if let Some(width) = width {
        lemma_marks_of_number(width);
    }
    if let Some(height) = height {
        lemma_marks_of_number(height);
    }
    let (w, h, f) = ("width"@, "height"@, "folder"@);
    assert(w[0] == 'w' && h[0] == 'h' && f[0] == 'f');
    let nothing = Seq::<char>::empty();
    let last = setting(f, folder) + nothing;
    let middle = setting(h, height) + last;
    let whole = setting(w, width) + middle;
    assert(whole =~= stored(width, height, folder));
    assert forall|key: Seq<char>| key == w || key == h || key == f implies #[trigger] text::value_in(
        whole,
        key,
    ) == if key == w {
        width
    } else if key == h {
        height
    } else {
        folder
    } by {
        text::lemma_value_in_nothing(key);
        lemma_setting_in_front(f, folder, nothing, key);
        lemma_setting_in_front(h, height, last, key);
        lemma_setting_in_front(w, width, middle, key);
    }
    assert(text::value_in(whole, w) == width);
    assert(text::value_in(whole, h) == height);
    assert(text::value_in(whole, f) == folder);
}

/// A whole number in decimal is kept as a setting, with a sign in front or without; a text
/// that holds a line break never is.
pub proof fn law_numbers_are_kept(value: nat, text: Seq<char>)
    requires
        text.contains('\n'),
    ensures
        is_number(text::decimal(value)),
        is_number(seq!['-'] + text::decimal(value)),
        !is_number(text),
{
    let digits = text::decimal(value);
    text::law_decimals_read_back(value);
    assert(all_digits(digits));
    assert(!digits.contains('e') && !digits.contains('E') && !digits.contains('.')) by {
        if digits.contains('e') {
            let i = choose|i: int| 0 <= i < digits.len() && digits[i] == 'e';
            assert(is_digit(digits[i]));
        }
        if digits.contains('E') {
            let i = choose|i: int| 0 <= i < digits.len() && digits[i] == 'E';
            assert(is_digit(digits[i]));
        }
        if digits.contains('.') {
            let i = choose|i: int| 0 <= i < digits.len() && digits[i] == '.';
            assert(is_digit(digits[i]));
        }
    }
    digits.index_of_first_ensures('e');
    digits.index_of_first_ensures('E');
    digits.index_of_first_ensures('.');
    assert(is_digit(digits[0]));
    let signed = seq!['-'] + digits;
    assert(signed.skip(1) =~= digits);
    if is_number(text) {
        lemma_marks_of_number(text);
    }
}

} // verus!
