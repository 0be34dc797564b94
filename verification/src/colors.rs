//! The color scheme: `#rrggbb` colors read from the lines of a colorscheme
//! text, with a default for each color that the text does not set.
use vstd::prelude::*;
use vstd::utf8::{encode_utf8, is_char_boundary};

use crate::text::{chars_of, is_white_space, is_white_space_char, trim, trim_str};

verus! {

/// A color as red, green and blue bytes.
#[derive(Debug, Clone, Copy, PartialEq, Eq, Structural)]
pub struct Rgb {
    pub red: u8,
    pub green: u8,
    pub blue: u8,
}

/// The colors of the application.
#[derive(Debug, Clone, Copy, PartialEq, Eq, Structural)]
pub struct ColorScheme {
    pub background: Rgb,
    pub text: Rgb,
    pub primary: Rgb,
    pub success: Rgb,
    pub warning: Rgb,
    pub danger: Rgb,
}

// ---------------------------------------------------------------------------
// Specifications
// ---------------------------------------------------------------------------

/// The value of an ASCII hexadecimal digit.
pub open spec fn hex_digit_value(b: u8) -> Option<u8> {
    if 0x30 <= b <= 0x39 {
        Some((b - 0x30) as u8)
    } else if 0x61 <= b <= 0x66 {
        Some((b - 0x61 + 10) as u8)
    } else if 0x41 <= b <= 0x46 {
        Some((b - 0x41 + 10) as u8)
    } else {
        None
    }
}

/// `u8::from_str_radix(_, 16)` on two bytes: two hexadecimal digits, or `+`
/// and one digit.
pub open spec fn hex_pair_value(a: u8, b: u8) -> Option<u8> {
    if a == 0x2b {
        hex_digit_value(b)
    } else {
        match (hex_digit_value(a), hex_digit_value(b)) {
            (Some(x), Some(y)) => Some((x * 16 + y) as u8),
            _ => None,
        }
    }
}

/// The index of the first white space in `s`, or its length when there is none.
pub open spec fn first_white_index(s: Seq<char>) -> int
    decreases s.len(),
{
    if s.len() == 0 {
        0
    } else if is_white_space(s[0]) {
        0
    } else {
        1 + first_white_index(s.drop_first())
    }
}

/// The index of the first `c` in `s`, or -1 when there is none.
pub open spec fn first_index_of(s: Seq<char>, c: char) -> int
    decreases s.len(),
{
    if s.len() == 0 {
        -1
    } else if s[0] == c {
        0
    } else {
        let r = first_index_of(s.drop_first(), c);
        if r < 0 {
            -1
        } else {
            r + 1
        }
    }
}

/// The hexadecimal part of a color value: its first word, without a leading `#`.
pub open spec fn hex_part(raw: Seq<char>) -> Seq<char> {
    let t = trim(raw);
    let token = t.take(first_white_index(t));
    if token.len() > 0 && token[0] == '#' {
        token.drop_first()
    } else {
        token
    }
}

/// The color that a value such as `#1a2b3c` or `1a2b3c extra words` names.
pub open spec fn hex_color_of(raw: Seq<char>) -> Option<Rgb> {
    let b = encode_utf8(hex_part(raw));
    if b.len() != 6 {
        None
    } else {
        match (hex_pair_value(b[0], b[1]), hex_pair_value(b[2], b[3]), hex_pair_value(b[4], b[5])) {
            (Some(r), Some(g), Some(bl)) => Some(Rgb { red: r, green: g, blue: bl }),
            _ => None,
        }
    }
}

/// The hexadecimal part, when six bytes long, can be read pair by pair
/// without splitting a character: the first pair always ends on a character
/// boundary, and the second does too when the first pair is a number (the
/// second pair is only cut out then).
pub open spec fn hex_slices_cleanly(raw: Seq<char>) -> bool {
    let b = encode_utf8(hex_part(raw));
    b.len() == 6 ==> is_char_boundary(b, 2) && (hex_pair_value(b[0], b[1]) is Some ==> is_char_boundary(b, 4))
}

/// The lines of a text (`str::lines`): split at `\n`, a `\r` before the `\n`
/// dropped, no empty line after a final line break.
pub open spec fn lines_of(s: Seq<char>) -> Seq<Seq<char>>
    decreases s.len(),
{
    if s.len() == 0 {
        Seq::empty()
    } else {
        let i = first_index_of(s, '\n');
        if i < 0 {
            seq![s]
        } else {
            let line = s.take(i);
            let line = if line.len() > 0 && line.last() == '\r' {
                line.drop_last()
            } else {
                line
            };
            proof {
                lemma_first_index_of_bounds(s, '\n');
            }
            seq![line] + lines_of(s.skip(i + 1))
        }
    }
}

/// The key of a `key: value` line, trimmed.
pub open spec fn line_key(line: Seq<char>) -> Seq<char> {
    trim(line.take(first_index_of(line, ':')))
}

/// The value of a `key: value` line, trimmed.
pub open spec fn line_value(line: Seq<char>) -> Seq<char> {
    trim(line.skip(first_index_of(line, ':') + 1))
}

/// The key and color that a line sets, if it has a `:` and a color after it.
pub open spec fn line_color(line: Seq<char>) -> Option<(Seq<char>, Rgb)> {
    if first_index_of(line, ':') < 0 {
        None
    } else {
        match hex_color_of(line_value(line)) {
            Some(c) => Some((line_key(line), c)),
            None => None,
        }
    }
}

/// Every line with a `:` has a value whose color can be read without
/// splitting a character.
pub open spec fn lines_slice_cleanly(lines: Seq<Seq<char>>) -> bool {
    forall|i: int|
        0 <= i < lines.len() && first_index_of(#[trigger] lines[i], ':') >= 0 ==> hex_slices_cleanly(
            line_value(lines[i]),
        )
}

/// The color that the last line setting `key` sets.
pub open spec fn last_color_for(lines: Seq<Seq<char>>, key: Seq<char>) -> Option<Rgb>
    decreases lines.len(),
{
    if lines.len() == 0 {
        None
    } else {
        match line_color(lines.last()) {
            Some((k, c)) => if k == key {
                Some(c)
            } else {
                last_color_for(lines.drop_last(), key)
            },
            None => last_color_for(lines.drop_last(), key),
        }
    }
}

pub open spec fn or_default(c: Option<Rgb>, d: Rgb) -> Rgb {
    match c {
        Some(x) => x,
        None => d,
    }
}

/// The default colors.
pub open spec fn default_scheme() -> ColorScheme {
    ColorScheme {
        background: Rgb { red: 0x16, green: 0x13, blue: 0x20 },
        text: Rgb { red: 255, green: 255, blue: 255 },
        primary: Rgb { red: 77, green: 142, blue: 250 },
        success: Rgb { red: 114, green: 217, blue: 138 },
        warning: Rgb { red: 242, green: 221, blue: 31 },
        danger: Rgb { red: 225, green: 81, blue: 104 },
    }
}

/// The colors that a colorscheme text sets: the last valid line for each key
/// wins; `Main text dark` is preferred to `Dark base` for the background; the
/// text color is always the default.
pub open spec fn scheme_of(content: Seq<char>) -> ColorScheme {
    let lines = lines_of(content);
    let d = default_scheme();
    ColorScheme {
        background: match last_color_for(lines, "Main text dark"@) {
            Some(c) => c,
            None => or_default(last_color_for(lines, "Dark base"@), d.background),
        },
        text: d.text,
        primary: or_default(last_color_for(lines, "Blue"@), d.primary),
        success: or_default(last_color_for(lines, "Green"@), d.success),
        warning: or_default(last_color_for(lines, "Warning yellow"@), d.warning),
        danger: or_default(last_color_for(lines, "Critical red"@), d.danger),
    }
}

// ---------------------------------------------------------------------------
// Lemmas
// ---------------------------------------------------------------------------

pub proof fn lemma_first_index_of_bounds(s: Seq<char>, c: char)
    ensures
        -1 <= first_index_of(s, c) < s.len(),
        first_index_of(s, c) >= 0 ==> s[first_index_of(s, c)] == c,
        forall|i: int|
            0 <= i < (if first_index_of(s, c) < 0 {
                s.len() as int
            } else {
                first_index_of(s, c)
            }) ==> s[i] != c,
    decreases s.len(),
{
    if s.len() > 0 && s[0] != c {
        lemma_first_index_of_bounds(s.drop_first(), c);
        assert forall|i: int|
            0 <= i < (if first_index_of(s, c) < 0 {
                s.len() as int
            } else {
                first_index_of(s, c)
            }) implies s[i] != c by {
            if i > 0 {
                assert(s[i] == s.drop_first()[i - 1]);
            }
        }
    }
}

pub proof fn lemma_first_index_of(s: Seq<char>, c: char, k: int)
    requires
        -1 <= k < s.len(),
        k >= 0 ==> s[k] == c,
        forall|i: int| 0 <= i < (if k < 0 {
            s.len() as int
        } else {
            k
        }) ==> s[i] != c,
    ensures
        first_index_of(s, c) == k,
    decreases s.len(),
{
    if s.len() > 0 && s[0] != c {
        let t = s.drop_first();
        assert forall|i: int| 0 <= i < (if k < 0 {
            t.len() as int
        } else {
            k - 1
        }) implies t[i] != c by {
            assert(t[i] == s[i + 1]);
        }
        lemma_first_index_of(t, c, if k < 0 {
            -1
        } else {
            k - 1
        });
    }
}

pub proof fn lemma_first_white_index(s: Seq<char>, k: int)
    requires
        0 <= k <= s.len(),
        k < s.len() ==> is_white_space(s[k]),
        forall|i: int| 0 <= i < k ==> !is_white_space(s[i]),
    ensures
        first_white_index(s) == k,
    decreases s.len(),
{
    if s.len() > 0 && !is_white_space(s[0]) {
        let t = s.drop_first();
        assert forall|i: int| 0 <= i < k - 1 implies !is_white_space(t[i]) by {
            assert(t[i] == s[i + 1]);
        }
        lemma_first_white_index(t, k - 1);
    }
}

// ---------------------------------------------------------------------------
// Executable parsing
// ---------------------------------------------------------------------------

fn hex_digit(b: u8) -> (res: Option<u8>)
    ensures
        res == hex_digit_value(b),
{
    if 0x30 <= b && b <= 0x39 {
        Some(b - 0x30)
    } else if 0x61 <= b && b <= 0x66 {
        Some(b - 0x61 + 10)
    } else if 0x41 <= b && b <= 0x46 {
        Some(b - 0x41 + 10)
    } else {
        None
    }
}

fn hex_pair(a: u8, b: u8) -> (res: Option<u8>)
    ensures
        res == hex_pair_value(a, b),
{
    if a == 0x2b {
        hex_digit(b)
    } else {
        match (hex_digit(a), hex_digit(b)) {
            (Some(x), Some(y)) => Some(x * 16 + y),
            _ => None,
        }
    }
}

/// The hexadecimal part of a color value.
fn hex_part_of<'a>(raw: &'a str) -> (res: &'a str)
    ensures
        res@ == hex_part(raw@),
{
    let t = trim_str(raw);
    let cs = chars_of(t);
    let mut k: usize = 0;
    while k < cs.len() && !is_white_space_char(cs[k])
        invariant
            cs@ == t@,
            0 <= k <= cs@.len(),
            forall|i: int| 0 <= i < k ==> !is_white_space(cs@[i]),
        decreases cs@.len() - k,
    {
        k = k + 1;
    }
    proof {
        lemma_first_white_index(t@, k as int);
    }
    let token = t.substring_char(0, k);
    if k > 0 && cs[0] == '#' {
        assert(token@[0] == cs@[0]);
        let res = token.substring_char(1, k);
        assert(res@ =~= token@.drop_first());
        res
    } else {
        token
    }
}

/// The color that a value such as `#1a2b3c` names: its first word, without a
/// leading `#`, must be six hexadecimal digits (each pair may also be `+` and
/// one digit).
pub fn parse_hex_color(raw: &str) -> (res: Option<Rgb>)
    requires
        hex_slices_cleanly(raw@),
    ensures
        res == hex_color_of(raw@),
{
    let hex = hex_part_of(raw);
    let b = hex.as_bytes();
    if b.len() != 6 {
        return None;
    }
    let red = hex_pair(b[0], b[1]);
    let green = hex_pair(b[2], b[3]);
    let blue = hex_pair(b[4], b[5]);
    match (red, green, blue) {
        (Some(r), Some(g), Some(bl)) => Some(Rgb { red: r, green: g, blue: bl }),
        _ => None,
    }
}

/// Whether `parse_hex_color` can read `raw` without cutting a character in two.
pub fn hex_color_slices_cleanly(raw: &str) -> (res: bool)
    ensures
        res == hex_slices_cleanly(raw@),
{
    let hex = hex_part_of(raw);
    let b = hex.as_bytes();
    if b.len() != 6 {
        return true;
    }
    if !hex.is_char_boundary(2) {
        return false;
    }
    match hex_pair(b[0], b[1]) {
        Some(_) => hex.is_char_boundary(4),
        None => true,
    }
}

/// The color that `raw` names, or `fallback`.
pub fn hex_or_default(raw: &str, fallback: Rgb) -> (res: Rgb)
    requires
        hex_slices_cleanly(raw@),
    ensures
        res == or_default(hex_color_of(raw@), fallback),
{
    match parse_hex_color(raw) {
        Some(c) => c,
        None => fallback,
    }
}

/// The default colors.
pub fn default_colors() -> (res: ColorScheme)
    ensures
        res == default_scheme(),
{
    ColorScheme {
        background: Rgb { red: 0x16, green: 0x13, blue: 0x20 },
        text: Rgb { red: 255, green: 255, blue: 255 },
        primary: Rgb { red: 77, green: 142, blue: 250 },
        success: Rgb { red: 114, green: 217, blue: 138 },
        warning: Rgb { red: 242, green: 221, blue: 31 },
        danger: Rgb { red: 225, green: 81, blue: 104 },
    }
}


/// The index of the first `c` in `cs[lo..hi]`.
fn find_in(cs: &Vec<char>, c: char, lo: usize, hi: usize) -> (res: Option<usize>)
    requires
        lo <= hi <= cs@.len(),
    ensures
        match res {
            Some(k) => lo <= k < hi && k - lo == first_index_of(cs@.subrange(lo as int, hi as int), c),
            None => first_index_of(cs@.subrange(lo as int, hi as int), c) == -1,
        },
{
    let mut i: usize = lo;
    while i < hi
        invariant
            lo <= i <= hi <= cs@.len(),
            forall|k: int| lo <= k < i ==> cs@[k] != c,
        decreases hi - i,
    {
        if cs[i] == c {
            proof {
                lemma_first_index_of(cs@.subrange(lo as int, hi as int), c, i - lo);
            }
            return Some(i);
        }
        i = i + 1;
    }
    proof {
        lemma_first_index_of(cs@.subrange(lo as int, hi as int), c, -1);
    }
    None
}

fn key_is(key: &String, name: &str) -> (res: bool)
    ensures
        res == (key@ == name@),
{
    *key == name.to_owned()
}

/// The six colors that lines can set, as the lines read so far set them.
struct SchemeLines {
    dark_base: Option<Rgb>,
    main_text_dark: Option<Rgb>,
    blue: Option<Rgb>,
    green: Option<Rgb>,
    yellow: Option<Rgb>,
    red: Option<Rgb>,
}

spec fn scheme_lines_match(s: SchemeLines, lines: Seq<Seq<char>>) -> bool {
    &&& s.dark_base == last_color_for(lines, "Dark base"@)
    &&& s.main_text_dark == last_color_for(lines, "Main text dark"@)
    &&& s.blue == last_color_for(lines, "Blue"@)
    &&& s.green == last_color_for(lines, "Green"@)
    &&& s.yellow == last_color_for(lines, "Warning yellow"@)
    &&& s.red == last_color_for(lines, "Critical red"@)
}

proof fn lemma_last_color_push(lines: Seq<Seq<char>>, line: Seq<char>, key: Seq<char>)
    ensures
        last_color_for(lines.push(line), key) == (match line_color(line) {
            Some((k, c)) => if k == key {
                Some(c)
            } else {
                last_color_for(lines, key)
            },
            None => last_color_for(lines, key),
        }),
{
    assert(lines.push(line).drop_last() =~= lines);
}

/// Reads the line `cs[a..b]` of `content` into `s`; false when the line's
/// color value would be cut inside a character.
fn scan_line(content: &str, cs: &Vec<char>, a: usize, b: usize, s: &mut SchemeLines, Ghost(done): Ghost<Seq<Seq<char>>>) -> (res: bool)
    requires
        cs@ == content@,
        a <= b <= cs@.len(),
        scheme_lines_match(*old(s), done),
    ensures
        res == (first_index_of(cs@.subrange(a as int, b as int), ':') >= 0 ==> hex_slices_cleanly(
            line_value(cs@.subrange(a as int, b as int)),
        )),
        res ==> scheme_lines_match(*final(s), done.push(cs@.subrange(a as int, b as int))),
{
    let ghost line = cs@.subrange(a as int, b as int);
    proof {
        reveal_strlit("Dark base");
        reveal_strlit("Main text dark");
        reveal_strlit("Blue");
        reveal_strlit("Green");
        reveal_strlit("Warning yellow");
        reveal_strlit("Critical red");
        assert("Main text dark"@[0] != "Warning yellow"@[0]);
        assert("Main text dark"@ != "Warning yellow"@);
        assert("Blue"@[0] != "Green"@[0]);
        assert("Dark base"@.len() != "Main text dark"@.len());
        assert("Critical red"@.len() != "Main text dark"@.len());
        lemma_last_color_push(done, line, "Dark base"@);
        lemma_last_color_push(done, line, "Main text dark"@);
        lemma_last_color_push(done, line, "Blue"@);
        lemma_last_color_push(done, line, "Green"@);
        lemma_last_color_push(done, line, "Warning yellow"@);
        lemma_last_color_push(done, line, "Critical red"@);
    }
    match find_in(cs, ':', a, b) {
        None => true,
        Some(c) => {
            assert(line.skip(c - a + 1) =~= cs@.subrange(c + 1, b as int));
            assert(line.take(c - a) =~= cs@.subrange(a as int, c as int));
            let value = trim_str(content.substring_char(c + 1, b));
            if !hex_color_slices_cleanly(value) {
                return false;
            }
            match parse_hex_color(value) {
                None => true,
                Some(color) => {
                    let key = trim_str(content.substring_char(a, c)).to_owned();
                    assert(line_key(line) == key@);
                    assert(line_color(line) == Some((key@, color)));
                    if key_is(&key, "Dark base") {
                        s.dark_base = Some(color);
                    } else if key_is(&key, "Main text dark") {
                        s.main_text_dark = Some(color);
                    } else if key_is(&key, "Blue") {
                        s.blue = Some(color);
                    } else if key_is(&key, "Green") {
                        s.green = Some(color);
                    } else if key_is(&key, "Warning yellow") {
                        s.yellow = Some(color);
                    } else if key_is(&key, "Critical red") {
                        s.red = Some(color);
                    }
                    true
                },
            }
        },
    }
}

/// Reads a colorscheme text: whether every color value can be read without
/// cutting a character in two, and if so the colors it sets.
fn scan_colorscheme(content: &str) -> (res: (bool, ColorScheme))
    ensures
        res.0 == lines_slice_cleanly(lines_of(content@)),
        res.0 ==> res.1 == scheme_of(content@),
{
    let cs = chars_of(content);
    let n = cs.len();
    let mut s = SchemeLines {
        dark_base: None,
        main_text_dark: None,
        blue: None,
        green: None,
        yellow: None,
        red: None,
    };
    let mut start: usize = 0;
    let ghost mut done: Seq<Seq<char>> = Seq::empty();
    assert(content@.skip(0) =~= content@);
    assert(done + lines_of(content@.skip(0)) =~= lines_of(content@));
    while start < n
        invariant
            cs@ == content@,
            n == cs@.len(),
            0 <= start <= n,
            lines_of(content@) == done + lines_of(content@.skip(start as int)),
            lines_slice_cleanly(done),
            scheme_lines_match(s, done),
        decreases n - start,
    {
        let ghost rest = content@.skip(start as int);
        assert(cs@.subrange(start as int, n as int) =~= rest);
        let nl = find_in(&cs, '\n', start, n);
        let (line_end, next) = match nl {
            Some(k) => {
                if k > start && cs[k - 1] == '\r' {
                    (k - 1, k + 1)
                } else {
                    (k, k + 1)
                }
            },
            None => (n, n),
        };
        let ghost line = cs@.subrange(start as int, line_end as int);
        proof {
            match nl {
                Some(k) => {
                    let i = k - start;
                    assert(rest.take(i) =~= cs@.subrange(start as int, k as int));
                    if k > start && cs@[k - 1] == '\r' {
                        assert(rest.take(i).drop_last() =~= line);
                    }
                    assert(rest.skip(i + 1) =~= content@.skip(next as int));
                    assert(lines_of(rest) == seq![line] + lines_of(content@.skip(next as int)));
                },
                None => {
                    assert(line =~= rest);
                    assert(content@.skip(n as int) =~= Seq::<char>::empty());
                    assert(lines_of(rest) == seq![line]);
                    assert(lines_of(content@.skip(next as int)) == Seq::<Seq<char>>::empty());
                },
            }
            assert(done + lines_of(rest) =~= done.push(line) + lines_of(content@.skip(next as int)));
        }
        let ok = scan_line(content, &cs, start, line_end, &mut s, Ghost(done));
        if !ok {
            proof {
                let all = lines_of(content@);
                assert(all[done.len() as int] == line);
                assert(!lines_slice_cleanly(all));
            }
            return (false, default_colors());
        }
        proof {
            assert forall|i: int|
                0 <= i < done.push(line).len() && first_index_of(#[trigger] done.push(line)[i], ':')
                    >= 0 implies hex_slices_cleanly(line_value(done.push(line)[i])) by {
                if i < done.len() {
                    assert(done.push(line)[i] == done[i]);
                }
            }
            done = done.push(line);
        }
        start = next;
    }
    proof {
        assert(content@.skip(n as int) =~= Seq::<char>::empty());
        assert(done =~= lines_of(content@));
    }
    let d = default_colors();
    let background = match s.main_text_dark {
        Some(c) => c,
        None => match s.dark_base {
            Some(c) => c,
            None => d.background,
        },
    };
    let scheme = ColorScheme {
        background,
        text: d.text,
        primary: match s.blue {
            Some(c) => c,
            None => d.primary,
        },
        success: match s.green {
            Some(c) => c,
            None => d.success,
        },
        warning: match s.yellow {
            Some(c) => c,
            None => d.warning,
        },
        danger: match s.red {
            Some(c) => c,
            None => d.danger,
        },
    };
    (true, scheme)
}

/// Whether every color value in a colorscheme text can be read without
/// cutting a character in two.
pub fn colorscheme_slices_cleanly(content: &str) -> (res: bool)
    ensures
        res == lines_slice_cleanly(lines_of(content@)),
{
    scan_colorscheme(content).0
}

/// The colors that a colorscheme text sets, over the defaults.
pub fn colors_from_scheme(content: &str) -> (res: ColorScheme)
    requires
        lines_slice_cleanly(lines_of(content@)),
    ensures
        res == scheme_of(content@),
{
    scan_colorscheme(content).1
}


/// A line that sets no color leaves every color as the lines before it set it.
pub proof fn lemma_colorless_lines(lines: Seq<Seq<char>>, key: Seq<char>)
    requires
        forall|i: int| 0 <= i < lines.len() ==> line_color(#[trigger] lines[i]) is None,
    ensures
        last_color_for(lines, key) is None,
    decreases lines.len(),
{
    if lines.len() > 0 {
        assert(line_color(lines[lines.len() - 1]) is None);
        assert forall|i: int| 0 <= i < lines.drop_last().len() implies line_color(#[trigger] lines.drop_last()[i]) is None by {
            assert(lines.drop_last()[i] == lines[i]);
        }
        lemma_colorless_lines(lines.drop_last(), key);
    }
}

/// A text none of whose lines sets a color gives the default colors.
pub proof fn lemma_colorless_text_gives_defaults(content: Seq<char>)
    requires
        forall|i: int| 0 <= i < lines_of(content).len() ==> line_color(#[trigger] lines_of(content)[i]) is None,
    ensures
        scheme_of(content) == default_scheme(),
{
    let lines = lines_of(content);
    lemma_colorless_lines(lines, "Main text dark"@);
    lemma_colorless_lines(lines, "Dark base"@);
    lemma_colorless_lines(lines, "Blue"@);
    lemma_colorless_lines(lines, "Green"@);
    lemma_colorless_lines(lines, "Warning yellow"@);
    lemma_colorless_lines(lines, "Critical red"@);
}

/// The lowercase hexadecimal digit for `n` (below 16), as an ASCII byte.
pub open spec fn lower_hex_digit(n: u8) -> u8 {
    if n < 10 {
        (0x30 + n) as u8
    } else {
        (0x61 + n - 10) as u8
    }
}

/// The uppercase hexadecimal digit for `n` (below 16), as an ASCII byte.
pub open spec fn upper_hex_digit(n: u8) -> u8 {
    if n < 10 {
        (0x30 + n) as u8
    } else {
        (0x41 + n - 10) as u8
    }
}

/// `v` written as two lowercase hexadecimal digits.
pub open spec fn hex_text(v: u8) -> Seq<char> {
    seq![lower_hex_digit(v / 16) as char, lower_hex_digit(v % 16) as char]
}

/// Every hexadecimal digit, `0` to `9`, `a` to `f` and `A` to `F`, reads as
/// its value.
pub proof fn lemma_hex_digits_read_back(n: u8)
    requires
        n < 16,
    ensures
        hex_digit_value(lower_hex_digit(n)) == Some(n),
        hex_digit_value(upper_hex_digit(n)) == Some(n),
{
}

/// Every byte written as two hexadecimal digits, in either case, reads back
/// as itself.
pub proof fn lemma_hex_pair_round_trip(v: u8)
    ensures
        hex_pair_value(lower_hex_digit(v / 16), lower_hex_digit(v % 16)) == Some(v),
        hex_pair_value(upper_hex_digit(v / 16), upper_hex_digit(v % 16)) == Some(v),
{
    lemma_hex_digits_read_back(v / 16);
    lemma_hex_digits_read_back(v % 16);
    assert(v == (v / 16) * 16 + v % 16);
}

/// A color written as `#rrggbb`, or as `rrggbb`, in hexadecimal digits reads
/// back as that color.
pub proof fn lemma_hex_color_round_trip(red: u8, green: u8, blue: u8)
    ensures
        hex_color_of(hex_text(red) + hex_text(green) + hex_text(blue)) == Some(Rgb { red, green, blue }),
        hex_color_of(seq!['#'] + hex_text(red) + hex_text(green) + hex_text(blue)) == Some(
            Rgb { red, green, blue },
        ),
{
    broadcast use vstd::utf8::is_ascii_chars_encode_utf8;

    let t = hex_text(red) + hex_text(green) + hex_text(blue);
    let bytes = seq![
        lower_hex_digit(red / 16),
        lower_hex_digit(red % 16),
        lower_hex_digit(green / 16),
        lower_hex_digit(green % 16),
        lower_hex_digit(blue / 16),
        lower_hex_digit(blue % 16),
    ];
    assert(t.len() == 6);
    assert forall|i: int| 0 <= i < 6 implies (#[trigger] t[i] as u32) == bytes[i] as u32 && 0x30 <= bytes[i] <= 0x66 by {
        if i < 2 {
            assert(t[i] == hex_text(red)[i]);
        } else if i < 4 {
            assert(t[i] == hex_text(green)[i - 2]);
        } else {
            assert(t[i] == hex_text(blue)[i - 4]);
        }
    }
    assert forall|i: int| 0 <= i < 6 implies !is_white_space(#[trigger] t[i]) && t[i] != '#' && '\0' <= t[i]
        <= '\u{7f}' by {
        assert((t[i] as u32) == bytes[i] as u32);
    }
    assert(vstd::utf8::is_ascii_chars(t));
    assert(encode_utf8(t) =~= bytes);
    lemma_hex_pair_round_trip(red);
    lemma_hex_pair_round_trip(green);
    lemma_hex_pair_round_trip(blue);
    // The hexadecimal part of `t` is `t` itself.
    assert(trim(t) =~= t);
    lemma_first_white_index(t, 6);
    assert(t.take(6) =~= t);
    assert(hex_part(t) == t);
    // With a leading `#`, the `#` is dropped.
    let u = seq!['#'] + t;
    assert(u =~= seq!['#'] + hex_text(red) + hex_text(green) + hex_text(blue));
    assert forall|i: int| 0 <= i < 7 implies !is_white_space(#[trigger] u[i]) by {
        if i > 0 {
            assert(u[i] == t[i - 1]);
        }
    }
    assert(trim(u) =~= u);
    lemma_first_white_index(u, 7);
    assert(u.take(7) =~= u);
    assert(u.drop_first() =~= t);
    assert(hex_part(u) == t);
    assert(hex_color_of(u) == Some(Rgb { red, green, blue }));
}

/// A text that is empty or ends in a line break, followed by one more line,
/// has that line after the lines of the text.
proof fn lemma_lines_of_append(t: Seq<char>, line: Seq<char>)
    requires
        t.len() == 0 || t.last() == '\n',
        line.len() > 0,
        !line.contains('\n'),
    ensures
        lines_of(t + line) == lines_of(t).push(line),
    decreases t.len(),
{
    assert forall|j: int| 0 <= j < line.len() implies line[j] != '\n' by {
        if line[j] == '\n' {
            assert(line.contains('\n'));
        }
    }
    if t.len() == 0 {
        assert(t + line =~= line);
        lemma_first_index_of(line, '\n', -1);
        assert(lines_of(t) =~= Seq::<Seq<char>>::empty());
        assert(lines_of(line) =~= seq![line]);
        assert(lines_of(t).push(line) =~= seq![line]);
    } else {
        let s = t + line;
        lemma_first_index_of_bounds(t, '\n');
        let i = first_index_of(t, '\n');
        assert(i >= 0) by {
            if i < 0 {
                assert(t[t.len() - 1] != '\n');
            }
        }
        assert(s[i] == '\n');
        assert forall|j: int| 0 <= j < i implies s[j] != '\n' by {
            assert(s[j] == t[j]);
        }
        lemma_first_index_of(s, '\n', i);
        assert(s.take(i) =~= t.take(i));
        let rest = t.skip(i + 1);
        assert(s.skip(i + 1) =~= rest + line);
        if rest.len() > 0 {
            assert(rest.last() == t.last());
        }
        lemma_lines_of_append(rest, line);
        let first = if t.take(i).len() > 0 && t.take(i).last() == '\r' {
            t.take(i).drop_last()
        } else {
            t.take(i)
        };
        assert(lines_of(t) == seq![first] + lines_of(rest));
        assert(lines_of(s) == seq![first] + lines_of(rest + line));
        assert(seq![first] + lines_of(rest).push(line) =~= (seq![first] + lines_of(rest)).push(line));
    }
}

proof fn lemma_trim_fixed(s: Seq<char>)
    requires
        s.len() > 0,
        !is_white_space(s[0]),
        !is_white_space(s.last()),
    ensures
        trim(s) == s,
{
    assert(s.subrange(0, s.len() as int) =~= s);
}

/// The line `key:value` sets `key` to the color of `value`.
proof fn lemma_key_line_color(key: Seq<char>, v: Seq<char>)
    requires
        forall|i: int| 0 <= i < key.len() ==> key[i] != ':',
        trim(key) == key,
    ensures
        line_color(key + seq![':'] + v) == (match hex_color_of(trim(v)) {
            Some(c) => Some((key, c)),
            None => None,
        }),
{
    let l = key + seq![':'] + v;
    assert(l[key.len() as int] == ':');
    assert forall|j: int| 0 <= j < key.len() implies l[j] != ':' by {
        assert(l[j] == key[j]);
    }
    lemma_first_index_of(l, ':', key.len() as int);
    assert(l.take(key.len() as int) =~= key);
    assert(l.skip(key.len() + 1 as int) =~= v);
}

/// Appending the line `key:value` to a text sets `key` to the color of
/// `value`, when it names one, and leaves every other key as it was.
proof fn lemma_appended_key_line(t: Seq<char>, key: Seq<char>, v: Seq<char>, other: Seq<char>)
    requires
        t.len() == 0 || t.last() == '\n',
        forall|i: int| 0 <= i < key.len() ==> key[i] != ':' && key[i] != '\n',
        trim(key) == key,
        !v.contains('\n'),
        hex_color_of(trim(v)) is Some,
        other != key,
    ensures
        last_color_for(lines_of(t + key + seq![':'] + v), key) == hex_color_of(trim(v)),
        last_color_for(lines_of(t + key + seq![':'] + v), other) == last_color_for(lines_of(t), other),
{
    let line = key + seq![':'] + v;
    assert(t + key + seq![':'] + v =~= t + line);
    assert(!line.contains('\n')) by {
        if line.contains('\n') {
            let j = choose|j: int| 0 <= j < line.len() && line[j] == '\n';
            if j < key.len() {
                assert(line[j] == key[j]);
            } else if j > key.len() {
                assert(line[j] == v[j - key.len() - 1]);
                assert(v.contains('\n'));
            }
        }
    }
    assert(line.len() > 0);
    lemma_lines_of_append(t, line);
    lemma_key_line_color(key, v);
    lemma_last_color_push(lines_of(t), line, key);
    lemma_last_color_push(lines_of(t), line, other);
}

spec fn is_key_text(key: Seq<char>) -> bool {
    &&& forall|i: int| 0 <= i < key.len() ==> key[i] != ':' && key[i] != '\n'
    &&& trim(key) == key
}

proof fn lemma_key_texts()
    ensures
        is_key_text("Dark base"@),
        is_key_text("Main text dark"@),
        is_key_text("Blue"@),
        is_key_text("Green"@),
        is_key_text("Warning yellow"@),
        is_key_text("Critical red"@),
        "Dark base"@ != "Main text dark"@ && "Dark base"@ != "Blue"@ && "Dark base"@ != "Green"@
            && "Dark base"@ != "Warning yellow"@ && "Dark base"@ != "Critical red"@,
        "Main text dark"@ != "Blue"@ && "Main text dark"@ != "Green"@ && "Main text dark"@ != "Warning yellow"@
            && "Main text dark"@ != "Critical red"@,
        "Blue"@ != "Green"@ && "Blue"@ != "Warning yellow"@ && "Blue"@ != "Critical red"@,
        "Green"@ != "Warning yellow"@ && "Green"@ != "Critical red"@,
        "Warning yellow"@ != "Critical red"@,
{
    reveal_strlit("Dark base");
    lemma_trim_fixed("Dark base"@);
    assert forall|i: int| 0 <= i < "Dark base"@.len() implies "Dark base"@[i] != ':' && "Dark base"@[i] != '\n' by {}
    reveal_strlit("Main text dark");
    lemma_trim_fixed("Main text dark"@);
    assert forall|i: int| 0 <= i < "Main text dark"@.len() implies "Main text dark"@[i] != ':' && "Main text dark"@[i] != '\n' by {}
    reveal_strlit("Blue");
    lemma_trim_fixed("Blue"@);
    assert forall|i: int| 0 <= i < "Blue"@.len() implies "Blue"@[i] != ':' && "Blue"@[i] != '\n' by {}
    reveal_strlit("Green");
    lemma_trim_fixed("Green"@);
    assert forall|i: int| 0 <= i < "Green"@.len() implies "Green"@[i] != ':' && "Green"@[i] != '\n' by {}
    reveal_strlit("Warning yellow");
    lemma_trim_fixed("Warning yellow"@);
    assert forall|i: int| 0 <= i < "Warning yellow"@.len() implies "Warning yellow"@[i] != ':' && "Warning yellow"@[i] != '\n' by {}
    reveal_strlit("Critical red");
    lemma_trim_fixed("Critical red"@);
    assert forall|i: int| 0 <= i < "Critical red"@.len() implies "Critical red"@[i] != ':' && "Critical red"@[i] != '\n' by {}
    assert("Main text dark"@[0] != "Warning yellow"@[0]);
}

/// A line `Critical red:` and a color, added after a text that is empty or ends in
/// a line break, sets the danger color to that color and leaves every other color as
/// the text set it.
pub proof fn lemma_critical_red_line_sets_danger(t: Seq<char>, value: Seq<char>)
    requires
        t.len() == 0 || t.last() == '\n',
        !value.contains('\n'),
        hex_color_of(trim(value)) is Some,
    ensures
        ({
            let before = scheme_of(t);
            let after = scheme_of(t + "Critical red"@ + seq![':'] + value);
            &&& after.background == before.background
            &&& after.text == before.text
            &&& after.primary == before.primary
            &&& after.success == before.success
            &&& after.warning == before.warning
            &&& after.danger == hex_color_of(trim(value)).unwrap()
        }),
{
    lemma_key_texts();
    lemma_appended_key_line(t, "Critical red"@, value, "Dark base"@);
    lemma_appended_key_line(t, "Critical red"@, value, "Main text dark"@);
    lemma_appended_key_line(t, "Critical red"@, value, "Blue"@);
    lemma_appended_key_line(t, "Critical red"@, value, "Green"@);
    lemma_appended_key_line(t, "Critical red"@, value, "Warning yellow"@);
}

/// A line `Warning yellow:` and a color, added after a text that is empty or ends in
/// a line break, sets the warning color to that color and leaves every other color as
/// the text set it.
pub proof fn lemma_warning_yellow_line_sets_warning(t: Seq<char>, value: Seq<char>)
    requires
        t.len() == 0 || t.last() == '\n',
        !value.contains('\n'),
        hex_color_of(trim(value)) is Some,
    ensures
        ({
            let before = scheme_of(t);
            let after = scheme_of(t + "Warning yellow"@ + seq![':'] + value);
            &&& after.background == before.background
            &&& after.text == before.text
            &&& after.primary == before.primary
            &&& after.success == before.success
            &&& after.warning == hex_color_of(trim(value)).unwrap()
            &&& after.danger == before.danger
        }),
{
    lemma_key_texts();
    lemma_appended_key_line(t, "Warning yellow"@, value, "Dark base"@);
    lemma_appended_key_line(t, "Warning yellow"@, value, "Main text dark"@);
    lemma_appended_key_line(t, "Warning yellow"@, value, "Blue"@);
    lemma_appended_key_line(t, "Warning yellow"@, value, "Green"@);
    lemma_appended_key_line(t, "Warning yellow"@, value, "Critical red"@);
}

/// A line `Blue:` and a color, added after a text that is empty or ends in
/// a line break, sets the primary color to that color and leaves every other color as
/// the text set it.
pub proof fn lemma_blue_line_sets_primary(t: Seq<char>, value: Seq<char>)
    requires
        t.len() == 0 || t.last() == '\n',
        !value.contains('\n'),
        hex_color_of(trim(value)) is Some,
    ensures
        ({
            let before = scheme_of(t);
            let after = scheme_of(t + "Blue"@ + seq![':'] + value);
            &&& after.background == before.background
            &&& after.text == before.text
            &&& after.primary == hex_color_of(trim(value)).unwrap()
            &&& after.success == before.success
            &&& after.warning == before.warning
            &&& after.danger == before.danger
        }),
{
    lemma_key_texts();
    lemma_appended_key_line(t, "Blue"@, value, "Dark base"@);
    lemma_appended_key_line(t, "Blue"@, value, "Main text dark"@);
    lemma_appended_key_line(t, "Blue"@, value, "Green"@);
    lemma_appended_key_line(t, "Blue"@, value, "Warning yellow"@);
    lemma_appended_key_line(t, "Blue"@, value, "Critical red"@);
}

/// A line `Green:` and a color, added after a text that is empty or ends in
/// a line break, sets the success color to that color and leaves every other color as
/// the text set it.
pub proof fn lemma_green_line_sets_success(t: Seq<char>, value: Seq<char>)
    requires
        t.len() == 0 || t.last() == '\n',
        !value.contains('\n'),
        hex_color_of(trim(value)) is Some,
    ensures
        ({
            let before = scheme_of(t);
            let after = scheme_of(t + "Green"@ + seq![':'] + value);
            &&& after.background == before.background
            &&& after.text == before.text
            &&& after.primary == before.primary
            &&& after.success == hex_color_of(trim(value)).unwrap()
            &&& after.warning == before.warning
            &&& after.danger == before.danger
        }),
{
    lemma_key_texts();
    lemma_appended_key_line(t, "Green"@, value, "Dark base"@);
    lemma_appended_key_line(t, "Green"@, value, "Main text dark"@);
    lemma_appended_key_line(t, "Green"@, value, "Blue"@);
    lemma_appended_key_line(t, "Green"@, value, "Warning yellow"@);
    lemma_appended_key_line(t, "Green"@, value, "Critical red"@);
}

/// A line `Main text dark:` and a color, added after a text that is empty or ends in
/// a line break, sets the background color to that color and leaves every other color as
/// the text set it.
pub proof fn lemma_main_text_dark_line_sets_background(t: Seq<char>, value: Seq<char>)
    requires
        t.len() == 0 || t.last() == '\n',
        !value.contains('\n'),
        hex_color_of(trim(value)) is Some,
    ensures
        ({
            let before = scheme_of(t);
            let after = scheme_of(t + "Main text dark"@ + seq![':'] + value);
            &&& after.background == hex_color_of(trim(value)).unwrap()
            &&& after.text == before.text
            &&& after.primary == before.primary
            &&& after.success == before.success
            &&& after.warning == before.warning
            &&& after.danger == before.danger
        }),
{
    lemma_key_texts();
    lemma_appended_key_line(t, "Main text dark"@, value, "Dark base"@);
    lemma_appended_key_line(t, "Main text dark"@, value, "Blue"@);
    lemma_appended_key_line(t, "Main text dark"@, value, "Green"@);
    lemma_appended_key_line(t, "Main text dark"@, value, "Warning yellow"@);
    lemma_appended_key_line(t, "Main text dark"@, value, "Critical red"@);
}

/// A line `Dark base:` and a color sets the background to that color when no
/// line before it sets `Main text dark`, and leaves every other color as it was.
pub proof fn lemma_dark_base_line_sets_background(t: Seq<char>, value: Seq<char>)
    requires
        t.len() == 0 || t.last() == '\n',
        !value.contains('\n'),
        hex_color_of(trim(value)) is Some,
        last_color_for(lines_of(t), "Main text dark"@) is None,
    ensures
        ({
            let before = scheme_of(t);
            let after = scheme_of(t + "Dark base"@ + seq![':'] + value);
            &&& after.background == hex_color_of(trim(value)).unwrap()
            &&& after.text == before.text
            &&& after.primary == before.primary
            &&& after.success == before.success
            &&& after.warning == before.warning
            &&& after.danger == before.danger
        }),
{
    lemma_key_texts();
    lemma_appended_key_line(t, "Dark base"@, value, "Main text dark"@);
    lemma_appended_key_line(t, "Dark base"@, value, "Blue"@);
    lemma_appended_key_line(t, "Dark base"@, value, "Green"@);
    lemma_appended_key_line(t, "Dark base"@, value, "Warning yellow"@);
    lemma_appended_key_line(t, "Dark base"@, value, "Critical red"@);
}

/// A text that is empty or ends in a line break, followed by one more line
/// and a line break, has that line after the lines of the text.
proof fn lemma_lines_of_append_break(t: Seq<char>, line: Seq<char>)
    requires
        t.len() == 0 || t.last() == '\n',
        line.len() > 0,
        !line.contains('\n'),
        line.last() != '\r',
    ensures
        lines_of(t + line + seq!['\n']) == lines_of(t).push(line),
    decreases t.len(),
{
    assert forall|j: int| 0 <= j < line.len() implies line[j] != '\n' by {
        if line[j] == '\n' {
            assert(line.contains('\n'));
        }
    }
    let s = t + line + seq!['\n'];
    if t.len() == 0 {
        assert(s =~= line + seq!['\n']);
        assert forall|j: int| 0 <= j < line.len() implies s[j] != '\n' by {
            assert(s[j] == line[j]);
        }
        lemma_first_index_of(s, '\n', line.len() as int);
        assert(s.take(line.len() as int) =~= line);
        assert(s.skip(line.len() + 1 as int) =~= Seq::<char>::empty());
        assert(lines_of(Seq::<char>::empty()) =~= Seq::<Seq<char>>::empty());
        assert(lines_of(s) =~= seq![line]);
        assert(lines_of(t) =~= Seq::<Seq<char>>::empty());
        assert(lines_of(t).push(line) =~= seq![line]);
    } else {
        lemma_first_index_of_bounds(t, '\n');
        let i = first_index_of(t, '\n');
        assert(i >= 0) by {
            if i < 0 {
                assert(t[t.len() - 1] != '\n');
            }
        }
        assert(s[i] == '\n');
        assert forall|j: int| 0 <= j < i implies s[j] != '\n' by {
            assert(s[j] == t[j]);
        }
        lemma_first_index_of(s, '\n', i);
        assert(s.take(i) =~= t.take(i));
        let rest = t.skip(i + 1);
        assert(s.skip(i + 1) =~= rest + line + seq!['\n']);
        if rest.len() > 0 {
            assert(rest.last() == t.last());
        }
        lemma_lines_of_append_break(rest, line);
        let first = if t.take(i).len() > 0 && t.take(i).last() == '\r' {
            t.take(i).drop_last()
        } else {
            t.take(i)
        };
        assert(lines_of(t) == seq![first] + lines_of(rest));
        assert(lines_of(s) == seq![first] + lines_of(rest + line + seq!['\n']));
        assert(seq![first] + lines_of(rest).push(line) =~= (seq![first] + lines_of(rest)).push(line));
    }
}

/// `Main text dark` wins over `Dark base`: a `Dark base` line after a
/// `Main text dark` line leaves the background at the `Main text dark` color.
pub proof fn lemma_main_text_dark_wins(t: Seq<char>, dark: Seq<char>, base: Seq<char>)
    requires
        t.len() == 0 || t.last() == '\n',
        !dark.contains('\n'),
        !base.contains('\n'),
        dark.len() > 0 && dark.last() != '\r',
        hex_color_of(trim(dark)) is Some,
        hex_color_of(trim(base)) is Some,
    ensures
        scheme_of(t + "Main text dark"@ + seq![':'] + dark + seq!['\n'] + "Dark base"@ + seq![':'] + base).background
            == hex_color_of(trim(dark)).unwrap(),
{
    lemma_key_texts();
    let key = "Main text dark"@;
    let line = key + seq![':'] + dark;
    let t2 = t + key + seq![':'] + dark + seq!['\n'];
    assert(t2 =~= t + line + seq!['\n']);
    assert(!line.contains('\n')) by {
        if line.contains('\n') {
            let j = choose|j: int| 0 <= j < line.len() && line[j] == '\n';
            if j < key.len() {
                assert(line[j] == key[j]);
            } else if j > key.len() {
                assert(line[j] == dark[j - key.len() - 1]);
                assert(dark.contains('\n'));
            }
        }
    }
    assert(line.last() == dark.last());
    lemma_lines_of_append_break(t, line);
    lemma_key_line_color(key, dark);
    lemma_last_color_push(lines_of(t), line, key);
    assert(t2.last() == '\n');
    lemma_appended_key_line(t2, "Dark base"@, base, key);
    assert(t2 + "Dark base"@ + seq![':'] + base =~= t + key + seq![':'] + dark + seq!['\n'] + "Dark base"@
        + seq![':'] + base);
}

} // verus!
