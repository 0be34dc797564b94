//! Image file names: the final path component, its stem and extension, the
//! SKU and secondary-image index that a name encodes, and the order of names.
//!
//! Paths are read with `/` as the only separator, as `std::path` reads them on
//! Unix. The names that the catalog is built from are the entries of a
//! directory listing, a single component each, which holds neither `/` nor
//! (on Windows) `\` or a drive prefix; for such names every platform finds the
//! same stem and extension.
use vstd::prelude::*;

use crate::text::{
    all_ascii_digits, all_digits_in, chars_of, contains_in, decimal_digits, decimal_value, is_ascii_digit,
    last_index_of, lemma_decimal_digits, lemma_last_index_of, lemma_lex_sign_flip,
    lemma_lex_sign_range, lemma_lex_sign_strict_trans, lemma_lex_sign_trans, lemma_lex_sign_zero,
    lex_sign, lex_sign_of, parse_u32_digits, parse_u32_in, rfind_in,
};

verus! {

broadcast use vstd::seq_lib::group_to_multiset_ensures;

// ---------------------------------------------------------------------------
// Specifications
// ---------------------------------------------------------------------------

/// The final component of a path whose components are separated by `/`
/// (`Path::file_name` on Unix): empty components and `.` are skipped, and a
/// final `..` has no file name.
pub open spec fn final_component(p: Seq<char>) -> Option<Seq<char>>
    decreases p.len(),
{
    if p.len() == 0 {
        None
    } else {
        let i = last_index_of(p, '/');
        let seg = p.subrange(i + 1, p.len() as int);
        if seg.len() == 0 || seg == seq!['.'] {
            if i < 0 {
                None
            } else {
                proof {
                    lemma_last_index_of_bounds(p, '/');
                }
                final_component(p.take(i))
            }
        } else if seg == seq!['.', '.'] {
            None
        } else {
            Some(seg)
        }
    }
}

/// The stem of a file name (`Path::file_stem`): the name up to its last `.`,
/// or the whole name when it has no `.` or its only `.` leads.
pub open spec fn stem_of_name(name: Seq<char>) -> Seq<char> {
    let k = last_index_of(name, '.');
    if k <= 0 {
        name
    } else {
        name.take(k)
    }
}

/// The extension of a file name (`Path::extension`).
pub open spec fn extension_of_name(name: Seq<char>) -> Option<Seq<char>> {
    let k = last_index_of(name, '.');
    if k <= 0 {
        None
    } else {
        Some(name.skip(k + 1))
    }
}

/// The stem of the path's file name, or the whole path when it has no file name.
pub open spec fn stem_or_whole(p: Seq<char>) -> Seq<char> {
    match final_component(p) {
        Some(name) => stem_of_name(name),
        None => p,
    }
}

/// The extension of the path's file name.
pub open spec fn path_extension(p: Seq<char>) -> Option<Seq<char>> {
    match final_component(p) {
        Some(name) => extension_of_name(name),
        None => None,
    }
}

/// `jpg` in any mix of ASCII case.
pub open spec fn is_jpg_extension(e: Seq<char>) -> bool {
    &&& e.len() == 3
    &&& (e[0] == 'j' || e[0] == 'J')
    &&& (e[1] == 'p' || e[1] == 'P')
    &&& (e[2] == 'g' || e[2] == 'G')
}

/// A file name whose extension is `jpg`, in any ASCII case.
pub open spec fn is_jpg_name(p: Seq<char>) -> bool {
    match path_extension(p) {
        Some(e) => is_jpg_extension(e),
        None => false,
    }
}

/// The SKU and the secondary-image index that an image file name encodes.
///
/// A stem `PARENT-DIGITS` whose `PARENT` itself holds a `-` names a secondary
/// image of SKU `PARENT`; its index is `DIGITS` read as a `u32` (none when the
/// digits are empty or do not fit). Any other stem is the SKU of a main image.
pub open spec fn image_variant(filename: Seq<char>) -> (Seq<char>, Option<u32>) {
    variant_of_stem(stem_or_whole(filename))
}

/// The SKU and secondary-image index that a file stem encodes.
pub open spec fn variant_of_stem(stem: Seq<char>) -> (Seq<char>, Option<u32>) {
    let d = last_index_of(stem, '-');
    if d < 0 {
        (stem, None)
    } else {
        let parent = stem.take(d);
        let suffix = stem.skip(d + 1);
        if parent.contains('-') && all_ascii_digits(suffix) {
            (parent, parse_u32_digits(suffix))
        } else {
            (stem, None)
        }
    }
}

/// The SKU that an image file name belongs to.
pub open spec fn sku_of(filename: Seq<char>) -> Seq<char> {
    image_variant(filename).0
}

/// The names among `s` whose extension is `jpg`, in any ASCII case.
pub open spec fn jpg_names(s: Seq<Seq<char>>) -> Seq<Seq<char>> {
    s.filter(|n: Seq<char>| is_jpg_name(n))
}

/// The key by which image names are ordered: SKU, main before secondary,
/// secondary index, then the name itself.
pub open spec fn sort_key_of(filename: Seq<char>) -> (Seq<char>, u8, u32, Seq<char>) {
    let (sku, index) = image_variant(filename);
    (
        sku,
        if index is Some {
            1u8
        } else {
            0u8
        },
        match index {
            Some(i) => i,
            None => 0u32,
        },
        filename,
    )
}

/// The lexicographic order of two sort keys (-1, 0 or 1).
pub open spec fn key_sign(a: (Seq<char>, u8, u32, Seq<char>), b: (Seq<char>, u8, u32, Seq<char>)) -> int {
    let s = lex_sign(a.0, b.0);
    if s != 0 {
        s
    } else if a.1 != b.1 {
        if a.1 < b.1 {
            -1
        } else {
            1
        }
    } else if a.2 != b.2 {
        if a.2 < b.2 {
            -1
        } else {
            1
        }
    } else {
        lex_sign(a.3, b.3)
    }
}

/// `a` comes no later than `b` in the order of image names.
pub open spec fn name_le(a: Seq<char>, b: Seq<char>) -> bool {
    key_sign(sort_key_of(a), sort_key_of(b)) <= 0
}

/// The names are in the order of image names.
pub open spec fn names_sorted(s: Seq<Seq<char>>) -> bool {
    forall|i: int, j: int| 0 <= i < j < s.len() ==> name_le(#[trigger] s[i], #[trigger] s[j])
}

/// The character sequences of a sequence of strings.
pub open spec fn string_views(v: Seq<String>) -> Seq<Seq<char>> {
    v.map_values(|s: String| s@)
}

// ---------------------------------------------------------------------------
// Lemmas
// ---------------------------------------------------------------------------

pub proof fn lemma_last_index_of_bounds(s: Seq<char>, c: char)
    ensures
        -1 <= last_index_of(s, c) < s.len(),
        last_index_of(s, c) >= 0 ==> s[last_index_of(s, c)] == c,
        forall|i: int| last_index_of(s, c) < i < s.len() ==> s[i] != c,
    decreases s.len(),
{
    if s.len() > 0 && s.last() != c {
        lemma_last_index_of_bounds(s.drop_last(), c);
        assert forall|i: int| last_index_of(s, c) < i < s.len() implies s[i] != c by {
            if i < s.len() - 1 {
                assert(s[i] == s.drop_last()[i]);
            }
        }
    }
}

pub proof fn lemma_key_sign_range(a: (Seq<char>, u8, u32, Seq<char>), b: (Seq<char>, u8, u32, Seq<char>))
    ensures
        -1 <= key_sign(a, b) <= 1,
        key_sign(a, b) == -key_sign(b, a),
        (key_sign(a, b) == 0) == (a == b),
{
    lemma_lex_sign_range(a.0, b.0);
    lemma_lex_sign_range(a.3, b.3);
    lemma_lex_sign_flip(a.0, b.0);
    lemma_lex_sign_flip(a.3, b.3);
    lemma_lex_sign_zero(a.0, b.0);
    lemma_lex_sign_zero(a.3, b.3);
}

pub proof fn lemma_key_sign_trans(
    a: (Seq<char>, u8, u32, Seq<char>),
    b: (Seq<char>, u8, u32, Seq<char>),
    c: (Seq<char>, u8, u32, Seq<char>),
)
    requires
        key_sign(a, b) <= 0,
        key_sign(b, c) <= 0,
    ensures
        key_sign(a, c) <= 0,
{
    lemma_key_sign_range(a, b);
    lemma_key_sign_range(b, c);
    lemma_key_sign_range(a, c);
    lemma_lex_sign_zero(a.0, b.0);
    lemma_lex_sign_zero(b.0, c.0);
    lemma_lex_sign_zero(a.0, c.0);
    lemma_lex_sign_range(a.0, b.0);
    lemma_lex_sign_range(b.0, c.0);
    if lex_sign(a.0, b.0) < 0 {
        lemma_lex_sign_strict_trans(a.0, b.0, c.0);
    } else if lex_sign(b.0, c.0) < 0 {
        assert(a.0 == b.0);
    } else {
        if a.1 == b.1 && b.1 == c.1 && a.2 == b.2 && b.2 == c.2 {
            lemma_lex_sign_trans(a.3, b.3, c.3);
        }
    }
}

/// Image order is total: of two names, one comes no later than the other.
pub proof fn lemma_name_le_total(a: Seq<char>, b: Seq<char>)
    ensures
        name_le(a, b) || name_le(b, a),
        name_le(a, b) && name_le(b, a) ==> a == b,
{
    lemma_key_sign_range(sort_key_of(a), sort_key_of(b));
}

// ---------------------------------------------------------------------------
// Executable parsing of names
// ---------------------------------------------------------------------------

/// The bounds of the final component of the path `cs`.
fn final_component_range(cs: &Vec<char>) -> (res: Option<(usize, usize)>)
    ensures
        match res {
            Some((a, b)) => a <= b <= cs@.len() && final_component(cs@) == Some(
                cs@.subrange(a as int, b as int),
            ),
            None => final_component(cs@) is None,
        },
{
    let mut j: usize = cs.len();
    assert(cs@.take(j as int) =~= cs@);
    loop
        invariant
            j <= cs@.len(),
            final_component(cs@) == final_component(cs@.take(j as int)),
        decreases j,
    {
        if j == 0 {
            assert(cs@.take(0) =~= Seq::<char>::empty());
            return None;
        }
        let ghost p = cs@.take(j as int);
        assert(cs@.subrange(0, j as int) =~= p);
        let slash = rfind_in(cs, '/', 0, j);
        let start: usize = match slash {
            Some(k) => k + 1,
            None => 0,
        };
        let ghost seg = p.subrange(start as int, j as int);
        assert(seg =~= cs@.subrange(start as int, j as int));
        assert(start as int == last_index_of(p, '/') + 1);
        let seg_len = j - start;
        if seg_len == 0 || (seg_len == 1 && cs[start] == '.') {
            assert(seg.len() == 0 || seg =~= seq!['.']);
            match slash {
                None => {
                    return None;
                },
                Some(k) => {
                    assert(p.take(k as int) =~= cs@.take(k as int));
                    j = k;
                },
            }
        } else if seg_len == 2 && cs[start] == '.' && cs[start + 1] == '.' {
            assert(seg =~= seq!['.', '.']);
            assert(seg != seq!['.']);
            return None;
        } else {
            assert(seg.len() != 0);
            if seg_len == 1 {
                assert(seg[0] != '.');
            }
            assert(seg != seq!['.']);
            if seg_len == 2 {
                assert(seg[0] != '.' || seg[1] != '.');
            }
            assert(seg != seq!['.', '.']);
            return Some((start, j));
        }
    }
}

/// The bounds of `stem_or_whole(cs)`.
fn stem_range(cs: &Vec<char>) -> (res: (usize, usize))
    ensures
        res.0 <= res.1 <= cs@.len(),
        cs@.subrange(res.0 as int, res.1 as int) == stem_or_whole(cs@),
{
    match final_component_range(cs) {
        None => {
            assert(cs@.subrange(0, cs@.len() as int) =~= cs@);
            (0, cs.len())
        },
        Some((a, b)) => {
            let ghost name = cs@.subrange(a as int, b as int);
            match rfind_in(cs, '.', a, b) {
                Some(k) => {
                    if k > a {
                        assert(name.take(k - a) =~= cs@.subrange(a as int, k as int));
                        (a, k)
                    } else {
                        (a, b)
                    }
                },
                None => (a, b),
            }
        },
    }
}

/// The extension of the path `cs`, as bounds into `cs`.
fn extension_range(cs: &Vec<char>) -> (res: Option<(usize, usize)>)
    ensures
        match res {
            Some((a, b)) => a <= b <= cs@.len() && path_extension(cs@) == Some(
                cs@.subrange(a as int, b as int),
            ),
            None => path_extension(cs@) is None,
        },
{
    match final_component_range(cs) {
        None => None,
        Some((a, b)) => {
            let ghost name = cs@.subrange(a as int, b as int);
            match rfind_in(cs, '.', a, b) {
                Some(k) => {
                    if k > a {
                        assert(name.skip(k - a + 1) =~= cs@.subrange(k + 1, b as int));
                        Some((k + 1, b))
                    } else {
                        None
                    }
                },
                None => None,
            }
        },
    }
}

/// The bounds of the SKU inside the stem `cs[s0..s1]`, and the secondary-image index.
fn stem_variant_parts(cs: &Vec<char>, s0: usize, s1: usize) -> (res: (usize, usize, Option<u32>))
    requires
        s0 <= s1 <= cs@.len(),
    ensures
        res.0 <= res.1 <= cs@.len(),
        cs@.subrange(res.0 as int, res.1 as int) == variant_of_stem(cs@.subrange(s0 as int, s1 as int)).0,
        res.2 == variant_of_stem(cs@.subrange(s0 as int, s1 as int)).1,
{
    let ghost stem = cs@.subrange(s0 as int, s1 as int);
    match rfind_in(cs, '-', s0, s1) {
        None => (s0, s1, None),
        Some(d) => {
            let ghost parent = stem.take(d - s0);
            let ghost suffix = stem.skip(d - s0 + 1);
            assert(parent =~= cs@.subrange(s0 as int, d as int));
            assert(suffix =~= cs@.subrange(d + 1, s1 as int));
            if contains_in(cs, '-', s0, d) && all_digits_in(cs, d + 1, s1) {
                let index = parse_u32_in(cs, d + 1, s1);
                (s0, d, index)
            } else {
                (s0, s1, None)
            }
        },
    }
}

/// The bounds of the SKU inside `cs`, and the secondary-image index.
fn variant_parts(cs: &Vec<char>) -> (res: (usize, usize, Option<u32>))
    ensures
        res.0 <= res.1 <= cs@.len(),
        cs@.subrange(res.0 as int, res.1 as int) == image_variant(cs@).0,
        res.2 == image_variant(cs@).1,
{
    let (s0, s1) = stem_range(cs);
    stem_variant_parts(cs, s0, s1)
}

/// The SKU that an image file name belongs to: the stem without a trailing
/// `-DIGITS` when the rest of the stem itself holds a `-`, the whole stem otherwise.
pub fn parent_sku_from_filename(filename: &str) -> (res: String)
    ensures
        res@ == image_variant(filename@).0,
{
    let cs = chars_of(filename);
    let (a, b, _) = variant_parts(&cs);
    filename.substring_char(a, b).to_owned()
}

/// The SKU of an image file name and, for a secondary image, its index.
pub fn parse_image_variant(filename: &str) -> (res: (String, Option<u32>))
    ensures
        res.0@ == image_variant(filename@).0,
        res.1 == image_variant(filename@).1,
{
    let cs = chars_of(filename);
    let (a, b, index) = variant_parts(&cs);
    (filename.substring_char(a, b).to_owned(), index)
}

/// The key by which image names are ordered.
pub fn sort_key(filename: &str) -> (res: (String, u8, u32, String))
    ensures
        (res.0@, res.1, res.2, res.3@) == sort_key_of(filename@),
{
    let (sku, index) = parse_image_variant(filename);
    let rank: u8 = if index.is_some() {
        1
    } else {
        0
    };
    let idx: u32 = match index {
        Some(i) => i,
        None => 0,
    };
    (sku, rank, idx, filename.to_owned())
}

/// Whether the extension of `name` is `jpg`, in any ASCII case.
pub fn is_jpg_file_name(name: &str) -> (res: bool)
    ensures
        res == is_jpg_name(name@),
{
    let cs = chars_of(name);
    match extension_range(&cs) {
        None => false,
        Some((a, b)) => {
            let ghost e = cs@.subrange(a as int, b as int);
            if b - a != 3 {
                return false;
            }
            assert(e[0] == cs@[a as int] && e[1] == cs@[a + 1] && e[2] == cs@[a + 2]);
            let c0 = cs[a];
            let c1 = cs[a + 1];
            let c2 = cs[a + 2];
            (c0 == 'j' || c0 == 'J') && (c1 == 'p' || c1 == 'P') && (c2 == 'g' || c2 == 'G')
        },
    }
}

// ---------------------------------------------------------------------------
// Ordering of names
// ---------------------------------------------------------------------------

/// A sort key held as characters, for comparisons without allocation.
struct ImageKey {
    sku: Vec<char>,
    rank: u8,
    index: u32,
    name: Vec<char>,
}

impl ImageKey {
    spec fn view_key(&self) -> (Seq<char>, u8, u32, Seq<char>) {
        (self.sku@, self.rank, self.index, self.name@)
    }
}

fn image_key(filename: &str) -> (res: ImageKey)
    ensures
        res.view_key() == sort_key_of(filename@),
{
    let cs = chars_of(filename);
    let (a, b, index) = variant_parts(&cs);
    let mut sku: Vec<char> = Vec::new();
    let mut i = a;
    while i < b
        invariant
            a <= i <= b <= cs@.len(),
            sku@ == cs@.subrange(a as int, i as int),
        decreases b - i,
    {
        sku.push(cs[i]);
        i = i + 1;
    }
    let rank: u8 = if index.is_some() {
        1
    } else {
        0
    };
    let idx: u32 = match index {
        Some(v) => v,
        None => 0,
    };
    ImageKey { sku, rank, index: idx, name: cs }
}

fn key_sign_of(a: &ImageKey, b: &ImageKey) -> (res: i8)
    ensures
        res as int == key_sign(a.view_key(), b.view_key()),
{
    let s = lex_sign_of(&a.sku, &b.sku);
    if s != 0 {
        s
    } else if a.rank != b.rank {
        if a.rank < b.rank {
            -1
        } else {
            1
        }
    } else if a.index != b.index {
        if a.index < b.index {
            -1
        } else {
            1
        }
    } else {
        lex_sign_of(&a.name, &b.name)
    }
}

/// Sorts image names by SKU, each main image before the secondary images of
/// its SKU, secondary images by index, and equal keys by name.
pub fn sort_image_names(names: &mut Vec<String>)
    ensures
        names_sorted(string_views(final(names)@)),
        string_views(final(names)@).to_multiset() == string_views(old(names)@).to_multiset(),
{
    let ghost input = string_views(names@);
    let mut out: Vec<String> = Vec::new();
    let mut keys: Vec<ImageKey> = Vec::new();
    let n = names.len();
    let mut i: usize = 0;
    assert(input.take(0) =~= Seq::<Seq<char>>::empty());
    assert(string_views(out@) =~= Seq::<Seq<char>>::empty());
    while i < n
        invariant
            n == names@.len(),
            input == string_views(names@),
            0 <= i <= n,
            out@.len() == keys@.len(),
            forall|k: int| 0 <= k < keys@.len() ==> #[trigger] keys@[k].view_key() == sort_key_of(out@[k]@),
            names_sorted(string_views(out@)),
            string_views(out@).to_multiset() == input.take(i as int).to_multiset(),
        decreases n - i,
    {
        let name = names[i].clone();
        let key = image_key(name.as_str());
        let ghost s0 = string_views(out@);
        let mut lo: usize = 0;
        let mut hi: usize = out.len();
        while lo < hi
            invariant
                out@.len() == keys@.len(),
                s0 == string_views(out@),
                forall|k: int| 0 <= k < keys@.len() ==> #[trigger] keys@[k].view_key() == sort_key_of(out@[k]@),
                names_sorted(s0),
                key.view_key() == sort_key_of(name@),
                0 <= lo <= hi <= out@.len(),
                forall|k: int| 0 <= k < lo ==> key_sign(#[trigger] keys@[k].view_key(), key.view_key()) <= 0,
                forall|k: int| hi <= k < keys@.len() ==> key_sign(#[trigger] keys@[k].view_key(), key.view_key()) > 0,
            decreases hi - lo,
        {
            let mid = lo + (hi - lo) / 2;
            let ghost m = keys@[mid as int].view_key();
            assert(m == sort_key_of(s0[mid as int]));
            if key_sign_of(&keys[mid], &key) > 0 {
                proof {
                    assert forall|k: int| mid <= k < keys@.len() implies key_sign(#[trigger] keys@[k].view_key(), key.view_key()) > 0 by {
                        if k > mid {
                            assert(keys@[k].view_key() == sort_key_of(s0[k]));
                            assert(name_le(s0[mid as int], s0[k]));
                            lemma_key_sign_range(m, key.view_key());
                            lemma_key_sign_range(keys@[k].view_key(), key.view_key());
                            if key_sign(keys@[k].view_key(), key.view_key()) <= 0 {
                                lemma_key_sign_trans(m, keys@[k].view_key(), key.view_key());
                            }
                        }
                    }
                }
                hi = mid;
            } else {
                proof {
                    assert forall|k: int| 0 <= k < mid + 1 implies key_sign(#[trigger] keys@[k].view_key(), key.view_key()) <= 0 by {
                        if k < mid {
                            assert(keys@[k].view_key() == sort_key_of(s0[k]));
                            assert(name_le(s0[k], s0[mid as int]));
                            lemma_key_sign_trans(keys@[k].view_key(), m, key.view_key());
                        }
                    }
                }
                lo = mid + 1;
            }
        }
        let pos = lo;
        let ghost old_out = string_views(out@);
        let ghost old_keys = keys@;
        let ghost old_names = out@;
        proof {
            let s = old_out;
            let x = name@;
            assert forall|k: int| 0 <= k < pos implies name_le(#[trigger] s[k], x) by {
                assert(keys@[k].view_key() == sort_key_of(s[k]));
            }
            assert forall|k: int| pos <= k < s.len() implies name_le(x, #[trigger] s[k]) by {
                assert(keys@[k].view_key() == sort_key_of(s[k]));
                lemma_key_sign_range(keys@[k].view_key(), key.view_key());
            }
        }
        out.insert(pos, name.clone());
        keys.insert(pos, key);
        proof {
            let s = old_out;
            let x = name@;
            assert(string_views(out@) =~= s.insert(pos as int, x));
            let t = string_views(out@);
            assert forall|p: int, q: int| 0 <= p < q < t.len() implies name_le(#[trigger] t[p], #[trigger] t[q]) by {
                if q < pos {
                    assert(t[p] == s[p] && t[q] == s[q]);
                } else if q == pos {
                    assert(t[q] == x && t[p] == s[p]);
                } else if p == pos {
                    assert(t[p] == x && t[q] == s[q - 1]);
                } else if p < pos {
                    assert(t[p] == s[p] && t[q] == s[q - 1]);
                    assert(name_le(s[p], x));
                    assert(name_le(x, s[q - 1]));
                    lemma_key_sign_trans(sort_key_of(s[p]), sort_key_of(x), sort_key_of(s[q - 1]));
                } else {
                    assert(t[p] == s[p - 1] && t[q] == s[q - 1]);
                }
            }
            assert forall|k: int| 0 <= k < keys@.len() implies #[trigger] keys@[k].view_key() == sort_key_of(out@[k]@) by {
                if k < pos {
                    assert(keys@[k] == old_keys[k] && out@[k] == old_names[k]);
                } else if k == pos {
                } else {
                    assert(keys@[k] == old_keys[k - 1] && out@[k] == old_names[k - 1]);
                }
            }
            assert(input.take(i + 1) =~= input.take(i as int).push(x));
        }
        i = i + 1;
    }
    proof {
        assert(input.take(n as int) =~= input);
    }
    *names = out;
}


/// The names in image order: the sorted arrangement of `s`, which
/// `lemma_sorted_arrangement_unique` shows to be unique.
pub open spec fn sorted_names(s: Seq<Seq<char>>) -> Seq<Seq<char>> {
    choose|t: Seq<Seq<char>>| names_sorted(t) && t.to_multiset() == s.to_multiset()
}

/// Two arrangements of the same names that are both in image order are equal.
pub proof fn lemma_sorted_arrangement_unique(a: Seq<Seq<char>>, b: Seq<Seq<char>>)
    requires
        names_sorted(a),
        names_sorted(b),
        a.to_multiset() == b.to_multiset(),
    ensures
        a == b,
    decreases a.len(),
{
    broadcast use vstd::multiset::group_multiset_axioms;

    if a.len() == 0 {
        assert(b.to_multiset().len() == 0);
        assert(b =~= a);
    } else {
        assert(a.to_multiset().count(a[0]) > 0);
        assert(b.len() > 0);
        assert(b.to_multiset().count(b[0]) > 0);
        assert(b.contains(a[0]));
        assert(a.contains(b[0]));
        let i = choose|i: int| 0 <= i < b.len() && b[i] == a[0];
        let j = choose|j: int| 0 <= j < a.len() && a[j] == b[0];
        if i > 0 {
            assert(name_le(b[0], b[i]));
        } else {
            lemma_name_le_total(b[0], b[0]);
        }
        if j > 0 {
            assert(name_le(a[0], a[j]));
        } else {
            lemma_name_le_total(a[0], a[0]);
        }
        lemma_name_le_total(a[0], b[0]);
        assert(a[0] == b[0]);
        assert(a.remove(0) =~= a.drop_first());
        assert(b.remove(0) =~= b.drop_first());
        assert(a.drop_first().to_multiset() == b.drop_first().to_multiset());
        assert(names_sorted(a.drop_first())) by {
            assert forall|p: int, q: int| 0 <= p < q < a.drop_first().len() implies name_le(
                #[trigger] a.drop_first()[p],
                #[trigger] a.drop_first()[q],
            ) by {
                assert(a.drop_first()[p] == a[p + 1] && a.drop_first()[q] == a[q + 1]);
            }
        }
        assert(names_sorted(b.drop_first())) by {
            assert forall|p: int, q: int| 0 <= p < q < b.drop_first().len() implies name_le(
                #[trigger] b.drop_first()[p],
                #[trigger] b.drop_first()[q],
            ) by {
                assert(b.drop_first()[p] == b[p + 1] && b.drop_first()[q] == b[q + 1]);
            }
        }
        lemma_sorted_arrangement_unique(a.drop_first(), b.drop_first());
        assert(a =~= seq![a[0]] + a.drop_first());
        assert(b =~= seq![b[0]] + b.drop_first());
    }
}

/// A sorted arrangement of `s` is the arrangement `sorted_names(s)`.
pub proof fn lemma_sorted_names_is(s: Seq<Seq<char>>, t: Seq<Seq<char>>)
    requires
        names_sorted(t),
        t.to_multiset() == s.to_multiset(),
    ensures
        sorted_names(s) == t,
{
    let u = sorted_names(s);
    assert(names_sorted(u) && u.to_multiset() == s.to_multiset());
    lemma_sorted_arrangement_unique(u, t);
}

/// The JPG names among `file_names`, in image order.
pub fn list_jpg_names(file_names: Vec<String>) -> (res: Vec<String>)
    ensures
        string_views(res@) == sorted_names(jpg_names(string_views(file_names@))),
        names_sorted(string_views(res@)),
        string_views(res@).to_multiset() == jpg_names(string_views(file_names@)).to_multiset(),
{
    let ghost input = string_views(file_names@);
    let ghost pred = |n: Seq<char>| is_jpg_name(n);
    let mut names: Vec<String> = Vec::new();
    let mut i: usize = 0;
    assert(input.take(0).filter(pred) =~= Seq::<Seq<char>>::empty()) by {
        reveal(Seq::filter);
    }
    while i < file_names.len()
        invariant
            input == string_views(file_names@),
            pred == (|n: Seq<char>| is_jpg_name(n)),
            0 <= i <= file_names@.len(),
            string_views(names@) == input.take(i as int).filter(pred),
        decreases file_names@.len() - i,
    {
        let ghost prev = string_views(names@);
        proof {
            reveal(Seq::filter);
            assert(input.take(i + 1).drop_last() =~= input.take(i as int));
            assert(input.take(i + 1).last() == input[i as int]);
            assert(input[i as int] == file_names@[i as int]@);
            assert(input.take(i + 1).filter(pred) == if pred(input[i as int]) {
                prev.push(input[i as int])
            } else {
                prev
            });
        }
        if is_jpg_file_name(file_names[i].as_str()) {
            names.push(file_names[i].clone());
            assert(string_views(names@) =~= prev.push(input[i as int]));
        }
        i = i + 1;
    }
    assert(input.take(file_names@.len() as int) =~= input);
    let ghost filtered = string_views(names@);
    sort_image_names(&mut names);
    proof {
        lemma_sorted_names_is(filtered, string_views(names@));
    }
    names
}


// ---------------------------------------------------------------------------
// Laws of the image order and of names
// ---------------------------------------------------------------------------

/// The main image of a SKU comes before each of its secondary images.
pub proof fn lemma_main_before_secondary(main: Seq<char>, secondary: Seq<char>)
    requires
        sku_of(main) == sku_of(secondary),
        image_variant(main).1 is None,
        image_variant(secondary).1 is Some,
    ensures
        name_le(main, secondary),
        !name_le(secondary, main),
{
    lemma_lex_sign_zero(sku_of(main), sku_of(secondary));
    lemma_lex_sign_zero(sku_of(secondary), sku_of(main));
}

/// Secondary images of a SKU come in the order of their indexes.
pub proof fn lemma_secondaries_by_index(a: Seq<char>, b: Seq<char>)
    requires
        sku_of(a) == sku_of(b),
        image_variant(a).1 matches Some(i) && image_variant(b).1 matches Some(j) && i < j,
    ensures
        name_le(a, b),
        !name_le(b, a),
{
    lemma_lex_sign_zero(sku_of(a), sku_of(b));
    lemma_lex_sign_zero(sku_of(b), sku_of(a));
}

/// Images of different SKUs come in the order of their SKUs.
pub proof fn lemma_skus_in_order(a: Seq<char>, b: Seq<char>)
    requires
        lex_sign(sku_of(a), sku_of(b)) < 0,
    ensures
        name_le(a, b),
        !name_le(b, a),
{
    lemma_lex_sign_flip(sku_of(a), sku_of(b));
}

/// Names already in image order are their own sorted arrangement.
pub proof fn lemma_sorted_names_fixed(s: Seq<Seq<char>>)
    requires
        names_sorted(s),
    ensures
        sorted_names(s) == s,
{
    lemma_sorted_names_is(s, s);
}

/// A secondary image's stem is its SKU, a `-`, and digits that spell its index.
pub proof fn lemma_secondary_name_shape(filename: Seq<char>)
    requires
        image_variant(filename).1 is Some,
    ensures
        ({
            let stem = stem_or_whole(filename);
            let sku = sku_of(filename);
            let digits = stem.skip(sku.len() + 1 as int);
            &&& stem == sku + seq!['-'] + digits
            &&& sku.contains('-')
            &&& all_ascii_digits(digits)
            &&& digits.len() > 0
            &&& image_variant(filename).1 == Some(decimal_value(digits) as u32)
        }),
{
    let stem = stem_or_whole(filename);
    let d = last_index_of(stem, '-');
    lemma_last_index_of_bounds(stem, '-');
    assert(stem =~= stem.take(d) + seq!['-'] + stem.skip(d + 1));
    assert(stem.skip(d + 1) =~= stem.skip(stem.take(d).len() + 1 as int));
}

/// The name `SKU-N.jpg` of a secondary image reads back as the SKU `SKU` and
/// the index `N`, for every SKU that holds a `-` and no `/`.
pub proof fn lemma_secondary_name_round_trip(sku: Seq<char>, n: u32)
    requires
        sku.contains('-'),
        !sku.contains('/'),
    ensures
        image_variant(sku + seq!['-'] + decimal_digits(n as nat) + seq!['.', 'j', 'p', 'g']) == (sku, Some(n)),
{
    let digits = decimal_digits(n as nat);
    lemma_decimal_digits(n as nat);
    let stem = sku + seq!['-'] + digits;
    let f = stem + seq!['.', 'j', 'p', 'g'];
    assert forall|j: int| 0 <= j < digits.len() implies #[trigger] digits[j] != '/' && digits[j] != '-'
        && digits[j] != '.' by {
        assert(is_ascii_digit(digits[j]));
    }
    assert forall|i: int| -1 < i < f.len() implies f[i] != '/' by {
        if i < sku.len() {
            assert(f[i] == sku[i]);
        } else if i > sku.len() && i < stem.len() {
            assert(f[i] == digits[i - sku.len() - 1]);
        }
    }
    lemma_last_index_of(f, '/', -1);
    assert(f.subrange(0, f.len() as int) =~= f);
    assert(final_component(f) == Some(f));
    assert(f[stem.len() as int] == '.');
    lemma_last_index_of(f, '.', stem.len() as int);
    assert(f.take(stem.len() as int) =~= stem);
    assert(stem_or_whole(f) == stem);
    assert(stem[sku.len() as int] == '-');
    assert forall|i: int| sku.len() < i < stem.len() implies stem[i] != '-' by {
        assert(stem[i] == digits[i - sku.len() - 1]);
    }
    lemma_last_index_of(stem, '-', sku.len() as int);
    assert(stem.take(sku.len() as int) =~= sku);
    assert(stem.skip(sku.len() + 1 as int) =~= digits);
}

/// A stem that does not end in `-` and ASCII digits after another `-` is the
/// SKU of a main image as it is: when the part after the last `-` of the stem
/// holds anything but ASCII digits (or is empty), or the stem has no `-`, or
/// the part before its last `-` has none, the file name gives the whole stem
/// and no index.
pub proof fn lemma_non_numeric_suffix_keeps_stem(filename: Seq<char>)
    ensures
        ({
            let stem = stem_or_whole(filename);
            let d = last_index_of(stem, '-');
            d < 0 || !stem.take(d).contains('-') || !all_ascii_digits(stem.skip(d + 1))
        }) ==> image_variant(filename) == (stem_or_whole(filename), None::<u32>),
{
}

/// A stem `PARENT-DIGITS` whose `PARENT` holds a `-` names a secondary image
/// of `PARENT`, whose index is `DIGITS` when it fits in a `u32`.
pub proof fn lemma_numeric_suffix_names_secondary(filename: Seq<char>)
    ensures
        ({
            let stem = stem_or_whole(filename);
            let d = last_index_of(stem, '-');
            d >= 0 && stem.take(d).contains('-') && all_ascii_digits(stem.skip(d + 1)) && stem.skip(d + 1).len()
                > 0 && decimal_value(stem.skip(d + 1)) <= u32::MAX
        }) ==> image_variant(filename) == (
            stem_or_whole(filename).take(last_index_of(stem_or_whole(filename), '-')),
            Some(decimal_value(stem_or_whole(filename).skip(last_index_of(stem_or_whole(filename), '-') + 1)) as u32),
        ),
{
}

/// Images of two SKUs one of which starts the other come in `String` order:
/// the shorter SKU first.
pub proof fn lemma_prefix_sku_first(a: Seq<char>, b: Seq<char>)
    requires
        sku_of(a).len() < sku_of(b).len(),
        sku_of(b).take(sku_of(a).len() as int) == sku_of(a),
    ensures
        name_le(a, b),
        !name_le(b, a),
{
    let c = sku_of(b).skip(sku_of(a).len() as int);
    assert(sku_of(b) =~= sku_of(a) + c);
    crate::text::lemma_lex_sign_prefix(sku_of(a), c);
    lemma_skus_in_order(a, b);
}

} // verus!
