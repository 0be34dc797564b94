//! The image catalog: one row per JPG image under a UNC base path, and the
//! SKUs that have secondary images but no main image.
use vstd::prelude::*;

use crate::file_names::{
    image_variant, jpg_names, list_jpg_names, names_sorted, parent_sku_from_filename, sku_of, sorted_names,
    string_views,
};
use crate::text::{
    chars_of, lemma_lex_sign_flip, lemma_lex_sign_range, lemma_lex_sign_zero, lex_sign, lex_sign_of, trim,
    trim_end_char, trim_end_char_str, trim_str,
};

verus! {

broadcast use vstd::seq_lib::group_filter_ensures;

/// One image: its full file name and the SKU it belongs to.
#[derive(Debug, Clone)]
pub struct ImageRow {
    pub file_name: String,
    pub sku: String,
}

/// The rows of all images, with the secondary images whose SKU has no main image.
#[derive(Debug, Clone)]
pub struct ImageCollection {
    pub image_rows: Vec<ImageRow>,
    pub secondary_only_images: Vec<String>,
    pub secondary_only_sku_count: usize,
}

// ---------------------------------------------------------------------------
// Specifications
// ---------------------------------------------------------------------------

/// Some name among `names` is the main image of `sku`.
pub open spec fn has_main_image(names: Seq<Seq<char>>, sku: Seq<char>) -> bool {
    exists|i: int|
        0 <= i < names.len() && sku_of(#[trigger] names[i]) == sku && image_variant(names[i]).1 is None
}

/// The secondary images of `sku` among `names`, in their order.
pub open spec fn secondary_images_of(names: Seq<Seq<char>>, sku: Seq<char>) -> Seq<Seq<char>> {
    names.filter(|n: Seq<char>| sku_of(n) == sku && image_variant(n).1 is Some)
}

/// `sku` has secondary images among `names` but no main image.
pub open spec fn is_secondary_only(names: Seq<Seq<char>>, sku: Seq<char>) -> bool {
    !has_main_image(names, sku) && secondary_images_of(names, sku).len() > 0
}

pub open spec fn strictly_ascending(skus: Seq<Seq<char>>) -> bool {
    forall|a: int, b: int| 0 <= a < b < skus.len() ==> lex_sign(#[trigger] skus[a], #[trigger] skus[b]) < 0
}

/// `skus` lists, in ascending order, exactly the SKUs that are secondary-only in `names`.
pub open spec fn is_secondary_only_listing(names: Seq<Seq<char>>, skus: Seq<Seq<char>>) -> bool {
    &&& strictly_ascending(skus)
    &&& forall|s: Seq<char>| skus.contains(s) <==> is_secondary_only(names, s)
}

/// The secondary-only SKUs of `names`, in ascending order (unique by
/// `lemma_ascending_listing_unique`).
pub open spec fn secondary_only_skus(names: Seq<Seq<char>>) -> Seq<Seq<char>> {
    choose|skus: Seq<Seq<char>>| is_secondary_only_listing(names, skus)
}

/// The secondary images of the secondary-only SKUs: SKU by SKU in ascending
/// order, and in the order of `names` within a SKU.
pub open spec fn secondary_only_images(names: Seq<Seq<char>>) -> Seq<Seq<char>> {
    secondary_only_skus(names).map_values(|s: Seq<char>| secondary_images_of(names, s)).flatten()
}

// ---------------------------------------------------------------------------
// Lemmas
// ---------------------------------------------------------------------------

pub proof fn lemma_filter_push<A>(s: Seq<A>, pred: spec_fn(A) -> bool, x: A)
    ensures
        s.push(x).filter(pred) == (if pred(x) {
            s.filter(pred).push(x)
        } else {
            s.filter(pred)
        }),
{
    reveal(Seq::filter);
    assert(s.push(x).drop_last() =~= s);
}

pub proof fn lemma_filter_none<A>(s: Seq<A>, pred: spec_fn(A) -> bool)
    requires
        forall|i: int| 0 <= i < s.len() ==> !pred(#[trigger] s[i]),
    ensures
        s.filter(pred) == Seq::<A>::empty(),
    decreases s.len(),
{
    reveal(Seq::filter);
    if s.len() > 0 {
        assert forall|i: int| 0 <= i < s.drop_last().len() implies !pred(#[trigger] s.drop_last()[i]) by {
            assert(s.drop_last()[i] == s[i]);
        }
        lemma_filter_none(s.drop_last(), pred);
    } else {
        assert(s =~= Seq::<A>::empty());
    }
}

/// Two ascending listings with the same members are equal.
pub proof fn lemma_ascending_listing_unique(a: Seq<Seq<char>>, b: Seq<Seq<char>>)
    requires
        strictly_ascending(a),
        strictly_ascending(b),
        forall|s: Seq<char>| a.contains(s) <==> b.contains(s),
    ensures
        a == b,
    decreases a.len(),
{
    if a.len() == 0 {
        if b.len() > 0 {
            assert(b.contains(b[0]));
        }
        assert(a =~= b);
    } else {
        assert(a.contains(a[0]));
        assert(b.len() > 0);
        assert(b.contains(b[0]));
        let i = choose|i: int| 0 <= i < b.len() && b[i] == a[0];
        let j = choose|j: int| 0 <= j < a.len() && a[j] == b[0];
        if i > 0 && j > 0 {
            assert(lex_sign(b[0], b[i]) < 0);
            assert(lex_sign(a[0], a[j]) < 0);
            lemma_lex_sign_flip(a[0], b[0]);
            assert(false);
        } else if i > 0 {
            assert(j == 0);
        } else {
            assert(b[0] == a[0]);
        }
        assert(a[0] == b[0]);
        let a1 = a.drop_first();
        let b1 = b.drop_first();
        assert forall|s: Seq<char>| a1.contains(s) <==> b1.contains(s) by {
            if a1.contains(s) {
                let k = choose|k: int| 0 <= k < a1.len() && a1[k] == s;
                assert(a[k + 1] == s);
                assert(lex_sign(a[0], a[k + 1]) < 0);
                lemma_lex_sign_zero(a[0], s);
                assert(b.contains(s));
                let m = choose|m: int| 0 <= m < b.len() && b[m] == s;
                assert(m != 0);
                assert(b1[m - 1] == s);
            }
            if b1.contains(s) {
                let k = choose|k: int| 0 <= k < b1.len() && b1[k] == s;
                assert(b[k + 1] == s);
                assert(lex_sign(b[0], b[k + 1]) < 0);
                lemma_lex_sign_zero(b[0], s);
                assert(a.contains(s));
                let m = choose|m: int| 0 <= m < a.len() && a[m] == s;
                assert(m != 0);
                assert(a1[m - 1] == s);
            }
        }
        assert(strictly_ascending(a1)) by {
            assert forall|p: int, q: int| 0 <= p < q < a1.len() implies lex_sign(
                #[trigger] a1[p],
                #[trigger] a1[q],
            ) < 0 by {
                assert(a1[p] == a[p + 1] && a1[q] == a[q + 1]);
            }
        }
        assert(strictly_ascending(b1)) by {
            assert forall|p: int, q: int| 0 <= p < q < b1.len() implies lex_sign(
                #[trigger] b1[p],
                #[trigger] b1[q],
            ) < 0 by {
                assert(b1[p] == b[p + 1] && b1[q] == b[q + 1]);
            }
        }
        lemma_ascending_listing_unique(a1, b1);
        assert(a =~= seq![a[0]] + a1);
        assert(b =~= seq![b[0]] + b1);
    }
}

// ---------------------------------------------------------------------------
// Secondary-only summary
// ---------------------------------------------------------------------------

/// The images seen so far for one SKU.
struct SkuImages {
    sku: Vec<char>,
    has_main_image: bool,
    secondary_images: Vec<String>,
}

spec fn groups_have_sku(groups: Seq<SkuImages>, s: Seq<char>) -> bool {
    exists|k: int| 0 <= k < groups.len() && #[trigger] groups[k].sku@ == s
}

spec fn names_have_sku(names: Seq<Seq<char>>, s: Seq<char>) -> bool {
    exists|j: int| 0 <= j < names.len() && sku_of(#[trigger] names[j]) == s
}

/// What the groups hold after the first `prefix` names: one group per SKU
/// seen, in ascending SKU order, with its main-image flag and secondary images.
spec fn groups_cover(groups: Seq<SkuImages>, prefix: Seq<Seq<char>>) -> bool {
    &&& forall|a: int, b: int|
        0 <= a < b < groups.len() ==> lex_sign(#[trigger] groups[a].sku@, #[trigger] groups[b].sku@) < 0
    &&& forall|s: Seq<char>|
        #![trigger groups_have_sku(groups, s)]
        #![trigger names_have_sku(prefix, s)]
        groups_have_sku(groups, s) <==> names_have_sku(prefix, s)
    &&& forall|k: int|
        0 <= k < groups.len() ==> #[trigger] groups[k].has_main_image == has_main_image(
            prefix,
            groups[k].sku@,
        )
    &&& forall|k: int|
        0 <= k < groups.len() ==> string_views(#[trigger] groups[k].secondary_images@)
            == secondary_images_of(prefix, groups[k].sku@)
}

proof fn lemma_prefix_push_facts(p: Seq<Seq<char>>, x: Seq<char>, s: Seq<char>)
    ensures
        has_main_image(p.push(x), s) == (has_main_image(p, s) || (sku_of(x) == s && image_variant(
            x,
        ).1 is None)),
        secondary_images_of(p.push(x), s) == (if sku_of(x) == s && image_variant(x).1 is Some {
            secondary_images_of(p, s).push(x)
        } else {
            secondary_images_of(p, s)
        }),
{
    let q = p.push(x);
    lemma_filter_push(p, |n: Seq<char>| sku_of(n) == s && image_variant(n).1 is Some, x);
    if has_main_image(p, s) {
        let i = choose|i: int|
            0 <= i < p.len() && sku_of(#[trigger] p[i]) == s && image_variant(p[i]).1 is None;
        assert(q[i] == p[i]);
    }
    if sku_of(x) == s && image_variant(x).1 is None {
        assert(q[p.len() as int] == x);
    }
    if has_main_image(q, s) {
        let i = choose|i: int|
            0 <= i < q.len() && sku_of(#[trigger] q[i]) == s && image_variant(q[i]).1 is None;
        if i < p.len() {
            assert(q[i] == p[i]);
        }
    }
}

/// Adding a name whose SKU already has a group at `k` updates that group.
proof fn lemma_cover_update(
    old_groups: Seq<SkuImages>,
    groups: Seq<SkuImages>,
    p: Seq<Seq<char>>,
    x: Seq<char>,
    k: int,
)
    requires
        groups_cover(old_groups, p),
        0 <= k < old_groups.len(),
        groups.len() == old_groups.len(),
        old_groups[k].sku@ == sku_of(x),
        forall|m: int| 0 <= m < groups.len() && m != k ==> #[trigger] groups[m] == old_groups[m],
        groups[k].sku@ == old_groups[k].sku@,
        groups[k].has_main_image == (old_groups[k].has_main_image || image_variant(x).1 is None),
        string_views(groups[k].secondary_images@) == (if image_variant(x).1 is Some {
            string_views(old_groups[k].secondary_images@).push(x)
        } else {
            string_views(old_groups[k].secondary_images@)
        }),
    ensures
        groups_cover(groups, p.push(x)),
{
    let q = p.push(x);
    assert forall|m: int| 0 <= m < groups.len() implies groups[m].has_main_image
        == has_main_image(q, groups[m].sku@) && string_views(groups[m].secondary_images@)
        == secondary_images_of(q, groups[m].sku@) by {
        lemma_prefix_push_facts(p, x, groups[m].sku@);
        if m != k {
            assert(lex_sign(old_groups[m].sku@, old_groups[k].sku@) != 0) by {
                if m < k {
                } else {
                    lemma_lex_sign_flip(old_groups[k].sku@, old_groups[m].sku@);
                }
            }
            lemma_lex_sign_zero(old_groups[m].sku@, old_groups[k].sku@);
        }
    }
    assert forall|a: int, b: int| 0 <= a < b < groups.len() implies lex_sign(
        #[trigger] groups[a].sku@,
        #[trigger] groups[b].sku@,
    ) < 0 by {
        assert(groups[a].sku@ == old_groups[a].sku@);
        assert(groups[b].sku@ == old_groups[b].sku@);
    }
    assert forall|s: Seq<char>|
        #![trigger groups_have_sku(groups, s)]
        #![trigger names_have_sku(q, s)]
        groups_have_sku(groups, s) <==> names_have_sku(q, s) by {
        if groups_have_sku(groups, s) {
            let m = choose|m: int| 0 <= m < groups.len() && #[trigger] groups[m].sku@ == s;
            assert(old_groups[m].sku@ == s);
            assert(groups_have_sku(old_groups, s));
            let j = choose|j: int| 0 <= j < p.len() && sku_of(#[trigger] p[j]) == s;
            assert(q[j] == p[j]);
        }
        if names_have_sku(q, s) {
            let j = choose|j: int| 0 <= j < q.len() && sku_of(#[trigger] q[j]) == s;
            if j < p.len() {
                assert(q[j] == p[j]);
                assert(names_have_sku(p, s));
                let m = choose|m: int| 0 <= m < old_groups.len() && #[trigger] old_groups[m].sku@ == s;
                assert(groups[m].sku@ == s);
            } else {
                assert(q[j] == x);
                assert(groups[k].sku@ == s);
            }
        }
    }
}

/// Adding a name whose SKU has no group inserts a new group at `pos`.
proof fn lemma_cover_insert(
    old_groups: Seq<SkuImages>,
    groups: Seq<SkuImages>,
    p: Seq<Seq<char>>,
    x: Seq<char>,
    pos: int,
    g: SkuImages,
)
    requires
        groups_cover(old_groups, p),
        0 <= pos <= old_groups.len(),
        groups == old_groups.insert(pos, g),
        g.sku@ == sku_of(x),
        forall|m: int| pos <= m < old_groups.len() ==> lex_sign(#[trigger] old_groups[m].sku@, g.sku@) > 0,
        pos > 0 ==> lex_sign(old_groups[pos - 1].sku@, g.sku@) < 0,
        g.has_main_image == (image_variant(x).1 is None),
        string_views(g.secondary_images@) == (if image_variant(x).1 is Some {
            seq![x]
        } else {
            Seq::<Seq<char>>::empty()
        }),
    ensures
        groups_cover(groups, p.push(x)),
{
    let q = p.push(x);
    let sku = g.sku@;
    assert(!groups_have_sku(old_groups, sku)) by {
        if groups_have_sku(old_groups, sku) {
            let m = choose|m: int| 0 <= m < old_groups.len() && #[trigger] old_groups[m].sku@ == sku;
            lemma_lex_sign_zero(sku, sku);
            if m < pos - 1 {
                assert(lex_sign(old_groups[m].sku@, old_groups[pos - 1].sku@) < 0);
                crate::text::lemma_lex_sign_strict_trans(sku, old_groups[pos - 1].sku@, sku);
            }
        }
    }
    assert(!names_have_sku(p, sku));
    assert(!has_main_image(p, sku)) by {
        if has_main_image(p, sku) {
            let i = choose|i: int|
                0 <= i < p.len() && sku_of(#[trigger] p[i]) == sku && image_variant(p[i]).1 is None;
            assert(names_have_sku(p, sku));
        }
    }
    assert forall|j: int| 0 <= j < p.len() implies !(sku_of(#[trigger] p[j]) == sku && image_variant(
        p[j],
    ).1 is Some) by {
        if sku_of(p[j]) == sku {
            assert(names_have_sku(p, sku));
        }
    }
    lemma_filter_none(p, |n: Seq<char>| sku_of(n) == sku && image_variant(n).1 is Some);
    assert(secondary_images_of(p, sku) == Seq::<Seq<char>>::empty());
    assert forall|m: int| 0 <= m < groups.len() implies groups[m].has_main_image
        == has_main_image(q, groups[m].sku@) && string_views(groups[m].secondary_images@)
        == secondary_images_of(q, groups[m].sku@) by {
        lemma_prefix_push_facts(p, x, groups[m].sku@);
        if m == pos {
            assert(groups[m] == g);
            if image_variant(x).1 is Some {
                assert(Seq::<Seq<char>>::empty().push(x) =~= seq![x]);
            }
        } else {
            let om = if m < pos {
                m
            } else {
                m - 1
            };
            assert(groups[m] == old_groups[om]);
            assert(old_groups[om].sku@ != sku) by {
                if old_groups[om].sku@ == sku {
                    assert(groups_have_sku(old_groups, sku));
                }
            }
        }
    }
    assert forall|a: int, b: int| 0 <= a < b < groups.len() implies lex_sign(
        #[trigger] groups[a].sku@,
        #[trigger] groups[b].sku@,
    ) < 0 by {
        if b < pos {
            assert(groups[a] == old_groups[a] && groups[b] == old_groups[b]);
        } else if b == pos {
            assert(groups[a] == old_groups[a] && groups[b] == g);
            if a < pos - 1 {
                assert(lex_sign(old_groups[a].sku@, old_groups[pos - 1].sku@) < 0);
                lemma_lex_sign_range(old_groups[pos - 1].sku@, sku);
                crate::text::lemma_lex_sign_strict_trans(old_groups[a].sku@, old_groups[pos - 1].sku@, sku);
            }
        } else if a == pos {
            assert(groups[a] == g && groups[b] == old_groups[b - 1]);
            lemma_lex_sign_flip(old_groups[b - 1].sku@, sku);
        } else if a < pos {
            assert(groups[a] == old_groups[a] && groups[b] == old_groups[b - 1]);
        } else {
            assert(groups[a] == old_groups[a - 1] && groups[b] == old_groups[b - 1]);
        }
    }
    assert forall|s: Seq<char>|
        #![trigger groups_have_sku(groups, s)]
        #![trigger names_have_sku(q, s)]
        groups_have_sku(groups, s) <==> names_have_sku(q, s) by {
        if groups_have_sku(groups, s) {
            let m = choose|m: int| 0 <= m < groups.len() && #[trigger] groups[m].sku@ == s;
            if m == pos {
                assert(q[p.len() as int] == x);
            } else {
                let om = if m < pos {
                    m
                } else {
                    m - 1
                };
                assert(groups[m] == old_groups[om]);
                assert(groups_have_sku(old_groups, s));
                let j = choose|j: int| 0 <= j < p.len() && sku_of(#[trigger] p[j]) == s;
                assert(q[j] == p[j]);
            }
        }
        if names_have_sku(q, s) {
            let j = choose|j: int| 0 <= j < q.len() && sku_of(#[trigger] q[j]) == s;
            if j < p.len() {
                assert(q[j] == p[j]);
                assert(names_have_sku(p, s));
                let m = choose|m: int| 0 <= m < old_groups.len() && #[trigger] old_groups[m].sku@ == s;
                let nm = if m < pos {
                    m
                } else {
                    m + 1
                };
                assert(groups[nm] == old_groups[m]);
            } else {
                assert(q[j] == x);
                assert(groups[pos].sku@ == s);
            }
        }
    }
}

/// Adds one image name to the groups.
fn add_to_groups(groups: &mut Vec<SkuImages>, name: &String, Ghost(p): Ghost<Seq<Seq<char>>>)
    requires
        groups_cover(old(groups)@, p),
    ensures
        groups_cover(final(groups)@, p.push(name@)),
{
    let ghost x = name@;
    let (sku_text, index) = crate::file_names::parse_image_variant(name.as_str());
    let sku = chars_of(sku_text.as_str());
    assert(sku@ == sku_of(x));
    let is_main = index.is_none();
    let mut pos = groups.len();
    while pos > 0 && lex_sign_of(&groups[pos - 1].sku, &sku) > 0
        invariant
            0 <= pos <= groups@.len(),
            forall|k: int| pos <= k < groups@.len() ==> lex_sign(#[trigger] groups@[k].sku@, sku@) > 0,
        decreases pos,
    {
        pos = pos - 1;
    }
    let ghost old_groups = groups@;
    if pos > 0 && lex_sign_of(&groups[pos - 1].sku, &sku) == 0 {
        let k = pos - 1;
        proof {
            lemma_lex_sign_zero(groups@[k as int].sku@, sku@);
        }
        let mut g = groups.remove(k);
        let ghost og = g;
        if is_main {
            g.has_main_image = true;
        } else {
            let ghost before = string_views(g.secondary_images@);
            g.secondary_images.push(name.clone());
            assert(string_views(g.secondary_images@) =~= before.push(x));
        }
        groups.insert(k, g);
        proof {
            assert forall|m: int| 0 <= m < groups@.len() && m != k implies #[trigger] groups@[m]
                == old_groups[m] by {
                if m < k {
                } else {
                }
            }
            lemma_cover_update(old_groups, groups@, p, x, k as int);
        }
    } else {
        proof {
            if pos > 0 {
                lemma_lex_sign_range(groups@[pos - 1].sku@, sku@);
            }
        }
        let mut secondary_images: Vec<String> = Vec::new();
        if !is_main {
            secondary_images.push(name.clone());
            assert(string_views(secondary_images@) =~= seq![x]);
        } else {
            assert(string_views(secondary_images@) =~= Seq::<Seq<char>>::empty());
        }
        let g = SkuImages { sku, has_main_image: is_main, secondary_images };
        groups.insert(pos, g);
        proof {
            lemma_cover_insert(old_groups, groups@, p, x, pos as int, g);
        }
    }
}

/// How many SKUs have secondary images but no main image, and those secondary
/// images: SKU by SKU in ascending order, in the order of `image_names` within a SKU.
pub fn secondary_only_summary(image_names: &[String]) -> (res: (usize, Vec<String>))
    ensures
        is_secondary_only_listing(string_views(image_names@), secondary_only_skus(string_views(image_names@))),
        res.0 == secondary_only_skus(string_views(image_names@)).len(),
        string_views(res.1@) == secondary_only_images(string_views(image_names@)),
        forall|i: int|
            0 <= i < res.1@.len() ==> image_variant(#[trigger] res.1@[i]@).1 is Some
                && is_secondary_only(string_views(image_names@), sku_of(res.1@[i]@)),
{
    let ghost names = string_views(image_names@);
    let mut groups: Vec<SkuImages> = Vec::new();
    let n = image_names.len();
    let mut i: usize = 0;
    assert(groups_cover(groups@, names.take(0)));
    while i < n
        invariant
            n == image_names@.len(),
            names == string_views(image_names@),
            0 <= i <= n,
            groups_cover(groups@, names.take(i as int)),
        decreases n - i,
    {
        assert(names.take(i + 1) =~= names.take(i as int).push(image_names@[i as int]@));
        add_to_groups(&mut groups, &image_names[i], Ghost(names.take(i as int)));
        i = i + 1;
    }
    assert(names.take(n as int) =~= names);
    // Collect the secondary-only groups.
    let mut count: usize = 0;
    let mut images: Vec<String> = Vec::new();
    let ghost mut skus: Seq<Seq<char>> = Seq::empty();
    let ghost mut picked: Seq<int> = Seq::empty();
    let ghost f = |s: Seq<char>| secondary_images_of(names, s);
    let mut k: usize = 0;
    assert(skus.map_values(f).flatten() =~= Seq::<Seq<char>>::empty());
    while k < groups.len()
        invariant
            groups_cover(groups@, names),
            f == (|s: Seq<char>| secondary_images_of(names, s)),
            0 <= k <= groups@.len(),
            count == skus.len(),
            count <= k,
            picked.len() == skus.len(),
            forall|a: int| 0 <= a < picked.len() ==> 0 <= #[trigger] picked[a] < k,
            forall|a: int| 0 <= a < picked.len() ==> skus[a] == groups@[#[trigger] picked[a]].sku@,
            forall|a: int| 0 <= a < skus.len() ==> is_secondary_only(names, #[trigger] skus[a]),
            strictly_ascending(skus),
            forall|m: int| 0 <= m < k && is_secondary_only(names, #[trigger] groups@[m].sku@) ==> skus.contains(groups@[m].sku@),
            string_views(images@) == skus.map_values(f).flatten(),
            forall|j: int|
                0 <= j < images@.len() ==> image_variant(#[trigger] images@[j]@).1 is Some
                    && is_secondary_only(names, sku_of(images@[j]@)),
        decreases groups@.len() - k,
    {
        let ghost gs = groups@[k as int].sku@;
        assert(groups@[k as int].has_main_image == has_main_image(names, gs));
        assert(string_views(groups@[k as int].secondary_images@) == secondary_images_of(names, gs));
        if !groups[k].has_main_image && groups[k].secondary_images.len() > 0 {
            let ghost before = string_views(images@);
            let mut m: usize = 0;
            let ghost secs = string_views(groups@[k as int].secondary_images@);
            assert(secs.take(0) =~= Seq::<Seq<char>>::empty());
            assert(before + secs.take(0) =~= before);
            while m < groups[k].secondary_images.len()
                invariant
                    k < groups@.len(),
                    0 <= m <= groups@[k as int].secondary_images@.len(),
                    secs == string_views(groups@[k as int].secondary_images@),
                    secs == secondary_images_of(names, gs),
                    is_secondary_only(names, gs),
                    string_views(images@) == before + secs.take(m as int),
                    forall|j: int|
                        0 <= j < images@.len() ==> image_variant(#[trigger] images@[j]@).1 is Some
                            && is_secondary_only(names, sku_of(images@[j]@)),
                decreases groups@[k as int].secondary_images@.len() - m,
            {
                let ghost cur = string_views(images@);
                proof {
                    names.lemma_filter_pred(|n: Seq<char>| sku_of(n) == gs && image_variant(n).1 is Some, m as int);
                    assert(secs[m as int] == groups@[k as int].secondary_images@[m as int]@);
                }
                images.push(groups[k].secondary_images[m].clone());
                assert(string_views(images@) =~= cur.push(secs[m as int]));
                assert(secs.take(m + 1) =~= secs.take(m as int).push(secs[m as int]));
                assert(before + secs.take(m + 1) =~= (before + secs.take(m as int)).push(secs[m as int]));
                m = m + 1;
            }
            assert(secs.take(m as int) =~= secs);
            proof {
                assert(skus.push(gs).map_values(f) =~= skus.map_values(f).push(f(gs)));
                skus.map_values(f).lemma_flatten_push(f(gs));
                assert forall|a: int, b: int| 0 <= a < b < skus.push(gs).len() implies lex_sign(
                    #[trigger] skus.push(gs)[a],
                    #[trigger] skus.push(gs)[b],
                ) < 0 by {
                    if b == skus.len() {
                        assert(skus.push(gs)[a] == groups@[picked[a]].sku@);
                    } else {
                        assert(skus.push(gs)[a] == skus[a] && skus.push(gs)[b] == skus[b]);
                    }
                }
                assert forall|mm: int| 0 <= mm < k + 1 && is_secondary_only(names, #[trigger] groups@[mm].sku@) implies skus.push(gs).contains(groups@[mm].sku@) by {
                    if mm == k {
                        assert(skus.push(gs)[skus.len() as int] == gs);
                    } else {
                        let a = choose|a: int| 0 <= a < skus.len() && skus[a] == groups@[mm].sku@;
                        assert(skus.push(gs)[a] == skus[a]);
                    }
                }
                skus = skus.push(gs);
                picked = picked.push(k as int);
            }
            count = count + 1;
        } else {
            proof {
                assert(!is_secondary_only(names, gs));
            }
        }
        k = k + 1;
    }
    proof {
        assert forall|s: Seq<char>| skus.contains(s) <==> is_secondary_only(names, s) by {
            if is_secondary_only(names, s) {
                let secs = secondary_images_of(names, s);
                let e = secs[0];
                names.lemma_filter_pred(|n: Seq<char>| sku_of(n) == s && image_variant(n).1 is Some, 0);
                assert(secs.contains(e));
                names.lemma_filter_contains_rev(|n: Seq<char>| sku_of(n) == s && image_variant(n).1 is Some, e);
                let j = choose|j: int| 0 <= j < names.len() && names[j] == e;
                assert(sku_of(names[j]) == s);
                assert(names_have_sku(names, s));
                let m = choose|m: int| 0 <= m < groups@.len() && #[trigger] groups@[m].sku@ == s;
            }
        }
        assert(is_secondary_only_listing(names, skus));
        let chosen = secondary_only_skus(names);
        assert(is_secondary_only_listing(names, chosen));
        lemma_ascending_listing_unique(chosen, skus);
    }
    (count, images)
}


// ---------------------------------------------------------------------------
// Collecting the rows
// ---------------------------------------------------------------------------

/// Why a catalog cannot be built.
#[derive(Debug, Clone, Copy, PartialEq, Eq)]
pub enum CatalogError {
    /// The UNC base path is empty once white space and trailing `\` are removed.
    BlankUncBase,
}

impl CatalogError {
    /// The message shown for the error.
    pub fn message(&self) -> (res: &'static str)
        ensures
            res@ == "UNC base path cannot be blank"@,
    {
        match self {
            CatalogError::BlankUncBase => "UNC base path cannot be blank",
        }
    }
}

/// The UNC base path without surrounding white space and trailing `\`.
pub open spec fn normalized_unc(unc_base: Seq<char>) -> Seq<char> {
    trim_end_char(trim(unc_base), '\\')
}

/// The row of the image `name` under the UNC base `unc`.
pub open spec fn is_row_of(row: ImageRow, unc: Seq<char>, name: Seq<char>) -> bool {
    &&& row.file_name@ == unc + seq!['\\'] + name
    &&& row.sku@ == sku_of(name)
}

/// The catalog built from the JPG image names `names` (in image order) under the UNC base `unc`.
pub open spec fn is_catalog_of(c: ImageCollection, unc: Seq<char>, names: Seq<Seq<char>>) -> bool {
    &&& c.image_rows@.len() == names.len()
    &&& forall|i: int| 0 <= i < names.len() ==> is_row_of(#[trigger] c.image_rows@[i], unc, names[i])
    &&& c.secondary_only_sku_count == secondary_only_skus(names).len()
    &&& string_views(c.secondary_only_images@) == secondary_only_images(names)
}

/// Builds the catalog of the JPG images among `file_names` (the names of the
/// files in the image folder): one row per image in image order, with its path
/// under the UNC base and its SKU, and the secondary-only summary.
pub fn collect_image_rows(file_names: Vec<String>, unc_base: &str) -> (res: Result<ImageCollection, CatalogError>)
    ensures
        names_sorted(sorted_names(jpg_names(string_views(file_names@)))),
        sorted_names(jpg_names(string_views(file_names@))).to_multiset() == jpg_names(
            string_views(file_names@),
        ).to_multiset(),
        res is Ok ==> is_secondary_only_listing(
            sorted_names(jpg_names(string_views(file_names@))),
            secondary_only_skus(sorted_names(jpg_names(string_views(file_names@)))),
        ),
        res is Err <==> normalized_unc(unc_base@).len() == 0,
        res matches Err(e) ==> e == CatalogError::BlankUncBase,
        res matches Ok(c) ==> is_catalog_of(
            c,
            normalized_unc(unc_base@),
            sorted_names(jpg_names(string_views(file_names@))),
        ),
{
    let names = list_jpg_names(file_names);
    let trimmed = trim_str(unc_base);
    let normalized = trim_end_char_str(trimmed, '\\');
    if normalized.is_empty() {
        return Err(CatalogError::BlankUncBase);
    }
    let ghost unc = normalized@;
    let mut rows: Vec<ImageRow> = Vec::new();
    let mut i: usize = 0;
    while i < names.len()
        invariant
            unc == normalized@,
            0 <= i <= names@.len(),
            rows@.len() == i,
            forall|k: int| 0 <= k < i ==> is_row_of(#[trigger] rows@[k], unc, names@[k]@),
        decreases names@.len() - i,
    {
        proof {
            reveal_strlit("\\");
        }
        let mut file_name = String::from_str(normalized);
        file_name.append("\\");
        assert("\\"@ =~= seq!['\\']);
        file_name.append(names[i].as_str());
        let sku = parent_sku_from_filename(names[i].as_str());
        let ghost old_rows = rows@;
        let row = ImageRow { file_name, sku };
        assert(is_row_of(row, unc, names@[i as int]@));
        rows.push(row);
        assert forall|k: int| 0 <= k < i + 1 implies is_row_of(#[trigger] rows@[k], unc, names@[k]@) by {
            if k < i {
                assert(rows@[k] == old_rows[k]);
            }
        }
        i = i + 1;
    }
    let (secondary_only_sku_count, secondary_only_images) = crate::catalog::secondary_only_summary(names.as_slice());
    let c = ImageCollection { image_rows: rows, secondary_only_images, secondary_only_sku_count };
    proof {
        assert forall|k: int| 0 <= k < names@.len() implies #[trigger] string_views(names@)[k] == names@[k]@ by {}
    }
    Ok(c)
}

} // verus!
