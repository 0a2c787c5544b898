//! Raster-font bookkeeping: which glyphs to rasterize, which loaded size variant serves a
//! request, and how size variants are keyed.
use vstd::prelude::*;

use crate::text::{concat_str, decimal, u64_to_decimal};
use crate::{GlyphSet, WarmStats};
use std::collections::VecDeque;

verus! {

broadcast use vstd::string::group_string_axioms;

/// Per-frame glyph budget for runtime rasterization when none is configured.
pub const DEFAULT_RUNTIME_GLYPH_BUDGET_PER_FRAME: usize = 128;

/// Unicode general category Cc ("control"): U+0000..=U+001F and U+007F..=U+009F.
pub open spec fn is_control(c: char) -> bool {
    (c as u32) <= 0x1F || (0x7F <= (c as u32) && (c as u32) <= 0x9F)
}

/// The chars a glyph set asks for, before filtering.
pub open spec fn glyph_set_source(glyph_set: GlyphSet) -> Seq<char> {
    match glyph_set {
        GlyphSet::AsciiCore => Seq::new(95, |i: int| (32 + i) as char),
        GlyphSet::Custom(chars) => chars@,
    }
}

/// `c` is rasterized for `glyph_set`: a non-control char the set asks for, or the space or
/// question mark that every set includes.
pub open spec fn in_glyph_set(glyph_set: GlyphSet, c: char) -> bool {
    ||| (glyph_set_source(glyph_set).contains(c) && !is_control(c))
    ||| c == ' '
    ||| c == '?'
}

/// `s` is sorted in strictly increasing order (so it has no duplicates).
pub open spec fn strictly_increasing(s: Seq<char>) -> bool {
    forall|i: int, j: int| 0 <= i < j < s.len() ==> (s[i] as u32) < (s[j] as u32)
}

fn is_control_exec(c: char) -> (r: bool)
    ensures
        r == is_control(c),
{
    let u = c as u32;
    u <= 0x1F || (0x7F <= u && u <= 0x9F)
}

proof fn lemma_char_u32_injective(a: char, b: char)
    requires
        (a as u32) == (b as u32),
    ensures
        a == b,
{
    vstd::utf8::char_u32_cast(a, a as u32);
    vstd::utf8::char_u32_cast(b, b as u32);
}

/// Inserts `c` into a strictly increasing vector, keeping it so.
fn insert_sorted_unique(v: &mut Vec<char>, c: char)
    requires
        strictly_increasing(old(v)@),
    ensures
        strictly_increasing(final(v)@),
        forall|x: char| final(v)@.contains(x) <==> (old(v)@.contains(x) || x == c),
{
    let cu = c as u32;
    let mut i: usize = 0;
    while i < v.len() && (v[i] as u32) < cu
        invariant
            i <= v@.len(),
            v@ == old(v)@,
            strictly_increasing(v@),
            forall|j: int| 0 <= j < i ==> (v@[j] as u32) < cu,
        decreases v@.len() - i,
    {
        i = i + 1;
    }
    if i < v.len() && (v[i] as u32) == cu {
        proof {
            lemma_char_u32_injective(v@[i as int], c);
            assert(v@.contains(c));
            assert(v@ == old(v)@);
            assert forall|x: char| v@.contains(x) <==> (old(v)@.contains(x) || x == c) by {}
        }
    } else {
        let ghost pre = v@;
        v.insert(i, c);
        proof {
            assert forall|x: char| v@.contains(x) <==> (pre.contains(x) || x == c) by {
                if v@.contains(x) {
                    let k = choose|k: int| 0 <= k < v@.len() && v@[k] == x;
                    if k < i {
                        assert(pre[k] == x);
                    } else if k > i {
                        assert(pre[k - 1] == x);
                    }
                }
                if pre.contains(x) {
                    let k = choose|k: int| 0 <= k < pre.len() && pre[k] == x;
                    if k < i {
                        assert(v@[k] == x);
                    } else {
                        assert(v@[k + 1] == x);
                    }
                }
                if x == c {
                    assert(v@[i as int] == c);
                }
            }
            assert(pre == old(v)@);
            assert forall|x: char| v@.contains(x) <==> (old(v)@.contains(x) || x == c) by {}
            assert forall|a: int, b: int| 0 <= a < b < v@.len() implies (v@[a] as u32) < (
            v@[b] as u32) by {
                if a < i && b == i {
                } else if a == i && b > i {
                    assert((pre[i as int] as u32) >= cu);
                    assert((pre[i as int] as u32) != cu);
                    assert(pre[i as int] as u32 <= pre[b - 1] as u32);
                } else if a < i && b > i {
                    assert(v@[a] == pre[a]);
                    assert(v@[b] == pre[b - 1]);
                } else if a > i {
                    assert(v@[a] == pre[a - 1]);
                    assert(v@[b] == pre[b - 1]);
                }
            }
        }
    }
}

/// `s` is sorted in strictly increasing order.
pub open spec fn strictly_increasing_u32(s: Seq<u32>) -> bool {
    forall|i: int, j: int| 0 <= i < j < s.len() ==> s[i] < s[j]
}

/// Inserts `x` into a strictly increasing vector, keeping it so.
fn insert_sorted_unique_u32(v: &mut Vec<u32>, x: u32)
    requires
        strictly_increasing_u32(old(v)@),
    ensures
        strictly_increasing_u32(final(v)@),
        forall|y: u32| final(v)@.contains(y) <==> (old(v)@.contains(y) || y == x),
{
    let mut i: usize = 0;
    while i < v.len() && v[i] < x
        invariant
            i <= v@.len(),
            v@ == old(v)@,
            strictly_increasing_u32(v@),
            forall|j: int| 0 <= j < i ==> v@[j] < x,
        decreases v@.len() - i,
    {
        i = i + 1;
    }
    if i < v.len() && v[i] == x {
        proof {
            assert(v@[i as int] == x);
            assert forall|y: u32| v@.contains(y) <==> (old(v)@.contains(y) || y == x) by {}
        }
    } else {
        let ghost pre = v@;
        v.insert(i, x);
        proof {
            assert forall|y: u32| v@.contains(y) <==> (pre.contains(y) || y == x) by {
                if v@.contains(y) {
                    let k = choose|k: int| 0 <= k < v@.len() && v@[k] == y;
                    if k < i {
                        assert(pre[k] == y);
                    } else if k > i {
                        assert(pre[k - 1] == y);
                    }
                }
                if pre.contains(y) {
                    let k = choose|k: int| 0 <= k < pre.len() && pre[k] == y;
                    if k < i {
                        assert(v@[k] == y);
                    } else {
                        assert(v@[k + 1] == y);
                    }
                }
                if y == x {
                    assert(v@[i as int] == x);
                }
            }
            assert forall|a: int, b: int| 0 <= a < b < v@.len() implies v@[a] < v@[b] by {
                if a < i && b == i {
                } else if a == i && b > i {
                    assert(pre[i as int] >= x);
                    assert(pre[i as int] <= pre[b - 1]);
                } else if a < i && b > i {
                    assert(v@[a] == pre[a]);
                    assert(v@[b] == pre[b - 1]);
                } else if a > i {
                    assert(v@[a] == pre[a - 1]);
                    assert(v@[b] == pre[b - 1]);
                }
            }
        }
    }
}

/// The quantized sizes a newly loaded raster family is rasterized at: each of `size_qs` once,
/// in increasing order.
pub fn normalize_prewarm_sizes(size_qs: &Vec<u32>) -> (r: Vec<u32>)
    ensures
        strictly_increasing_u32(r@),
        forall|x: u32| r@.contains(x) <==> size_qs@.contains(x),
{
    let mut out: Vec<u32> = Vec::new();
    let mut i: usize = 0;
    while i < size_qs.len()
        invariant
            i <= size_qs@.len(),
            strictly_increasing_u32(out@),
            forall|x: u32| out@.contains(x) <==> size_qs@.take(i as int).contains(x),
        decreases size_qs@.len() - i,
    {
        let ghost before = out@;
        insert_sorted_unique_u32(&mut out, size_qs[i]);
        proof {
            let t = size_qs@.take(i + 1);
            assert forall|x: u32| t.contains(x) <==> (size_qs@.take(i as int).contains(x) || x
                == size_qs@[i as int]) by {
                if t.contains(x) {
                    let k = choose|k: int| 0 <= k < t.len() && t[k] == x;
                    if k < i {
                        assert(size_qs@.take(i as int)[k] == x);
                    }
                }
                if size_qs@.take(i as int).contains(x) {
                    let k = choose|k: int| 0 <= k < i && size_qs@.take(i as int)[k] == x;
                    assert(t[k] == x);
                }
                if x == size_qs@[i as int] {
                    assert(t[i as int] == x);
                }
            }
        }
        i = i + 1;
    }
    assert(size_qs@.take(size_qs@.len() as int) =~= size_qs@);
    out
}

/// The chars to rasterize for `glyph_set`: the non-control chars it asks for, plus the space
/// and the question mark, sorted and without duplicates.
pub fn glyphs_from_set(glyph_set: &GlyphSet) -> (r: Vec<char>)
    ensures
        strictly_increasing(r@),
        forall|c: char| r@.contains(c) <==> in_glyph_set(*glyph_set, c),
{
    let mut out: Vec<char> = Vec::new();
    match glyph_set {
        GlyphSet::AsciiCore => {
            let mut b: u8 = 32;
            while b <= 126
                invariant
                    32 <= b <= 127,
                    strictly_increasing(out@),
                    forall|x: char| #[trigger] out@.contains(x) <==> (32 <= (x as u32) < b as u32),
                decreases 127 - b,
            {
                let ghost before = out@;
                let ch = b as char;
                assert((ch as u32) == b as u32);
                insert_sorted_unique(&mut out, ch);
                proof {
                    assert forall|c: char| out@.contains(c) <==> (32 <= (c as u32) < b as u32 + 1) by {
                        if (c as u32) == b as u32 {
                            lemma_char_u32_injective(c, ch);
                        }
                    }
                }
                b = b + 1;
            }
        },
        GlyphSet::Custom(chars) => {
            let mut i: usize = 0;
            while i < chars.len()
                invariant
                    i <= chars@.len(),
                    strictly_increasing(out@),
                    forall|x: char|
                        #[trigger] out@.contains(x) <==> (chars@.take(i as int).contains(x)
                            && !is_control(x)),
                decreases chars@.len() - i,
            {
                let c = chars[i];
                let ghost before = out@;
                if !is_control_exec(c) {
                    insert_sorted_unique(&mut out, c);
                    assert(forall|x: char| out@.contains(x) <==> (before.contains(x) || x == c));
                }
                proof {
                    let t0 = chars@.take(i as int);
                    let t1 = chars@.take(i + 1);
                    assert(t1 =~= t0.push(c));
                    assert forall|x: char| t1.contains(x) <==> (t0.contains(x) || x == c) by {
                        if t1.contains(x) {
                            let k = choose|k: int| 0 <= k < t1.len() && #[trigger] t1[k] == x;
                            if k < i {
                                assert(t0[k] == x);
                            }
                        }
                        if t0.contains(x) {
                            let k = choose|k: int| 0 <= k < t0.len() && #[trigger] t0[k] == x;
                            assert(t1[k] == x);
                        }
                        if x == c {
                            assert(t1[i as int] == x);
                        }
                    }
                    assert forall|x: char| out@.contains(x) <==> (t1.contains(x) && !is_control(x)) by {
                        assert(before.contains(x) <==> (t0.contains(x) && !is_control(x)));
                        assert(t1.contains(x) <==> (t0.contains(x) || x == c));
                        if !is_control(c) {
                            assert(out@.contains(x) <==> (before.contains(x) || x == c));
                        } else {
                            assert(out@ == before);
                        }
                    }
                }
                i = i + 1;
            }
            assert(chars@.take(chars@.len() as int) =~= chars@);
        },
    }
    insert_sorted_unique(&mut out, ' ');
    insert_sorted_unique(&mut out, '?');
    proof {
        if glyph_set is AsciiCore {
            let src = glyph_set_source(*glyph_set);
            assert forall|c: char| src.contains(c) <==> (32 <= (c as u32) <= 126) by {
                if 32 <= (c as u32) <= 126 {
                    let k = (c as u32) - 32;
                    assert(src[k as int] == ((32 + k) as char));
                    vstd::utf8::char_u32_cast(c, c as u32);
                    assert(src[k as int] == c);
                    assert(src.contains(c));
                }
                if src.contains(c) {
                    let k = choose|k: int| 0 <= k < src.len() && src[k] == c;
                    assert(src[k] == ((32 + k) as char));
                }
            }
        }
    }
    out
}

/// `a` differs from `b` by `d` (absolute difference).
pub open spec fn abs_diff(a: u32, b: u32) -> nat {
    if a >= b { (a - b) as nat } else { (b - a) as nat }
}

fn abs_diff_u32(a: u32, b: u32) -> (r: u32)
    ensures
        r == abs_diff(a, b),
{
    if a >= b {
        a - b
    } else {
        b - a
    }
}

/// Loaded variant `key` is at least as close to `requested` as `other`: first by size distance,
/// then by DPI distance.
pub open spec fn no_farther(key: (u32, u32), other: (u32, u32), requested: (u32, u32)) -> bool {
    let sd = abs_diff(requested.0, key.0);
    let dd = abs_diff(requested.1, key.1);
    let osd = abs_diff(requested.0, other.0);
    let odd = abs_diff(requested.1, other.1);
    sd < osd || (sd == osd && dd <= odd)
}

/// Picks the loaded (size, dpi) variant that serves `requested` (both quantized):
/// the exact variant when loaded, flagged `true`, otherwise a nearest one by size distance
/// and then DPI distance, flagged `false`; `None` when nothing is loaded.
pub fn choose_loaded_raster_entry(loaded_sizes: &Vec<(u32, u32)>, requested: (u32, u32)) -> (r:
    Option<(usize, bool)>)
    ensures
        r is None <==> loaded_sizes@.len() == 0,
        r matches Some((i, exact)) ==> {
            &&& i < loaded_sizes@.len()
            &&& exact == loaded_sizes@.contains(requested)
            &&& exact ==> loaded_sizes@[i as int] == requested
            &&& forall|j: int|
                0 <= j < loaded_sizes@.len() ==> no_farther(
                    loaded_sizes@[i as int],
                    loaded_sizes@[j],
                    requested,
                )
        },
{
    let mut i: usize = 0;
    while i < loaded_sizes.len()
        invariant
            i <= loaded_sizes@.len(),
            forall|j: int| 0 <= j < i ==> loaded_sizes@[j] != requested,
        decreases loaded_sizes@.len() - i,
    {
        let key = loaded_sizes[i];
        if key.0 == requested.0 && key.1 == requested.1 {
            proof {
                assert forall|j: int| 0 <= j < loaded_sizes@.len() implies no_farther(
                    loaded_sizes@[i as int],
                    loaded_sizes@[j],
                    requested,
                ) by {}
            }
            return Some((i, true));
        }
        i = i + 1;
    }
    assert(!loaded_sizes@.contains(requested));
    if loaded_sizes.len() == 0 {
        return None;
    }
    let mut best: usize = 0;
    let mut best_size_delta: u32 = abs_diff_u32(requested.0, loaded_sizes[0].0);
    let mut best_dpi_delta: u32 = abs_diff_u32(requested.1, loaded_sizes[0].1);
    let mut k: usize = 1;
    while k < loaded_sizes.len()
        invariant
            1 <= k <= loaded_sizes@.len(),
            best < loaded_sizes@.len(),
            best_size_delta == abs_diff(requested.0, loaded_sizes@[best as int].0),
            best_dpi_delta == abs_diff(requested.1, loaded_sizes@[best as int].1),
            forall|j: int|
                0 <= j < k ==> no_farther(loaded_sizes@[best as int], loaded_sizes@[j], requested),
        decreases loaded_sizes@.len() - k,
    {
        let size_delta = abs_diff_u32(requested.0, loaded_sizes[k].0);
        let dpi_delta = abs_diff_u32(requested.1, loaded_sizes[k].1);
        if size_delta < best_size_delta || (size_delta == best_size_delta && dpi_delta
            < best_dpi_delta) {
            best = k;
            best_size_delta = size_delta;
            best_dpi_delta = dpi_delta;
        }
        k = k + 1;
    }
    Some((best, false))
}

/// The atlas that serves text of a font key.
#[derive(Debug, Clone, Copy, PartialEq, Eq, Structural)]
pub enum AtlasChoice {
    /// The atlas registered under the font key itself.
    FontKey,
    /// The loaded raster variant at this index of the family's loaded variants.
    Entry(usize),
}

/// How text of a font key is served: by which atlas, whether at the requested (sanitized)
/// size in place of the caller's size override, and whether the exact variant should be
/// queued for warming.
#[derive(Debug, Clone, Copy, PartialEq, Eq, Structural)]
pub struct FontKeyResolution {
    pub atlas: AtlasChoice,
    pub use_target_size: bool,
    pub queue_warm: bool,
}

/// The resolution serves text through the nearest loaded variant, when there is one.
pub open spec fn serves_nearest(
    r: FontKeyResolution,
    family_loaded: bool,
    loaded_sizes: Seq<(u32, u32)>,
    requested: (u32, u32),
) -> bool {
    &&& (r.atlas == AtlasChoice::FontKey) == (!family_loaded || loaded_sizes.len() == 0)
    &&& r.atlas matches AtlasChoice::Entry(i) ==> {
        &&& i < loaded_sizes.len()
        &&& loaded_sizes.contains(requested) ==> loaded_sizes[i as int] == requested
        &&& forall|j: int|
            0 <= j < loaded_sizes.len() ==> no_farther(loaded_sizes[i as int], loaded_sizes[j], requested)
    }
}

/// Resolves the atlas for rendering text of a font key. `family_loaded`: the key names a
/// raster family, whose loaded `(size, dpi)` variants are `loaded_sizes`; `requested` is the
/// quantized target size and DPI; `has_override`: the caller gave a size. A family renders
/// through its nearest loaded variant, at the target size unless the variant is exact and no
/// size was given; a missing exact variant is queued for warming.
pub fn resolve_font_key_for_render(
    family_loaded: bool,
    loaded_sizes: &Vec<(u32, u32)>,
    requested: (u32, u32),
    has_override: bool,
) -> (r: FontKeyResolution)
    ensures
        serves_nearest(r, family_loaded, loaded_sizes@, requested),
        r.use_target_size == (family_loaded && loaded_sizes@.len() > 0 && (has_override
            || !loaded_sizes@.contains(requested))),
        r.queue_warm == (family_loaded && !loaded_sizes@.contains(requested)),
{
    if !family_loaded {
        return FontKeyResolution { atlas: AtlasChoice::FontKey, use_target_size: false, queue_warm: false };
    }
    match choose_loaded_raster_entry(loaded_sizes, requested) {
        Some((i, exact)) => FontKeyResolution {
            atlas: AtlasChoice::Entry(i),
            use_target_size: has_override || !exact,
            queue_warm: !exact,
        },
        None => {
            proof {
                assert(!loaded_sizes@.contains(requested));
            }
            FontKeyResolution { atlas: AtlasChoice::FontKey, use_target_size: false, queue_warm: true }
        },
    }
}

/// Resolves the atlas for measuring text of a font key: as for rendering, but the target size
/// replaces only a size the caller gave, and nothing is queued.
pub fn resolve_font_key_for_measure(
    family_loaded: bool,
    loaded_sizes: &Vec<(u32, u32)>,
    requested: (u32, u32),
    has_override: bool,
) -> (r: FontKeyResolution)
    ensures
        serves_nearest(r, family_loaded, loaded_sizes@, requested),
        r.use_target_size == (family_loaded && loaded_sizes@.len() > 0 && has_override),
        !r.queue_warm,
{
    if !family_loaded {
        return FontKeyResolution { atlas: AtlasChoice::FontKey, use_target_size: false, queue_warm: false };
    }
    match choose_loaded_raster_entry(loaded_sizes, requested) {
        Some((i, _exact)) => FontKeyResolution {
            atlas: AtlasChoice::Entry(i),
            use_target_size: has_override,
            queue_warm: false,
        },
        None => FontKeyResolution { atlas: AtlasChoice::FontKey, use_target_size: false, queue_warm: false },
    }
}

/// Atlas key of the raster variant of `font_key` at quantized size `size_q` and DPI `dpi_q`.
pub open spec fn spec_raster_variant_key(font_key: Seq<char>, size_q: u32, dpi_q: u32) -> Seq<
    char,
> {
    font_key + "::raster@"@ + decimal(size_q as nat) + "@"@ + decimal(dpi_q as nat)
}

/// Atlas key of the raster variant of `font_key` at quantized size `size_q` and DPI `dpi_q`.
pub fn raster_variant_key(font_key: &str, size_q: u32, dpi_q: u32) -> (r: String)
    ensures
        r@ == spec_raster_variant_key(font_key@, size_q, dpi_q),
{
    let a = concat_str(font_key, "::raster@");
    let s = u64_to_decimal(size_q as u64);
    let b = concat_str(a.as_str(), s.as_str());
    let c = concat_str(b.as_str(), "@");
    let d = u64_to_decimal(dpi_q as u64);
    let r = concat_str(c.as_str(), d.as_str());
    assert(r@ =~= spec_raster_variant_key(font_key@, size_q, dpi_q));
    r
}

/// `s` with every value after its first occurrence removed, in order.
pub open spec fn first_occurrences(s: Seq<u32>) -> Seq<u32>
    decreases s.len(),
{
    if s.len() == 0 {
        Seq::empty()
    } else {
        let p = first_occurrences(s.drop_last());
        if p.contains(s.last()) {
            p
        } else {
            p.push(s.last())
        }
    }
}

/// Deduplicating the requested sizes loses no size and adds none.
pub proof fn lemma_first_occurrences_contains(s: Seq<u32>, x: u32)
    ensures
        first_occurrences(s).contains(x) == s.contains(x),
    decreases s.len(),
{
    if s.len() > 0 {
        let d = s.drop_last();
        let p = first_occurrences(d);
        lemma_first_occurrences_contains(d, x);
        if d.contains(x) {
            let k = choose|k: int| 0 <= k < d.len() && d[k] == x;
            assert(s[k] == x);
        }
        if s.contains(x) && !d.contains(x) {
            let k = choose|k: int| 0 <= k < s.len() && s[k] == x;
            if k < s.len() - 1 {
                assert(d[k] == x);
            }
            assert(s.last() == x);
        }
        if !p.contains(s.last()) {
            assert(p.push(s.last())[p.len() as int] == s.last());
            if p.push(s.last()).contains(x) {
                let k = choose|k: int| 0 <= k < p.len() + 1 && p.push(s.last())[k] == x;
                if k < p.len() {
                    assert(p[k] == x);
                }
            }
            if p.contains(x) {
                let k = choose|k: int| 0 <= k < p.len() && p[k] == x;
                assert(p.push(s.last())[k] == x);
            }
        }
    }
}

/// Deduplicated sizes are pairwise distinct.
pub proof fn lemma_first_occurrences_distinct(s: Seq<u32>)
    ensures
        forall|i: int, j: int|
            0 <= i < j < first_occurrences(s).len() ==> first_occurrences(s)[i] != first_occurrences(
                s,
            )[j],
    decreases s.len(),
{
    if s.len() > 0 {
        let p = first_occurrences(s.drop_last());
        lemma_first_occurrences_distinct(s.drop_last());
        if !p.contains(s.last()) {
            let q = p.push(s.last());
            assert forall|i: int, j: int| 0 <= i < j < q.len() implies q[i] != q[j] by {
                if j == p.len() {
                    assert(q[i] == p[i]);
                    assert(q[j] == s.last());
                } else {
                    assert(q[i] == p[i]);
                    assert(q[j] == p[j]);
                }
            }
        }
    }
}

fn contains_u32(v: &Vec<u32>, x: u32) -> (r: bool)
    ensures
        r == v@.contains(x),
{
    let mut i: usize = 0;
    while i < v.len()
        invariant
            i <= v@.len(),
            forall|j: int| 0 <= j < i ==> v@[j] != x,
        decreases v@.len() - i,
    {
        if v[i] == x {
            assert(v@[i as int] == x);
            return true;
        }
        i = i + 1;
    }
    false
}

/// Removes repeated quantized sizes, keeping each size's first occurrence in order.
pub fn dedupe_quantized_sizes(size_qs: &Vec<u32>) -> (r: Vec<u32>)
    ensures
        r@ == first_occurrences(size_qs@),
{
    let mut out: Vec<u32> = Vec::new();
    let mut i: usize = 0;
    while i < size_qs.len()
        invariant
            i <= size_qs@.len(),
            out@ == first_occurrences(size_qs@.take(i as int)),
        decreases size_qs@.len() - i,
    {
        let x = size_qs[i];
        let present = contains_u32(&out, x);
        proof {
            let t = size_qs@.take(i + 1);
            assert(t.drop_last() =~= size_qs@.take(i as int));
            assert(t.last() == x);
        }
        if !present {
            out.push(x);
        }
        i = i + 1;
    }
    assert(size_qs@.take(size_qs@.len() as int) =~= size_qs@);
    out
}

/// The variant `(size_q, dpi_q)` is among the loaded `(size, dpi)` variants.
pub open spec fn variant_loaded(loaded_sizes: Seq<(u32, u32)>, size_q: u32, dpi_q: u32) -> bool {
    loaded_sizes.contains((size_q, dpi_q))
}

/// The sizes of `sizes` whose variant at `dpi_q` is not loaded, in order.
pub open spec fn sizes_to_warm(sizes: Seq<u32>, loaded_sizes: Seq<(u32, u32)>, dpi_q: u32) -> Seq<
    u32,
>
    decreases sizes.len(),
{
    if sizes.len() == 0 {
        Seq::empty()
    } else {
        let p = sizes_to_warm(sizes.drop_last(), loaded_sizes, dpi_q);
        if variant_loaded(loaded_sizes, sizes.last(), dpi_q) {
            p
        } else {
            p.push(sizes.last())
        }
    }
}

/// How many sizes of `sizes` have their variant at `dpi_q` loaded.
pub open spec fn count_loaded(sizes: Seq<u32>, loaded_sizes: Seq<(u32, u32)>, dpi_q: u32) -> nat
    decreases sizes.len(),
{
    if sizes.len() == 0 {
        0
    } else {
        count_loaded(sizes.drop_last(), loaded_sizes, dpi_q) + if variant_loaded(
            loaded_sizes,
            sizes.last(),
            dpi_q,
        ) {
            1nat
        } else {
            0nat
        }
    }
}

proof fn lemma_count_loaded_bound(sizes: Seq<u32>, loaded_sizes: Seq<(u32, u32)>, dpi_q: u32)
    ensures
        count_loaded(sizes, loaded_sizes, dpi_q) <= sizes.len(),
    decreases sizes.len(),
{
    if sizes.len() > 0 {
        lemma_count_loaded_bound(sizes.drop_last(), loaded_sizes, dpi_q);
    }
}

fn contains_variant(loaded_sizes: &Vec<(u32, u32)>, size_q: u32, dpi_q: u32) -> (r: bool)
    ensures
        r == variant_loaded(loaded_sizes@, size_q, dpi_q),
{
    let mut i: usize = 0;
    while i < loaded_sizes.len()
        invariant
            i <= loaded_sizes@.len(),
            forall|j: int| 0 <= j < i ==> loaded_sizes@[j] != (size_q, dpi_q),
        decreases loaded_sizes@.len() - i,
    {
        let (s, d) = loaded_sizes[i];
        if s == size_q && d == dpi_q {
            assert(loaded_sizes@[i as int] == (size_q, dpi_q));
            return true;
        }
        i = i + 1;
    }
    false
}

/// Plans a prewarm of a raster family at quantized DPI `dpi_q`: repeated requested sizes count
/// once; sizes whose variant is already loaded are counted and skipped. Returns the sizes to
/// rasterize, in request order, and the statistics so far (nothing warmed yet).
pub fn plan_warm_sizes(size_qs: &Vec<u32>, loaded_sizes: &Vec<(u32, u32)>, dpi_q: u32) -> (r: (
    Vec<u32>,
    WarmStats,
))
    ensures
        r.0@ == sizes_to_warm(first_occurrences(size_qs@), loaded_sizes@, dpi_q),
        r.1.requested_sizes == first_occurrences(size_qs@).len(),
        r.1.already_loaded_sizes == count_loaded(first_occurrences(size_qs@), loaded_sizes@, dpi_q),
        r.1.warmed_sizes == 0,
        r.1.glyphs_rasterized == 0,
{
    let sizes = dedupe_quantized_sizes(size_qs);
    let mut to_load: Vec<u32> = Vec::new();
    let mut already: usize = 0;
    let mut i: usize = 0;
    while i < sizes.len()
        invariant
            i <= sizes@.len(),
            to_load@ == sizes_to_warm(sizes@.take(i as int), loaded_sizes@, dpi_q),
            already == count_loaded(sizes@.take(i as int), loaded_sizes@, dpi_q),
        decreases sizes@.len() - i,
    {
        let q = sizes[i];
        proof {
            let t = sizes@.take(i + 1);
            assert(t.drop_last() =~= sizes@.take(i as int));
            assert(t.last() == q);
            lemma_count_loaded_bound(sizes@.take(i as int), loaded_sizes@, dpi_q);
        }
        if contains_variant(loaded_sizes, q, dpi_q) {
            already = already + 1;
        } else {
            to_load.push(q);
        }
        i = i + 1;
    }
    assert(sizes@.take(sizes@.len() as int) =~= sizes@);
    (
        to_load,
        WarmStats {
            requested_sizes: sizes.len(),
            warmed_sizes: 0,
            already_loaded_sizes: already,
            glyphs_rasterized: 0,
        },
    )
}

impl WarmStats {
    /// Counts one more warmed size, whose variant rasterized `glyph_count` glyphs.
    pub fn record_warmed(&mut self, glyph_count: usize)
        requires
            old(self).warmed_sizes < usize::MAX,
            old(self).glyphs_rasterized + glyph_count <= usize::MAX,
        ensures
            final(self).requested_sizes == old(self).requested_sizes,
            final(self).already_loaded_sizes == old(self).already_loaded_sizes,
            final(self).warmed_sizes == old(self).warmed_sizes + 1,
            final(self).glyphs_rasterized == old(self).glyphs_rasterized + glyph_count,
    {
        self.warmed_sizes = self.warmed_sizes + 1;
        self.glyphs_rasterized = self.glyphs_rasterized + glyph_count;
    }
}

/// A request to rasterize family `family_key` at quantized size `size_q` and DPI `dpi_q`.
#[derive(Debug, Clone)]
pub struct PendingRasterWarmRequest {
    pub family_key: String,
    pub size_q: u32,
    pub dpi_q: u32,
}

/// What the engine knows of a raster font family when a warm request for it comes up.
#[derive(Debug, Clone, Copy)]
pub struct RasterFamilyStatus {
    /// The requested (size, dpi) variant is already loaded.
    pub variant_loaded: bool,
    /// Number of glyphs rasterized at runtime for the family.
    pub runtime_glyph_count: usize,
    /// Glyph budget per frame for the family.
    pub runtime_budget_glyphs_per_frame: usize,
}

/// What to do with the request at the front of the warm queue.
#[derive(Debug, Clone)]
pub enum RasterWarmStep {
    /// The family is gone or the variant is loaded: forget the request.
    Drop,
    /// The family's budget for this frame is spent: retry the request next frame.
    Defer,
    /// Rasterize the variant; it costs `glyph_cost` glyphs of the family's budget.
    Load { request: PendingRasterWarmRequest, glyph_cost: usize },
}

/// Identity of a request: family, size and DPI.
pub open spec fn request_key(r: PendingRasterWarmRequest) -> (Seq<char>, u32, u32) {
    (r.family_key@, r.size_q, r.dpi_q)
}

/// No two requests of `s` have the same identity.
pub open spec fn distinct_requests(s: Seq<PendingRasterWarmRequest>) -> bool {
    forall|i: int, j: int| 0 <= i < j < s.len() ==> request_key(s[i]) != request_key(s[j])
}

/// Remaining budget recorded for `family` in `budgets`, if any (the first entry wins).
pub open spec fn budget_of(budgets: Seq<(String, usize)>, family: Seq<char>) -> Option<usize>
    decreases budgets.len(),
{
    if budgets.len() == 0 {
        None
    } else if budgets[0].0@ == family {
        Some(budgets[0].1)
    } else {
        budget_of(budgets.drop_first(), family)
    }
}

/// Glyph cost of warming a family with `runtime_glyph_count` runtime glyphs.
pub open spec fn glyph_cost(runtime_glyph_count: usize) -> usize {
    if runtime_glyph_count < 1 { 1 } else { runtime_glyph_count }
}

/// The budgets of `budgets` as a map from family to remaining glyphs (first entry wins).
pub open spec fn budget_map(budgets: Seq<(String, usize)>) -> Map<Seq<char>, usize> {
    Map::new(
        |f: Seq<char>| budget_of(budgets, f) is Some,
        |f: Seq<char>| budget_of(budgets, f).unwrap(),
    )
}

proof fn lemma_budget_of_push(s: Seq<(String, usize)>, x: (String, usize), g: Seq<char>)
    ensures
        budget_of(s.push(x), g) == (if budget_of(s, g) is Some {
            budget_of(s, g)
        } else if x.0@ == g {
            Some(x.1)
        } else {
            None
        }),
    decreases s.len(),
{
    let t = s.push(x);
    if s.len() == 0 {
        assert(t[0] == x);
        assert(t.drop_first() =~= Seq::<(String, usize)>::empty());
        assert(budget_of(t.drop_first(), g) is None);
    } else {
        assert(t[0] == s[0]);
        assert(t.drop_first() =~= s.drop_first().push(x));
        lemma_budget_of_push(s.drop_first(), x, g);
    }
}

proof fn lemma_budget_of_update(s: Seq<(String, usize)>, i: int, v: usize, g: Seq<char>)
    requires
        0 <= i < s.len(),
        forall|j: int| 0 <= j < i ==> (#[trigger] s[j]).0@ != s[i].0@,
    ensures
        budget_of(s.update(i, (s[i].0, v)), g) == (if g == s[i].0@ {
            Some(v)
        } else {
            budget_of(s, g)
        }),
    decreases i,
{
    let t = s.update(i, (s[i].0, v));
    if i > 0 {
        assert(s[0].0@ != s[i].0@);
        assert(t.drop_first() =~= s.drop_first().update(i - 1, (s[i].0, v)));
        assert forall|j: int| 0 <= j < i - 1 implies (#[trigger] s.drop_first()[j]).0@ != s.drop_first()[i
            - 1].0@ by {
            assert(s[j + 1].0@ != s[i].0@);
        }
        lemma_budget_of_update(s.drop_first(), i - 1, v, g);
    } else {
        assert(t.drop_first() =~= s.drop_first());
    }
}

/// Abstract state of the warm queue: requests waiting for this pass, requests deferred to the
/// next pass, and the glyph budget left per family in this pass.
pub struct RasterWarmQueueView {
    pub pending: Seq<PendingRasterWarmRequest>,
    pub deferred: Seq<PendingRasterWarmRequest>,
    pub budgets: Map<Seq<char>, usize>,
}

/// Queue of raster variants to rasterize at runtime, spread over frames under a per-family
/// glyph budget.
pub struct RasterWarmQueue {
    pending: VecDeque<PendingRasterWarmRequest>,
    deferred: VecDeque<PendingRasterWarmRequest>,
    budgets: Vec<(String, usize)>,
}

impl View for RasterWarmQueue {
    type V = RasterWarmQueueView;

    closed spec fn view(&self) -> RasterWarmQueueView {
        RasterWarmQueueView {
            pending: self.pending@,
            deferred: self.deferred@,
            budgets: budget_map(self.budgets@),
        }
    }
}

fn string_eq(a: &String, b: &String) -> (r: bool)
    ensures
        r == (a@ == b@),
{
    *a == *b
}

fn same_request(a: &PendingRasterWarmRequest, b: &PendingRasterWarmRequest) -> (r: bool)
    ensures
        r == (request_key(*a) == request_key(*b)),
{
    string_eq(&a.family_key, &b.family_key) && a.size_q == b.size_q && a.dpi_q == b.dpi_q
}

fn contains_request(v: &VecDeque<PendingRasterWarmRequest>, r: &PendingRasterWarmRequest) -> (b:
    bool)
    ensures
        b == exists|i: int| 0 <= i < v@.len() && request_key(#[trigger] v@[i]) == request_key(*r),
{
    let mut i: usize = 0;
    while i < v.len()
        invariant
            i <= v@.len(),
            forall|j: int| 0 <= j < i ==> request_key(#[trigger] v@[j]) != request_key(*r),
        decreases v@.len() - i,
    {
        if same_request(&v[i], r) {
            return true;
        }
        i = i + 1;
    }
    false
}

/// Atlas key under which a warmed variant is registered: the family's own key for its default
/// size at quantized DPI 10 (hundredths of a DPI unit, so 0.1), else the variant key.
pub open spec fn spec_warm_atlas_key(family_key: Seq<char>, size_q: u32, dpi_q: u32, default_q: u32)
    -> Seq<char> {
    if size_q == default_q && dpi_q == 10 {
        family_key
    } else {
        spec_raster_variant_key(family_key, size_q, dpi_q)
    }
}

/// Atlas key under which the variant `(size_q, dpi_q)` of `family_key` is registered, given the
/// family's quantized default size `default_q`.
pub fn warm_atlas_key(family_key: &str, size_q: u32, dpi_q: u32, default_q: u32) -> (r: String)
    ensures
        r@ == spec_warm_atlas_key(family_key@, size_q, dpi_q, default_q),
{
    if size_q == default_q && dpi_q == 10 {
        proof {
            reveal_strlit("");
        }
        let r = concat_str(family_key, "");
        assert(r@ =~= family_key@);
        r
    } else {
        raster_variant_key(family_key, size_q, dpi_q)
    }
}

/// `b - cost`, or zero when `cost` exceeds `b`.
pub open spec fn saturating_sub(b: usize, cost: usize) -> usize {
    if b >= cost { (b - cost) as usize } else { 0 }
}

/// One step of a pass: the front request is dropped (family gone or variant loaded), deferred
/// to the next pass (family budget spent) or handed out to load; the family's budget is
/// registered on first use in the pass. `family` is what is known of the front request's
/// family, `None` when it is not loaded.
pub open spec fn spec_step(q: RasterWarmQueueView, family: Option<RasterFamilyStatus>) -> (
    Option<RasterWarmStep>,
    RasterWarmQueueView,
) {
    if q.pending.len() == 0 {
        (None, q)
    } else {
        let req = q.pending[0];
        let popped = RasterWarmQueueView {
            pending: q.pending.drop_first(),
            deferred: q.deferred,
            budgets: q.budgets,
        };
        match family {
            None => (Some(RasterWarmStep::Drop), popped),
            Some(st) => {
                if st.variant_loaded {
                    (Some(RasterWarmStep::Drop), popped)
                } else {
                    let cost = glyph_cost(st.runtime_glyph_count);
                    let budget = if q.budgets.contains_key(req.family_key@) {
                        q.budgets[req.family_key@]
                    } else {
                        st.runtime_budget_glyphs_per_frame
                    };
                    let budgets = q.budgets.insert(req.family_key@, budget);
                    if budget < cost {
                        (
                            Some(RasterWarmStep::Defer),
                            RasterWarmQueueView {
                                pending: q.pending.drop_first(),
                                deferred: q.deferred.push(req),
                                budgets,
                            },
                        )
                    } else {
                        (
                            Some(RasterWarmStep::Load { request: req, glyph_cost: cost }),
                            RasterWarmQueueView {
                                pending: q.pending.drop_first(),
                                deferred: q.deferred,
                                budgets,
                            },
                        )
                    }
                }
            },
        }
    }
}

impl RasterWarmQueue {
    /// Requests are queued at most once, whether waiting or deferred, and each family has at
    /// most one budget entry.
    pub open spec fn wf(&self) -> bool {
        &&& distinct_requests(self@.pending + self@.deferred)
        &&& self.budget_keys_distinct()
    }

    /// Each family has at most one budget entry.
    pub closed spec fn budget_keys_distinct(&self) -> bool {
        forall|i: int, j: int|
            0 <= i < j < self.budgets@.len() ==> (#[trigger] self.budgets@[i]).0@
                != (#[trigger] self.budgets@[j]).0@
    }

    /// An empty queue.
    pub fn new() -> (r: Self)
        ensures
            r.wf(),
            r@.pending == Seq::<PendingRasterWarmRequest>::empty(),
            r@.deferred == Seq::<PendingRasterWarmRequest>::empty(),
            r@.budgets == Map::<Seq<char>, usize>::empty(),
    {
        let r = RasterWarmQueue { pending: VecDeque::new(), deferred: VecDeque::new(), budgets: Vec::new() };
        proof {
            assert(r.pending@ + r.deferred@ =~= Seq::<PendingRasterWarmRequest>::empty());
            assert(r@.budgets =~= Map::<Seq<char>, usize>::empty());
        }
        r
    }

    /// Number of requests waiting in this pass.
    pub fn len(&self) -> (r: usize)
        ensures
            r == self@.pending.len(),
    {
        self.pending.len()
    }

    /// Whether `request` is queued, waiting or deferred.
    pub open spec fn is_queued(&self, request: PendingRasterWarmRequest) -> bool {
        exists|i: int|
            0 <= i < (self@.pending + self@.deferred).len() && request_key(
                #[trigger] (self@.pending + self@.deferred)[i],
            ) == request_key(request)
    }

    /// Queues a request for a loaded family whose variant is not loaded yet, unless the same
    /// request is already queued. `family_variant_loaded` is `None` when the family is not
    /// loaded. Returns whether the request was queued.
    pub fn queue_raster_warm_request(
        &mut self,
        request: PendingRasterWarmRequest,
        family_variant_loaded: Option<bool>,
    ) -> (r: bool)
        requires
            old(self).wf(),
        ensures
            final(self).wf(),
            r == (family_variant_loaded == Some(false) && !old(self).is_queued(request)),
            final(self)@.pending == (if r {
                old(self)@.pending.push(request)
            } else {
                old(self)@.pending
            }),
            final(self)@.deferred == old(self)@.deferred,
            final(self)@.budgets == old(self)@.budgets,
    {
        let ghost all = self@.pending + self@.deferred;
        match family_variant_loaded {
            Some(false) => {},
            _ => {
                return false;
            },
        }
        let in_pending = contains_request(&self.pending, &request);
        let in_deferred = contains_request(&self.deferred, &request);
        proof {
            if in_pending {
                let i = choose|i: int|
                    0 <= i < self@.pending.len() && request_key(#[trigger] self@.pending[i])
                        == request_key(request);
                assert(all[i] == self@.pending[i]);
            }
            if in_deferred {
                let i = choose|i: int|
                    0 <= i < self@.deferred.len() && request_key(#[trigger] self@.deferred[i])
                        == request_key(request);
                assert(all[self@.pending.len() + i] == self@.deferred[i]);
            }
            if !in_pending && !in_deferred {
                assert forall|i: int| 0 <= i < all.len() implies request_key(#[trigger] all[i])
                    != request_key(request) by {
                    if i < self@.pending.len() {
                        assert(all[i] == self@.pending[i]);
                    } else {
                        assert(all[i] == self@.deferred[i - self@.pending.len()]);
                    }
                }
            }
        }
        if in_pending || in_deferred {
            return false;
        }
        let ghost pre = self@;
        self.pending.push_back(request);
        proof {
            let all2 = self@.pending + self@.deferred;
            assert forall|i: int, j: int| 0 <= i < j < all2.len() implies request_key(all2[i])
                != request_key(all2[j]) by {
                let n = pre.pending.len();
                if i < n {
                    assert(all2[i] == all[i]);
                } else if i == n {
                    assert(all2[i] == request);
                } else {
                    assert(all2[i] == pre.deferred[i - n - 1]);
                    assert(all[i - 1] == pre.deferred[i - n - 1]);
                }
                if j < n {
                    assert(all2[j] == all[j]);
                } else if j == n {
                    assert(all2[j] == request);
                } else {
                    assert(all2[j] == pre.deferred[j - n - 1]);
                    assert(all[j - 1] == pre.deferred[j - n - 1]);
                }
                if i != n && j != n {
                    let i2 = if i < n { i } else { i - 1 };
                    let j2 = if j < n { j } else { j - 1 };
                    assert(request_key(all[i2]) != request_key(all[j2]));
                }
            }
        }
        true
    }

    /// Starts a frame's pass over the queue: budgets start afresh. Returns whether any request
    /// waits.
    pub fn begin_pass(&mut self) -> (r: bool)
        requires
            old(self).wf(),
        ensures
            final(self).wf(),
            r == (old(self)@.pending.len() > 0),
            final(self)@.pending == old(self)@.pending,
            final(self)@.deferred == old(self)@.deferred,
            final(self)@.budgets == Map::<Seq<char>, usize>::empty(),
    {
        self.budgets.clear();
        proof {
            assert(self@.budgets =~= Map::<Seq<char>, usize>::empty());
        }
        self.pending.len() > 0
    }

    /// The request at the front of the queue.
    pub fn front(&self) -> (r: Option<&PendingRasterWarmRequest>)
        ensures
            r matches Some(q) ==> self@.pending.len() > 0 && *q == self@.pending[0],
            r is None ==> self@.pending.len() == 0,
    {
        if self.pending.len() > 0 {
            Some(&self.pending[0])
        } else {
            None
        }
    }

    /// Index and remaining budget of `family`, registering `initial` for a family not seen in
    /// this pass.
    fn budget_entry(&mut self, family: &String, initial: usize) -> (r: (usize, usize))
        requires
            old(self).wf(),
        ensures
            final(self).wf(),
            final(self).pending == old(self).pending,
            final(self).deferred == old(self).deferred,
            r.0 < final(self).budgets@.len(),
            final(self).budgets@[r.0 as int].0@ == family@,
            final(self).budgets@[r.0 as int].1 == r.1,
            r.1 == (if old(self)@.budgets.contains_key(family@) {
                old(self)@.budgets[family@]
            } else {
                initial
            }),
            final(self)@.budgets == old(self)@.budgets.insert(family@, r.1),
    {
        let ghost s = self.budgets@;
        let mut i: usize = 0;
        assert(s.skip(0) =~= s);
        while i < self.budgets.len()
            invariant
                i <= s.len(),
                *self == *old(self),
                old(self).wf(),
                self.budgets@ == s,
                forall|j: int| 0 <= j < i ==> (#[trigger] s[j]).0@ != family@,
                budget_of(s, family@) == budget_of(s.skip(i as int), family@),
            decreases s.len() - i,
        {
            assert(s.skip(i as int).drop_first() =~= s.skip(i + 1));
            assert(s.skip(i as int)[0] == s[i as int]);
            if string_eq(&self.budgets[i].0, family) {
                proof {
                    assert(budget_of(s, family@) == Some(s[i as int].1));
                    assert(self@.budgets =~= budget_map(s).insert(family@, s[i as int].1));
                }
                return (i, self.budgets[i].1);
            }
            i = i + 1;
        }
        proof {
            assert(s.skip(s.len() as int) =~= Seq::<(String, usize)>::empty());
            assert(budget_of(s, family@) is None);
        }
        self.budgets.push((family.clone(), initial));
        proof {
            let t = self.budgets@;
            let x = t[s.len() as int];
            assert(t =~= s.push(x));
            assert forall|g: Seq<char>|
                #[trigger] budget_of(t, g) == (if g == family@ {
                    Some(initial)
                } else {
                    budget_of(s, g)
                }) by {
                lemma_budget_of_push(s, x, g);
            }
            assert(budget_map(t) =~= budget_map(s).insert(family@, initial));
        }
        (i, initial)
    }
    /// Takes the request at the front of the queue and decides what becomes of it, given what
    /// is known of its family (`None`: the family is not loaded). `None` when no request waits.
    pub fn step(&mut self, family: Option<RasterFamilyStatus>) -> (r: Option<RasterWarmStep>)
        requires
            old(self).wf(),
        ensures
            final(self).wf(),
            (r, final(self)@) == spec_step(old(self)@, family),
    {
        let ghost pre = self@;
        let req = match self.pending.pop_front() {
            None => {
                return None;
            },
            Some(req) => req,
        };
        proof {
            let a = pre.pending + pre.deferred;
            let b = self@.pending + self@.deferred;
            assert forall|i: int, j: int| 0 <= i < j < b.len() implies request_key(b[i])
                != request_key(b[j]) by {
                assert(b[i] == a[i + 1]);
                assert(b[j] == a[j + 1]);
            }
        }
        let st = match family {
            None => {
                return Some(RasterWarmStep::Drop);
            },
            Some(st) => st,
        };
        if st.variant_loaded {
            return Some(RasterWarmStep::Drop);
        }
        let cost: usize = if st.runtime_glyph_count < 1 {
            1
        } else {
            st.runtime_glyph_count
        };
        let (_idx, budget) = self.budget_entry(&req.family_key, st.runtime_budget_glyphs_per_frame);
        if budget < cost {
            let ghost mid = self@;
            self.deferred.push_back(req);
            proof {
                let a = pre.pending + pre.deferred;
                let b = self@.pending + self@.deferred;
                let n = mid.pending.len();
                let m = mid.deferred.len();
                assert(a[0] == req);
                assert forall|i: int, j: int| 0 <= i < j < b.len() implies request_key(b[i])
                    != request_key(b[j]) by {
                    let fi = if i < n + m { i + 1 } else { 0 };
                    let fj = if j < n + m { j + 1 } else { 0 };
                    assert(b[i] == a[fi]);
                    assert(b[j] == a[fj]);
                }
            }
            return Some(RasterWarmStep::Defer);
        }
        Some(RasterWarmStep::Load { request: req, glyph_cost: cost })
    }

    /// Records the outcome of loading a variant of `family_key` handed out by `step`: a
    /// successful load charges `cost` glyphs to the family's budget of this pass (saturating at
    /// zero); a failed one charges nothing.
    pub fn record_load(&mut self, family_key: &String, cost: usize, succeeded: bool)
        requires
            old(self).wf(),
        ensures
            final(self).wf(),
            final(self)@.pending == old(self)@.pending,
            final(self)@.deferred == old(self)@.deferred,
            final(self)@.budgets == (if succeeded && old(self)@.budgets.contains_key(family_key@) {
                old(self)@.budgets.insert(
                    family_key@,
                    saturating_sub(old(self)@.budgets[family_key@], cost),
                )
            } else {
                old(self)@.budgets
            }),
    {
        if !succeeded {
            return;
        }
        let ghost s = self.budgets@;
        let mut i: usize = 0;
        assert(s.skip(0) =~= s);
        while i < self.budgets.len()
            invariant
                succeeded,
                i <= s.len(),
                *self == *old(self),
                old(self).wf(),
                self.budgets@ == s,
                forall|j: int| 0 <= j < i ==> (#[trigger] s[j]).0@ != family_key@,
                budget_of(s, family_key@) == budget_of(s.skip(i as int), family_key@),
            decreases s.len() - i,
        {
            assert(s.skip(i as int).drop_first() =~= s.skip(i + 1));
            assert(s.skip(i as int)[0] == s[i as int]);
            if string_eq(&self.budgets[i].0, family_key) {
                let b = self.budgets[i].1;
                let nb = b.saturating_sub(cost);
                let name = self.budgets[i].0.clone();
                self.budgets.set(i, (name, nb));
                proof {
                    assert(budget_of(s, family_key@) == Some(b));
                    assert(old(self)@.budgets.contains_key(family_key@));
                    assert(old(self)@.budgets[family_key@] == b);
                    assert(nb == saturating_sub(b, cost));
                    let t = self.budgets@;
                    assert(t =~= s.update(i as int, (s[i as int].0, nb)));
                    assert forall|g: Seq<char>|
                        #[trigger] budget_of(t, g) == (if g == family_key@ {
                            Some(nb)
                        } else {
                            budget_of(s, g)
                        }) by {
                        lemma_budget_of_update(s, i as int, nb, g);
                    }
                    assert(budget_map(t) =~= budget_map(s).insert(family_key@, nb));
                    assert forall|p: int, q: int| 0 <= p < q < t.len() implies (#[trigger] t[p]).0@
                        != (#[trigger] t[q]).0@ by {
                        assert(s[p].0@ != s[q].0@);
                    }
                }
                return;
            }
            i = i + 1;
        }
        proof {
            assert(s.skip(s.len() as int) =~= Seq::<(String, usize)>::empty());
        }
    }

    /// Ends the pass: the deferred requests wait for the next one, after any still waiting.
    pub fn finish_pass(&mut self)
        requires
            old(self).wf(),
        ensures
            final(self).wf(),
            final(self)@.pending == old(self)@.pending + old(self)@.deferred,
            final(self)@.deferred == Seq::<PendingRasterWarmRequest>::empty(),
            final(self)@.budgets == old(self)@.budgets,
    {
        let mut d: VecDeque<PendingRasterWarmRequest> = VecDeque::new();
        core::mem::swap(&mut d, &mut self.deferred);
        self.pending.append(&mut d);
        proof {
            assert(self@.pending + self@.deferred =~= old(self)@.pending + old(self)@.deferred);
        }
    }
}

} // verus!
