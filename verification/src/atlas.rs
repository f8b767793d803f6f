//! Compaction of the stock texture atlases a title-select sheet keeps:
//! every referenced sprite is repacked, with a one-pixel border copied from
//! around it, into the smallest power-of-two-wide atlas that holds them all.
//! Sprite names, origins, attributes and pixels stay as they were.
use vstd::prelude::*;
use crate::psb::float::{f64_whole, to_f64_bits, u64_to_f64_bits, whole_f64};
use crate::psb::value::{
    Stream, Value, ValueView, find_key, insert_entry, lemma_find_key, lemma_view_entries_len,
    lemma_view_entries_push, lemma_view_values_len, object_insert, view_entries, view_values,
};
use crate::saves::{is_digit, parse_uint, parse_uint_text, digits_value, unsigned_part};
use vstd::string::StrSliceExecFns;
use vstd::string::StringSliceAdditionalSpecFns;
use crate::title_prof::find_entry;
use crate::psb::layout::{lemma_ins_pos, lemma_sort_by, sort_by, text_lt, zeros};
use crate::psb::writer::text_less;

verus! {

// ---- numbers ----

/// The entry under `k`, if the object has one.
pub open spec fn entry_of(es: Seq<(Seq<char>, ValueView)>, k: Seq<char>) -> Option<ValueView> {
    let i = find_key(es, k);
    if i >= 0 {
        Some(es[i].1)
    } else {
        None
    }
}

/// A non-negative whole number that fits `usize`: an integer, or a float
/// whose value is whole.
pub open spec fn num_of(v: ValueView) -> Option<nat> {
    match v {
        ValueView::Int(n) => if 0 <= n && n <= usize::MAX {
            Some(n as nat)
        } else {
            None
        },
        ValueView::Float(b) => match f64_whole(b) {
            Some(x) => if x <= usize::MAX {
                Some(x as nat)
            } else {
                None
            },
            None => None,
        },
        _ => None,
    }
}

/// The number under `k`, as [`num_of`] reads it.
pub open spec fn number_in(es: Seq<(Seq<char>, ValueView)>, k: Seq<char>) -> Option<nat> {
    match entry_of(es, k) {
        Some(v) => num_of(v),
        None => None,
    }
}

/// The entry under `key`, by position.
pub(crate) fn lookup(obj: &Vec<(String, Value)>, key: &str) -> (r: Option<usize>)
    ensures
        r matches Some(i) ==> i < obj@.len() && entry_of(view_entries(obj@), key@) == Some(obj@[i as int].1@)
            && obj@[i as int].0@ == key@ && i == find_key(view_entries(obj@), key@),
        r is None ==> entry_of(view_entries(obj@), key@) is None,
{
    let k = String::from_str(key);
    proof {
        lemma_view_entries_len(obj@);
        lemma_find_key(view_entries(obj@), key@);
    }
    find_entry(obj, &k)
}

pub fn number(obj: &Vec<(String, Value)>, key: &str) -> (r: Option<usize>)
    ensures
        r matches Some(n) ==> number_in(view_entries(obj@), key@) == Some(n as nat),
        r is None ==> number_in(view_entries(obj@), key@) is None,
{
    match lookup(obj, key) {
        None => None,
        Some(i) => match &obj[i].1 {
            Value::Int(n) => {
                if *n >= 0 && (*n as u64) <= usize::MAX as u64 {
                    Some(*n as usize)
                } else {
                    None
                }
            },
            Value::Float(b) => match whole_f64(*b) {
                Some(x) => {
                    if x <= usize::MAX as u64 {
                        Some(x as usize)
                    } else {
                        None
                    }
                },
                None => None,
            },
            _ => None,
        },
    }
}

// ---- shelf packing ----

/// Shelves of the sprites with sizes `sizes` in an atlas `width` wide, each
/// padded by a pixel on every side: `(x, y, row height, positions)` after
/// placing them left to right, a sprite that does not fit its row opening a
/// new one. A position is that of the sprite's own top-left pixel. None when
/// a padded sprite is wider than the atlas.
pub open spec fn shelves(sizes: Seq<(nat, nat)>, width: nat) -> Option<(nat, nat, nat, Seq<(nat, nat)>)>
    decreases sizes.len(),
{
    if sizes.len() == 0 {
        Some((0, 0, 0, Seq::empty()))
    } else {
        match shelves(sizes.drop_last(), width) {
            None => None,
            Some((x, y, row, pos)) => {
                let w = sizes.last().0 + 2;
                let h = sizes.last().1 + 2;
                if w > width {
                    None
                } else if x + w > width {
                    Some((w, y + row, h, pos.push((1nat, y + row + 1))))
                } else {
                    Some((x + w, y, if row >= h {
                        row
                    } else {
                        h
                    }, pos.push((x + 1, y + 1))))
                }
            },
        }
    }
}

/// The least power of two, from `p` on by doubling, that is at least `x`.
pub open spec fn pow2_from(x: nat, p: nat) -> nat
    decreases if p >= x {
        0
    } else {
        x - p
    },
{
    if p >= x {
        p
    } else if p == 0 {
        pow2_from(x, 1)
    } else {
        pow2_from(x, 2 * p)
    }
}

/// The atlas height and the sprite positions for an atlas `width` wide: the
/// shelves' total height rounded up to a power of two.
pub open spec fn layout_of(sizes: Seq<(nat, nat)>, width: nat) -> Option<(nat, Seq<(nat, nat)>)> {
    match shelves(sizes, width) {
        None => None,
        Some((x, y, row, pos)) => {
            let h = pow2_from(y + row, 1);
            if h > usize::MAX {
                None
            } else {
                Some((h, pos))
            }
        },
    }
}

proof fn lemma_shelves(sizes: Seq<(nat, nat)>, width: nat)
    ensures
        shelves(sizes, width) matches Some(st) ==> {
            &&& st.0 <= width
            &&& st.3.len() == sizes.len()
            &&& forall|i: int|
                0 <= i < sizes.len() ==> 1 <= (#[trigger] st.3[i]).0 && st.3[i].0 - 1 + sizes[i].0 + 2 <= width
                    && 1 <= st.3[i].1 && st.3[i].1 - 1 + sizes[i].1 + 2 <= st.1 + st.2
        },
    decreases sizes.len(),
{
    if sizes.len() > 0 {
        lemma_shelves(sizes.drop_last(), width);
        if let Some(st) = shelves(sizes, width) {
            let prev = shelves(sizes.drop_last(), width)->Some_0;
            assert forall|i: int| 0 <= i < sizes.len() implies 1 <= (#[trigger] st.3[i]).0 && st.3[i].0 - 1
                + sizes[i].0 + 2 <= width && 1 <= st.3[i].1 && st.3[i].1 - 1 + sizes[i].1 + 2 <= st.1 + st.2 by {
                if i < sizes.len() - 1 {
                    assert(sizes.drop_last()[i] == sizes[i]);
                    assert(st.3[i] == prev.3[i]);
                }
            }
        }
    }
}

proof fn lemma_pow2_from(x: nat, p: nat)
    requires
        p >= 1,
    ensures
        pow2_from(x, p) >= x,
        pow2_from(x, p) >= p,
    decreases if p >= x {
        0
    } else {
        x - p
    },
{
    if p < x {
        lemma_pow2_from(x, 2 * p);
    }
}

proof fn lemma_shelves_grow(sizes: Seq<(nat, nat)>, width: nat, k: int)
    requires
        0 <= k <= sizes.len(),
        shelves(sizes, width) is Some,
    ensures
        shelves(sizes.take(k), width) is Some,
        shelves(sizes.take(k), width)->Some_0.1 + shelves(sizes.take(k), width)->Some_0.2
            <= shelves(sizes, width)->Some_0.1 + shelves(sizes, width)->Some_0.2,
    decreases sizes.len() - k,
{
    if k < sizes.len() {
        lemma_shelves_grow(sizes, width, k + 1);
        assert(sizes.take(k + 1).drop_last() =~= sizes.take(k));
    } else {
        assert(sizes.take(k) =~= sizes);
    }
}

proof fn lemma_prefix_none(sizes: Seq<(nat, nat)>, width: nat, k: int)
    requires
        0 <= k <= sizes.len(),
        shelves(sizes.take(k), width) is None,
    ensures
        shelves(sizes, width) is None,
        layout_of(sizes, width) is None,
    decreases sizes.len() - k,
{
    if k < sizes.len() {
        assert(sizes.take(k + 1).drop_last() =~= sizes.take(k));
        lemma_prefix_none(sizes, width, k + 1);
    } else {
        assert(sizes.take(k) =~= sizes);
    }
}

proof fn lemma_tall(sizes: Seq<(nat, nat)>, width: nat, k: int)
    requires
        0 <= k <= sizes.len(),
        shelves(sizes.take(k), width) matches Some(st) && st.1 + st.2 > usize::MAX,
    ensures
        layout_of(sizes, width) is None,
{
    if shelves(sizes, width) is Some {
        lemma_shelves_grow(sizes, width, k);
        let st = shelves(sizes, width)->Some_0;
        lemma_pow2_from(st.1 + st.2, 1);
    }
}

/// Places sprites as [`layout_of`] says.
fn layout(sizes: &Vec<(usize, usize)>, width: usize) -> (r: Option<(usize, Vec<(usize, usize)>)>)
    ensures
        r matches Some(out) ==> layout_of(sizes_view(sizes@), width as nat) == Some(
            (out.0 as nat, positions_view(out.1@)),
        ),
        r is None ==> layout_of(sizes_view(sizes@), width as nat) is None,
{
    let ghost sv = sizes_view(sizes@);
    let mut x: usize = 0;
    let mut y: usize = 0;
    let mut row: usize = 0;
    let mut positions: Vec<(usize, usize)> = Vec::new();
    let mut i: usize = 0;
    assert(sv.take(0) =~= Seq::<(nat, nat)>::empty());
    assert(positions_view(positions@) =~= Seq::<(nat, nat)>::empty());
    while i < sizes.len()
        invariant
            i <= sizes@.len(),
            sv == sizes_view(sizes@),
            sv.len() == sizes@.len(),
            y < usize::MAX,
            shelves(sv.take(i as int), width as nat) == Some(
                (x as nat, y as nat, row as nat, positions_view(positions@)),
            ),
        decreases sizes@.len() - i,
    {
        assert(sv.take(i + 1).drop_last() =~= sv.take(i as int));
        assert(sv.take(i + 1).last() == sv[i as int]);
        let (sw, sh) = sizes[i];
        if sw > width || width - sw < 2 {
            proof {
                lemma_prefix_none(sv, width as nat, i + 1);
            }
            return None;
        }
        let w = sw + 2;
        proof {
            lemma_shelves(sv.take(i as int), width as nat);
        }
        if sh > usize::MAX - 2 {
            proof {
                lemma_tall(sv, width as nat, i + 1);
            }
            return None;
        }
        let h = sh + 2;
        if x > width - w {
            if row > usize::MAX - 1 - y {
                proof {
                    lemma_tall(sv, width as nat, i + 1);
                }
                return None;
            }
            y = y + row;
            x = 0;
            row = 0;
        }
        let ghost before = positions@;
        positions.push((x + 1, y + 1));
        assert(positions_view(positions@) =~= positions_view(before).push(((x + 1) as nat, (y + 1) as nat)));
        x = x + w;
        if h > row {
            row = h;
        }
        i = i + 1;
    }
    assert(sv.take(i as int) =~= sv);
    if row > usize::MAX - y {
        proof {
            lemma_tall(sv, width as nat, i as int);
        }
        return None;
    }
    let t = y + row;
    let mut p: usize = 1;
    while p < t
        invariant
            p >= 1,
            pow2_from(t as nat, 1) == pow2_from(t as nat, p as nat),
            t == y + row,
            sv == sizes_view(sizes@),
            shelves(sv, width as nat) == Some((x as nat, y as nat, row as nat, positions_view(positions@))),
        decreases if p >= t {
            0
        } else {
            t - p
        },
    {
        if p > usize::MAX / 2 {
            proof {
                assert(pow2_from(t as nat, p as nat) == pow2_from(t as nat, 2 * p as nat));
                lemma_pow2_from(t as nat, 2 * p as nat);
            }
            return None;
        }
        p = p * 2;
    }
    Some((p, positions))
}

/// Sizes of sprites as mathematical pairs.
pub open spec fn sizes_view(s: Seq<(usize, usize)>) -> Seq<(nat, nat)> {
    s.map_values(|p: (usize, usize)| (p.0 as nat, p.1 as nat))
}

/// Positions as mathematical pairs.
pub open spec fn positions_view(s: Seq<(usize, usize)>) -> Seq<(nat, nat)> {
    s.map_values(|p: (usize, usize)| (p.0 as nat, p.1 as nat))
}

// ---- choosing the atlas width ----

/// The smallest layout over power-of-two widths from `p` up to `width`
/// whose height fits `height` and whose area is below `area` and every
/// earlier pick; `best` when there is none.
pub open spec fn best_from(
    sizes: Seq<(nat, nat)>,
    width: nat,
    height: nat,
    p: nat,
    area: nat,
    best: Option<(nat, nat, Seq<(nat, nat)>)>,
) -> Option<(nat, nat, Seq<(nat, nat)>)>
    decreases if p > width {
        0
    } else {
        width + 1 - p
    },
{
    if p > width {
        best
    } else if p == 0 {
        best_from(sizes, width, height, 1, area, best)
    } else {
        match layout_of(sizes, p) {
            Some((h, pos)) => if h <= height && p * h < area {
                best_from(sizes, width, height, 2 * p, p * h, Some((p, h, pos)))
            } else {
                best_from(sizes, width, height, 2 * p, area, best)
            },
            None => best_from(sizes, width, height, 2 * p, area, best),
        }
    }
}

/// The smallest atlas for sprites of sizes `sizes`, no wider than `width`
/// nor higher than `height`, and smaller than `width * height`.
pub open spec fn best_layout_of(sizes: Seq<(nat, nat)>, width: nat, height: nat) -> Option<
    (nat, nat, Seq<(nat, nat)>),
> {
    best_from(sizes, width, height, 1, width * height, None)
}

pub open spec fn pick_view(b: Option<(usize, usize, Vec<(usize, usize)>)>) -> Option<(nat, nat, Seq<(nat, nat)>)> {
    match b {
        Some(t) => Some((t.0 as nat, t.1 as nat, positions_view(t.2@))),
        None => None,
    }
}

fn best_layout(sizes: &Vec<(usize, usize)>, width: usize, height: usize) -> (r: Option<
    (usize, usize, Vec<(usize, usize)>),
>)
    requires
        width * height <= usize::MAX,
        width <= usize::MAX / 2,
    ensures
        pick_view(r) == best_layout_of(sizes_view(sizes@), width as nat, height as nat),
{
    let mut best: Option<(usize, usize, Vec<(usize, usize)>)> = None;
    let mut area: usize = width * height;
    let mut p: usize = 1;
    while p <= width
        invariant
            p >= 1,
            area <= width * height,
            width * height <= usize::MAX,
            width <= usize::MAX / 2,
            best_layout_of(sizes_view(sizes@), width as nat, height as nat) == best_from(
                sizes_view(sizes@),
                width as nat,
                height as nat,
                p as nat,
                area as nat,
                pick_view(best),
            ),
        decreases if p > width {
            0
        } else {
            width + 1 - p
        },
    {
        match layout(sizes, p) {
            Some((nh, pos)) => {
                if nh <= height {
                    assert(p * nh <= width * height) by (nonlinear_arith)
                        requires
                            p <= width,
                            nh <= height,
                    ;
                    if p * nh < area {
                        area = p * nh;
                        best = Some((p, nh, pos));
                    }
                }
            },
            None => {},
        }
        p = p * 2;
    }
    best
}

// ---- sprites ----

/// A sprite of an atlas: its name and its rectangle in the atlas.
pub struct SpriteView {
    pub name: Seq<char>,
    pub x: nat,
    pub y: nat,
    pub w: nat,
    pub h: nat,
}

struct Sprite {
    name: String,
    x: usize,
    y: usize,
    w: usize,
    h: usize,
}

impl View for Sprite {
    type V = SpriteView;

    closed spec fn view(&self) -> SpriteView {
        SpriteView { name: self.name@, x: self.x as nat, y: self.y as nat, w: self.w as nat, h: self.h as nat }
    }
}

pub open spec fn sprite_views(s: Seq<Sprite>) -> Seq<SpriteView> {
    s.map_values(|x: Sprite| x@)
}

/// The sprite named `name`: its icon's non-empty rectangle, inside the atlas.
pub open spec fn sprite_at(icons: Seq<(Seq<char>, ValueView)>, name: Seq<char>, width: nat, height: nat) -> Option<
    SpriteView,
> {
    match entry_of(icons, name) {
        Some(ValueView::Object(ie)) => match (
            number_in(ie, "left"@),
            number_in(ie, "top"@),
            number_in(ie, "width"@),
            number_in(ie, "height"@),
        ) {
            (Some(x), Some(y), Some(w), Some(h)) => if w == 0 || h == 0 || x + w > width || y + h > height {
                None
            } else {
                Some(SpriteView { name, x, y, w, h })
            },
            _ => None,
        },
        _ => None,
    }
}

/// The sprites named `names`, none when any of them is missing or invalid.
pub open spec fn sprites_of(icons: Seq<(Seq<char>, ValueView)>, names: Seq<Seq<char>>, width: nat, height: nat) -> Option<
    Seq<SpriteView>,
>
    decreases names.len(),
{
    if names.len() == 0 {
        Some(Seq::empty())
    } else {
        match sprites_of(icons, names.drop_last(), width, height) {
            None => None,
            Some(ss) => match sprite_at(icons, names.last(), width, height) {
                None => None,
                Some(sp) => Some(ss.push(sp)),
            },
        }
    }
}

/// Packing order: taller first, then wider, then by name.
pub open spec fn sprite_lt(a: SpriteView, b: SpriteView) -> bool {
    a.h > b.h || (a.h == b.h && (a.w > b.w || (a.w == b.w && text_lt(a.name, b.name))))
}

pub open spec fn sprite_order() -> spec_fn(SpriteView, SpriteView) -> bool {
    |a: SpriteView, b: SpriteView| sprite_lt(a, b)
}

fn sprite_less(a: &Sprite, b: &Sprite) -> (r: bool)
    ensures
        r == sprite_lt(a@, b@),
{
    a.h > b.h || (a.h == b.h && (a.w > b.w || (a.w == b.w && text_less(&a.name, &b.name))))
}

fn sort_sprites(v: Vec<Sprite>) -> (r: Vec<Sprite>)
    ensures
        sprite_views(r@) == sort_by(sprite_views(v@), sprite_order()),
{
    let ghost sv = sprite_views(v@);
    let ghost all = v@;
    let n = v.len();
    let mut rest = v;
    let mut out: Vec<Sprite> = Vec::new();
    let mut i: usize = 0;
    assert(sprite_views(out@) =~= sort_by(sv.take(0), sprite_order()));
    while i < n
        invariant
            i <= n,
            n == all.len(),
            sv == sprite_views(all),
            rest@ == all.skip(i as int),
            sprite_views(out@) == sort_by(sv.take(i as int), sprite_order()),
        decreases n - i,
    {
        let x = rest.remove(0);
        assert(x == all[i as int]);
        let mut j: usize = 0;
        loop
            invariant
                j <= out@.len(),
                forall|k: int| 0 <= k < j ==> !sprite_lt(x@, #[trigger] sprite_views(out@)[k]),
            ensures
                j <= out@.len(),
                forall|k: int| 0 <= k < j ==> !sprite_lt(x@, #[trigger] sprite_views(out@)[k]),
                j == out@.len() || sprite_lt(x@, sprite_views(out@)[j as int]),
            decreases out@.len() - j,
        {
            if j >= out.len() {
                break;
            }
            if sprite_less(&x, &out[j]) {
                break;
            }
            j = j + 1;
        }
        proof {
            lemma_ins_pos(sprite_views(out@), x@, sprite_order(), j as int);
            assert(sv.take(i + 1).drop_last() =~= sv.take(i as int));
            assert(sv.take(i + 1).last() == x@);
            assert(rest@ =~= all.skip(i + 1));
        }
        let ghost before = out@;
        out.insert(j, x);
        assert(sprite_views(out@) =~= sprite_views(before).insert(j as int, x@));
        i = i + 1;
    }
    assert(sv.take(n as int) =~= sv);
    out
}

/// Texts of a sequence of strings.
pub open spec fn names_view(s: Seq<String>) -> Seq<Seq<char>> {
    s.map_values(|x: String| x@)
}

fn collect_sprites(icons: &Vec<(String, Value)>, names: &Vec<String>, width: usize, height: usize) -> (r: Option<
    Vec<Sprite>,
>)
    ensures
        r matches Some(v) ==> sprites_of(view_entries(icons@), names_view(names@), width as nat, height as nat)
            == Some(sprite_views(v@)),
        r is None ==> sprites_of(view_entries(icons@), names_view(names@), width as nat, height as nat) is None,
{
    let ghost nv = names_view(names@);
    let ghost ie = view_entries(icons@);
    let mut out: Vec<Sprite> = Vec::new();
    let mut i: usize = 0;
    assert(nv.take(0) =~= Seq::<Seq<char>>::empty());
    assert(sprite_views(out@) =~= Seq::<SpriteView>::empty());
    while i < names.len()
        invariant
            i <= names@.len(),
            nv == names_view(names@),
            ie == view_entries(icons@),
            sprites_of(ie, nv.take(i as int), width as nat, height as nat) == Some(sprite_views(out@)),
        decreases names@.len() - i,
    {
        let name = &names[i];
        proof {
            assert(nv.take(i + 1).drop_last() =~= nv.take(i as int));
            assert(nv.take(i + 1).last() == name@);
        }
        let at = match lookup(icons, name.as_str()) {
            Some(at) => at,
            None => {
                proof {
                    lemma_sprites_prefix_none(ie, nv, width as nat, height as nat, i + 1);
                }
                return None;
            },
        };
        let sp = match &icons[at].1 {
            Value::Object(io) => {
                let x = number(io, "left");
                let y = number(io, "top");
                let w = number(io, "width");
                let h = number(io, "height");
                match (x, y, w, h) {
                    (Some(x), Some(y), Some(w), Some(h)) => {
                        if w == 0 || h == 0 || x > width || w > width - x || y > height || h > height - y {
                            None
                        } else {
                            Some(Sprite { name: name.clone(), x, y, w, h })
                        }
                    },
                    _ => None,
                }
            },
            _ => None,
        };
        match sp {
            Some(sp) => {
                let ghost before = out@;
                out.push(sp);
                assert(sprite_views(out@) =~= sprite_views(before).push(sp@));
            },
            None => {
                proof {
                    lemma_sprites_prefix_none(ie, nv, width as nat, height as nat, i + 1);
                }
                return None;
            },
        }
        i = i + 1;
    }
    assert(nv.take(i as int) =~= nv);
    Some(out)
}

proof fn lemma_sprites_prefix_none(
    icons: Seq<(Seq<char>, ValueView)>,
    names: Seq<Seq<char>>,
    width: nat,
    height: nat,
    k: int,
)
    requires
        0 <= k <= names.len(),
        sprites_of(icons, names.take(k), width, height) is None,
    ensures
        sprites_of(icons, names, width, height) is None,
    decreases names.len() - k,
{
    if k < names.len() {
        assert(names.take(k + 1).drop_last() =~= names.take(k));
        lemma_sprites_prefix_none(icons, names, width, height, k + 1);
    } else {
        assert(names.take(k) =~= names);
    }
}

// ---- painting the new atlas ----

/// `v - 1`, but not below 0 and not above `size - 1`: the source row or
/// column of a padded sprite's pixel.
pub open spec fn clamp_back(v: nat, size: nat) -> nat {
    let a: nat = if v == 0 {
        0
    } else {
        (v - 1) as nat
    };
    if a + 1 <= size {
        a
    } else {
        (size - 1) as nat
    }
}

/// `d` with the four bytes at `to` taken from `px` at `from`.
pub open spec fn copy4(d: Seq<u8>, to: int, px: Seq<u8>, from: int) -> Seq<u8> {
    d.take(to) + px.subrange(from, from + 4) + d.skip(to + 4)
}

/// The atlas after copying cell `(dx, dy)` of sprite `s`'s padded box, from
/// the old atlas `px` (`width` by `height`) to position `at` of the new one
/// (`nw` wide).
pub open spec fn paint_cell(
    d: Seq<u8>,
    px: Seq<u8>,
    width: nat,
    height: nat,
    nw: nat,
    s: SpriteView,
    at: (nat, nat),
    dy: nat,
    dx: nat,
) -> Seq<u8> {
    let from = (clamp_back(s.y + dy, height) * width + clamp_back(s.x + dx, width)) * 4;
    let to = ((at.1 + dy - 1) * nw + at.0 + dx - 1) * 4;
    copy4(d, to, px, from as int)
}

/// The first `k` cells of row `dy` of a padded box, copied in order.
pub open spec fn paint_row(
    d: Seq<u8>,
    px: Seq<u8>,
    width: nat,
    height: nat,
    nw: nat,
    s: SpriteView,
    at: (nat, nat),
    dy: nat,
    k: nat,
) -> Seq<u8>
    decreases k,
{
    if k == 0 {
        d
    } else {
        paint_cell(paint_row(d, px, width, height, nw, s, at, dy, (k - 1) as nat), px, width, height, nw, s, at, dy, (k - 1) as nat)
    }
}

/// The first `k` rows of a sprite's padded box, copied in order.
pub open spec fn paint_box(
    d: Seq<u8>,
    px: Seq<u8>,
    width: nat,
    height: nat,
    nw: nat,
    s: SpriteView,
    at: (nat, nat),
    k: nat,
) -> Seq<u8>
    decreases k,
{
    if k == 0 {
        d
    } else {
        paint_row(paint_box(d, px, width, height, nw, s, at, (k - 1) as nat), px, width, height, nw, s, at, (k - 1) as nat, s.w + 2)
    }
}

/// The padded boxes of the first `k` sprites, copied in order.
pub open spec fn paint_all(
    d: Seq<u8>,
    px: Seq<u8>,
    width: nat,
    height: nat,
    nw: nat,
    ss: Seq<SpriteView>,
    pos: Seq<(nat, nat)>,
    k: nat,
) -> Seq<u8>
    decreases k,
{
    if k == 0 || k > ss.len() {
        d
    } else {
        paint_box(paint_all(d, px, width, height, nw, ss, pos, (k - 1) as nat), px, width, height, nw, ss[k - 1], pos[k - 1], ss[k - 1].h + 2)
    }
}

/// Every sprite's padded box lies inside an atlas `nw` by `nh`.
pub open spec fn boxes_fit(ss: Seq<SpriteView>, pos: Seq<(nat, nat)>, nw: nat, nh: nat) -> bool {
    &&& pos.len() == ss.len()
    &&& forall|i: int|
        0 <= i < ss.len() ==> 1 <= (#[trigger] pos[i]).0 && pos[i].0 - 1 + ss[i].w + 2 <= nw && 1 <= pos[i].1
            && pos[i].1 - 1 + ss[i].h + 2 <= nh
}

proof fn lemma_cell_bounds(a: nat, b: nat, n: nat, m: nat)
    requires
        a < n,
        b < m,
    ensures
        a * m + b < n * m,
        a * m <= a * m + b,
        n * m == m * n,
        (a * m + b) * 4 + 4 <= m * n * 4,
{
    assert(a * m + b < n * m && n * m == m * n) by (nonlinear_arith)
        requires
            a < n,
            b < m,
    ;
}

/// Where cell `(dx, dy)` of sprite `s`'s padded box is read from and
/// written to, as [`paint_cell`] says.
fn cell_offsets(
    s: &Sprite,
    px: usize,
    py: usize,
    dy: usize,
    dx: usize,
    width: usize,
    height: usize,
    nw: usize,
    nh: usize,
) -> (r: (usize, usize))
    requires
        dy < s.h + 2,
        dx < s.w + 2,
        1 <= px && px - 1 + s.w + 2 <= nw && 1 <= py && py - 1 + s.h + 2 <= nh,
        s.x + s.w <= width,
        s.y + s.h <= height,
        width >= 1,
        height >= 1,
        width <= usize::MAX / 4 && height <= usize::MAX / 4,
        width * height * 4 <= usize::MAX,
        nw * nh * 4 <= usize::MAX,
    ensures
        r.0 == (clamp_back(s@.y + dy as nat, height as nat) * width + clamp_back(s@.x + dx as nat, width as nat)) * 4,
        r.1 == ((py + dy - 1) * nw + px + dx - 1) * 4,
        r.0 + 4 <= width * height * 4,
        r.1 + 4 <= nw * nh * 4,
{
    let a = if s.y + dy == 0 {
        0
    } else {
        s.y + dy - 1
    };
    let sy = if a + 1 <= height {
        a
    } else {
        height - 1
    };
    let b = if s.x + dx == 0 {
        0
    } else {
        s.x + dx - 1
    };
    let sx = if b + 1 <= width {
        b
    } else {
        width - 1
    };
    proof {
        lemma_cell_bounds(sy as nat, sx as nat, height as nat, width as nat);
        lemma_cell_bounds((py + dy - 1) as nat, (px + dx - 1) as nat, nh as nat, nw as nat);
    }
    ((sy * width + sx) * 4, ((py + dy - 1) * nw + px + dx - 1) * 4)
}

/// Copies four bytes from `pixels` at `from` into `data` at `to`.
fn copy_cell(data: &mut Vec<u8>, pixels: &Vec<u8>, to: usize, from: usize)
    requires
        to + 4 <= old(data)@.len(),
        from + 4 <= pixels@.len(),
        to + 4 <= usize::MAX,
        from + 4 <= usize::MAX,
    ensures
        final(data)@ == copy4(old(data)@, to as int, pixels@, from as int),
{
    data.set(to, pixels[from]);
    data.set(to + 1, pixels[from + 1]);
    data.set(to + 2, pixels[from + 2]);
    data.set(to + 3, pixels[from + 3]);
    assert(data@ =~= copy4(old(data)@, to as int, pixels@, from as int));
}

fn paint(
    pixels: &Vec<u8>,
    width: usize,
    height: usize,
    sprites: &Vec<Sprite>,
    pos: &Vec<(usize, usize)>,
    nw: usize,
    nh: usize,
) -> (r: Vec<u8>)
    requires
        width >= 1,
        height >= 1,
        pixels@.len() == width * height * 4,
        width * height * 4 <= usize::MAX,
        nw * nh * 4 <= usize::MAX,
        boxes_fit(sprite_views(sprites@), positions_view(pos@), nw as nat, nh as nat),
        forall|i: int|
            0 <= i < sprites@.len() ==> (#[trigger] sprites@[i]).x + sprites@[i].w <= width && sprites@[i].y
                + sprites@[i].h <= height,
    ensures
        r@ == paint_all(
            Seq::new((nw * nh * 4) as nat, |i: int| 0u8),
            pixels@,
            width as nat,
            height as nat,
            nw as nat,
            sprite_views(sprites@),
            positions_view(pos@),
            sprites@.len() as nat,
        ),
{
    let ghost ss = sprite_views(sprites@);
    let ghost ps = positions_view(pos@);
    let ghost zero = Seq::new((nw * nh * 4) as nat, |i: int| 0u8);
    assert(width <= usize::MAX / 4 && height <= usize::MAX / 4) by (nonlinear_arith)
        requires
            width >= 1,
            height >= 1,
            width * height * 4 <= usize::MAX,
    ;
    let mut data: Vec<u8> = Vec::new();
    let total = nw * nh * 4;
    let mut z: usize = 0;
    while z < total
        invariant
            z <= total,
            data@ == Seq::new(z as nat, |i: int| 0u8),
        decreases total - z,
    {
        data.push(0);
        z = z + 1;
        assert(data@ =~= Seq::new(z as nat, |i: int| 0u8));
    }
    let mut k: usize = 0;
    while k < sprites.len()
        invariant
            k <= sprites@.len(),
            ss == sprite_views(sprites@),
            ps == positions_view(pos@),
            zero == Seq::new((nw * nh * 4) as nat, |i: int| 0u8),
            data@.len() == nw * nh * 4,
            width >= 1,
            height >= 1,
            width <= usize::MAX / 4 && height <= usize::MAX / 4,
            width * height * 4 <= usize::MAX,
            pixels@.len() == width * height * 4,
            nw * nh * 4 <= usize::MAX,
            boxes_fit(ss, ps, nw as nat, nh as nat),
            forall|i: int|
                0 <= i < sprites@.len() ==> (#[trigger] sprites@[i]).x + sprites@[i].w <= width && sprites@[i].y
                    + sprites@[i].h <= height,
            data@ == paint_all(zero, pixels@, width as nat, height as nat, nw as nat, ss, ps, k as nat),
        decreases sprites@.len() - k,
    {
        let s = &sprites[k];
        let (px, py) = pos[k];
        assert(ss[k as int] == s@);
        assert(ps[k as int] == (px as nat, py as nat));
        assert(1 <= px && px - 1 + s.w + 2 <= nw && 1 <= py && py - 1 + s.h + 2 <= nh);
        let ghost start = data@;
        let mut dy: usize = 0;
        while dy < s.h + 2
            invariant
                dy <= s.h + 2,
                1 <= px && px - 1 + s.w + 2 <= nw && 1 <= py && py - 1 + s.h + 2 <= nh,
                s.x + s.w <= width,
                s.y + s.h <= height,
                width >= 1,
                height >= 1,
                width <= usize::MAX / 4 && height <= usize::MAX / 4,
                width * height * 4 <= usize::MAX,
                pixels@.len() == width * height * 4,
                nw * nh * 4 <= usize::MAX,
                data@.len() == nw * nh * 4,
                data@ == paint_box(start, pixels@, width as nat, height as nat, nw as nat, s@, (px as nat, py as nat), dy as nat),
            decreases s.h + 2 - dy,
        {
            let ghost row_start = data@;
            let mut dx: usize = 0;
            while dx < s.w + 2
                invariant
                    dx <= s.w + 2,
                    dy < s.h + 2,
                    1 <= px && px - 1 + s.w + 2 <= nw && 1 <= py && py - 1 + s.h + 2 <= nh,
                    s.x + s.w <= width,
                    s.y + s.h <= height,
                    width >= 1,
                    height >= 1,
                    width <= usize::MAX / 4 && height <= usize::MAX / 4,
                    width * height * 4 <= usize::MAX,
                    pixels@.len() == width * height * 4,
                    nw * nh * 4 <= usize::MAX,
                    data@.len() == nw * nh * 4,
                    data@ == paint_row(row_start, pixels@, width as nat, height as nat, nw as nat, s@, (px as nat, py as nat), dy as nat, dx as nat),
                decreases s.w + 2 - dx,
            {
                let (from, to) = cell_offsets(s, px, py, dy, dx, width, height, nw, nh);
                copy_cell(&mut data, pixels, to, from);
                dx = dx + 1;
            }
            dy = dy + 1;
        }
        k = k + 1;
    }
    data
}

// ---- one atlas ----

/// A moved coordinate, of the kind the old one was: a float stays a float,
/// anything else becomes an integer.
pub open spec fn coord_value(old: Option<ValueView>, c: nat) -> ValueView {
    match old {
        Some(ValueView::Float(_)) => ValueView::Float(u64_to_f64_bits(c as u64)),
        _ => ValueView::Int(c as i64),
    }
}

/// An icon moved to `at`: its `left` and `top` replaced, all else kept.
pub open spec fn moved_icon(ie: Seq<(Seq<char>, ValueView)>, at: (nat, nat)) -> Seq<(Seq<char>, ValueView)> {
    let a = insert_entry(ie, "left"@, coord_value(entry_of(ie, "left"@), at.0));
    insert_entry(a, "top"@, coord_value(entry_of(a, "top"@), at.1))
}

/// The entries of the icon named `name`.
pub open spec fn icon_entries(icons: Seq<(Seq<char>, ValueView)>, name: Seq<char>) -> Seq<(Seq<char>, ValueView)> {
    match entry_of(icons, name) {
        Some(ValueView::Object(ie)) => ie,
        _ => Seq::empty(),
    }
}

/// The icons of the first `k` sprites, each moved to its new position.
pub open spec fn kept_icons(
    icons: Seq<(Seq<char>, ValueView)>,
    ss: Seq<SpriteView>,
    pos: Seq<(nat, nat)>,
    k: nat,
) -> Seq<(Seq<char>, ValueView)>
    decreases k,
{
    if k == 0 || k > ss.len() {
        Seq::empty()
    } else {
        insert_entry(
            kept_icons(icons, ss, pos, (k - 1) as nat),
            ss[k - 1].name,
            ValueView::Object(moved_icon(icon_entries(icons, ss[k - 1].name), pos[k - 1])),
        )
    }
}

/// The texture description of the new atlas.
pub open spec fn resized_texture(
    te: Seq<(Seq<char>, ValueView)>,
    nw: nat,
    nh: nat,
    index: u32,
    data: Seq<u8>,
) -> Seq<(Seq<char>, ValueView)> {
    let t1 = insert_entry(te, "width"@, ValueView::Int(nw as i64));
    let t2 = insert_entry(t1, "height"@, ValueView::Int(nh as i64));
    let t3 = insert_entry(t2, "truncated_width"@, ValueView::Int(nw as i64));
    let t4 = insert_entry(t3, "truncated_height"@, ValueView::Int(nh as i64));
    insert_entry(t4, "pixel"@, ValueView::Stream(index, data))
}

pub open spec fn sizes_of(ss: Seq<SpriteView>) -> Seq<(nat, nat)> {
    ss.map_values(|s: SpriteView| (s.w, s.h))
}

/// The atlas `src` with only the sprites `names` kept, repacked: none when
/// it is not an RGBA8 texture with a consistent size and icon table, when a
/// named sprite is missing or invalid, or when no smaller atlas holds them;
/// `Null` (drop the atlas) when no sprite is kept.
pub open spec fn compact_of(src: ValueView, names: Seq<Seq<char>>) -> Option<ValueView> {
    match src {
        ValueView::Object(se) => match entry_of(se, "texture"@) {
            Some(ValueView::Object(te)) => if entry_of(te, "type"@) != Some(ValueView::Str("RGBA8"@)) || number_in(
                te,
                "ast"@,
            ) != Some(0nat) {
                None
            } else {
                match (number_in(te, "width"@), number_in(te, "height"@), entry_of(te, "pixel"@)) {
                    (Some(w), Some(h), Some(ValueView::Stream(index, px))) => if w == 0 || h == 0 || w * h * 4
                        > usize::MAX || w * h * 4 != px.len() {
                        None
                    } else {
                        match entry_of(se, "icon"@) {
                            Some(ValueView::Object(icons)) => if names.len() == 0 {
                                Some(ValueView::Null)
                            } else {
                                match sprites_of(icons, names, w, h) {
                                    None => None,
                                    Some(ss) => {
                                        let sorted = sort_by(ss, sprite_order());
                                        match best_layout_of(sizes_of(sorted), w, h) {
                                            None => None,
                                            Some((nw, nh, pos)) => {
                                                let data = paint_all(zeros(nw * nh * 4), px, w, h, nw, sorted, pos, sorted.len());
                                                let kept = kept_icons(icons, sorted, pos, sorted.len());
                                                let tex = resized_texture(te, nw, nh, index, data);
                                                Some(
                                                    ValueView::Object(
                                                        insert_entry(
                                                            insert_entry(se, "icon"@, ValueView::Object(kept)),
                                                            "texture"@,
                                                            ValueView::Object(tex),
                                                        ),
                                                    ),
                                                )
                                            },
                                        }
                                    },
                                }
                            },
                            _ => None,
                        }
                    },
                    _ => None,
                }
            },
            _ => None,
        },
        _ => None,
    }
}

proof fn lemma_sprites_of(icons: Seq<(Seq<char>, ValueView)>, names: Seq<Seq<char>>, width: nat, height: nat)
    requires
        sprites_of(icons, names, width, height) is Some,
    ensures
        sprites_of(icons, names, width, height)->Some_0.len() == names.len(),
        forall|j: int|
            0 <= j < names.len() ==> sprite_at(icons, #[trigger] names[j], width, height) == Some(
                sprites_of(icons, names, width, height)->Some_0[j],
            ),
    decreases names.len(),
{
    if names.len() > 0 {
        lemma_sprites_of(icons, names.drop_last(), width, height);
        let ss = sprites_of(icons, names, width, height)->Some_0;
        assert forall|j: int| 0 <= j < names.len() implies sprite_at(icons, #[trigger] names[j], width, height)
            == Some(ss[j]) by {
            if j < names.len() - 1 {
                assert(names.drop_last()[j] == names[j]);
            }
        }
    }
}

/// What the chosen layout guarantees: it came from placing the sprites in
/// an atlas `p` wide, no higher than `height` and smaller than `area`.
proof fn lemma_best_from(
    sizes: Seq<(nat, nat)>,
    width: nat,
    height: nat,
    p: nat,
    area: nat,
    best: Option<(nat, nat, Seq<(nat, nat)>)>,
)
    ensures
        best_from(sizes, width, height, p, area, best) matches Some(t) ==> (best == Some(t) || (1 <= t.0
            <= width && layout_of(sizes, t.0) == Some((t.1, t.2)) && t.1 <= height && t.0 * t.1 < area)),
    decreases if p > width {
        0
    } else {
        width + 1 - p
    },
{
    if p <= width {
        if p == 0 {
            lemma_best_from(sizes, width, height, 1, area, best);
        } else {
            match layout_of(sizes, p) {
                Some((h, pos)) => if h <= height && p * h < area {
                    lemma_best_from(sizes, width, height, 2 * p, p * h, Some((p, h, pos)));
                } else {
                    lemma_best_from(sizes, width, height, 2 * p, area, best);
                },
                None => lemma_best_from(sizes, width, height, 2 * p, area, best),
            }
        }
    }
}

/// The sprites' padded boxes fit the layout they were placed by.
proof fn lemma_layout_fits(ss: Seq<SpriteView>, width: nat, nh: nat, pos: Seq<(nat, nat)>)
    requires
        layout_of(sizes_of(ss), width) == Some((nh, pos)),
    ensures
        boxes_fit(ss, pos, width, nh),
{
    let sizes = sizes_of(ss);
    lemma_shelves(sizes, width);
    let st = shelves(sizes, width)->Some_0;
    lemma_pow2_from(st.1 + st.2, 1);
    assert forall|i: int| 0 <= i < ss.len() implies 1 <= (#[trigger] pos[i]).0 && pos[i].0 - 1 + ss[i].w + 2
        <= width && 1 <= pos[i].1 && pos[i].1 - 1 + ss[i].h + 2 <= nh by {
        assert(sizes[i] == (ss[i].w, ss[i].h));
    }
}

/// A copy of an object's entries.
pub(crate) fn copy_entries(es: &Vec<(String, Value)>) -> (r: Vec<(String, Value)>)
    ensures
        view_entries(r@) == view_entries(es@),
{
    let mut out: Vec<(String, Value)> = Vec::new();
    let mut i: usize = 0;
    assert(view_entries(es@.take(0)) =~= view_entries(out@)) by {
        assert(es@.take(0) =~= Seq::<(String, Value)>::empty());
        assert(out@ =~= Seq::<(String, Value)>::empty());
    }
    while i < es.len()
        invariant
            i <= es@.len(),
            view_entries(out@) == view_entries(es@.take(i as int)),
        decreases es@.len() - i,
    {
        let c = (es[i].0.clone(), es[i].1.duplicate());
        proof {
            lemma_view_entries_push(out@, c);
            lemma_view_entries_push(es@.take(i as int), es@[i as int]);
            assert(es@.take(i as int).push(es@[i as int]) =~= es@.take(i + 1));
        }
        out.push(c);
        i = i + 1;
    }
    assert(es@.take(i as int) =~= es@);
    out
}

fn coord(old: Option<&Value>, c: usize) -> (r: Value)
    requires
        c <= i64::MAX,
    ensures
        r@ == coord_value(
            match old {
                Some(v) => Some(v@),
                None => None,
            },
            c as nat,
        ),
{
    match old {
        Some(Value::Float(_)) => Value::Float(to_f64_bits(c as u64)),
        _ => Value::Int(c as i64),
    }
}

/// The icon `io` moved to `(x, y)`.
fn moved(io: &Vec<(String, Value)>, x: usize, y: usize) -> (r: Vec<(String, Value)>)
    requires
        x <= i64::MAX,
        y <= i64::MAX,
    ensures
        view_entries(r@) == moved_icon(view_entries(io@), (x as nat, y as nat)),
{
    let mut icon = copy_entries(io);
    let left = match lookup(&icon, "left") {
        Some(i) => coord(Some(&icon[i].1), x),
        None => coord(None, x),
    };
    object_insert(&mut icon, String::from_str("left"), left);
    let top = match lookup(&icon, "top") {
        Some(i) => coord(Some(&icon[i].1), y),
        None => coord(None, y),
    };
    object_insert(&mut icon, String::from_str("top"), top);
    icon
}

/// The texture description `te` resized to `nw` by `nh` with new pixels.
fn resized(te: &Vec<(String, Value)>, nw: usize, nh: usize, index: u32, data: Vec<u8>) -> (r: Vec<
    (String, Value),
>)
    requires
        nw <= i64::MAX,
        nh <= i64::MAX,
    ensures
        view_entries(r@) == resized_texture(view_entries(te@), nw as nat, nh as nat, index, data@),
{
    let mut t = copy_entries(te);
    object_insert(&mut t, String::from_str("width"), Value::Int(nw as i64));
    object_insert(&mut t, String::from_str("height"), Value::Int(nh as i64));
    object_insert(&mut t, String::from_str("truncated_width"), Value::Int(nw as i64));
    object_insert(&mut t, String::from_str("truncated_height"), Value::Int(nh as i64));
    object_insert(&mut t, String::from_str("pixel"), Value::Stream(Stream { index, data }));
    t
}

/// The moved icons of the sorted sprites, each named after its sprite.
fn kept(icons: &Vec<(String, Value)>, sprites: &Vec<Sprite>, pos: &Vec<(usize, usize)>) -> (r: Vec<
    (String, Value),
>)
    requires
        pos@.len() == sprites@.len(),
        forall|i: int| 0 <= i < pos@.len() ==> (#[trigger] pos@[i]).0 <= i64::MAX && pos@[i].1 <= i64::MAX,
        forall|i: int|
            0 <= i < sprites@.len() ==> entry_of(view_entries(icons@), (#[trigger] sprites@[i])@.name) matches Some(
                ValueView::Object(_),
            ),
    ensures
        view_entries(r@) == kept_icons(
            view_entries(icons@),
            sprite_views(sprites@),
            positions_view(pos@),
            sprites@.len() as nat,
        ),
{
    let ghost ie = view_entries(icons@);
    let ghost ss = sprite_views(sprites@);
    let ghost ps = positions_view(pos@);
    let mut out: Vec<(String, Value)> = Vec::new();
    let mut k: usize = 0;
    assert(view_entries(out@) =~= Seq::<(Seq<char>, ValueView)>::empty());
    while k < sprites.len()
        invariant
            k <= sprites@.len(),
            pos@.len() == sprites@.len(),
            ie == view_entries(icons@),
            ss == sprite_views(sprites@),
            ps == positions_view(pos@),
            forall|i: int| 0 <= i < pos@.len() ==> (#[trigger] pos@[i]).0 <= i64::MAX && pos@[i].1 <= i64::MAX,
            forall|i: int|
                0 <= i < sprites@.len() ==> entry_of(ie, (#[trigger] sprites@[i])@.name) matches Some(
                    ValueView::Object(_),
                ),
            view_entries(out@) == kept_icons(ie, ss, ps, k as nat),
        decreases sprites@.len() - k,
    {
        let name = &sprites[k].name;
        assert(ss[k as int].name == name@);
        assert(entry_of(ie, sprites@[k as int]@.name) matches Some(ValueView::Object(_)));
        let at = lookup(icons, name.as_str());
        let at = match at {
            Some(at) => at,
            None => {
                assert(false);
                return out;
            },
        };
        let io = match &icons[at].1 {
            Value::Object(io) => io,
            _ => {
                assert(false);
                return out;
            },
        };
        assert(icon_entries(ie, name@) == view_entries(io@));
        let (x, y) = pos[k];
        assert(pos@[k as int].0 <= i64::MAX && pos@[k as int].1 <= i64::MAX);
        let m = moved(io, x, y);
        assert(ps[k as int] == (x as nat, y as nat));
        object_insert(&mut out, name.clone(), Value::Object(m));
        k = k + 1;
    }
    out
}

/// The texture and icon tables of an atlas, checked as [`compact_of`] does
/// before repacking: width, height, pixel stream index and pixel bytes.
fn atlas_parts(se: &Vec<(String, Value)>) -> (r: Option<(usize, usize, usize, usize)>)
    ensures
        r matches Some(p) ==> {
            &&& p.2 < se@.len() && p.3 < se@.len()
            &&& entry_of(view_entries(se@), "texture"@) == Some(se@[p.2 as int].1@)
            &&& entry_of(view_entries(se@), "icon"@) == Some(se@[p.3 as int].1@)
            &&& se@[p.2 as int].1 is Object && se@[p.3 as int].1 is Object
            &&& {
                let te = view_entries(se@[p.2 as int].1->Object_0@);
                &&& entry_of(te, "type"@) == Some(ValueView::Str("RGBA8"@))
                &&& number_in(te, "ast"@) == Some(0nat)
                &&& number_in(te, "width"@) == Some(p.0 as nat)
                &&& number_in(te, "height"@) == Some(p.1 as nat)
                &&& entry_of(te, "pixel"@) matches Some(ValueView::Stream(_, px)) && px.len() == p.0 * p.1 * 4
                &&& p.0 >= 1 && p.1 >= 1 && p.0 * p.1 * 4 <= usize::MAX
            }
        },
        r is None ==> forall|n: Seq<Seq<char>>| #[trigger] compact_of(ValueView::Object(view_entries(se@)), n) is None,
{
    proof {
        reveal_strlit("RGBA8");
    }
    let ti = match lookup(se, "texture") {
        Some(i) => i,
        None => return None,
    };
    let te = match &se[ti].1 {
        Value::Object(te) => te,
        _ => return None,
    };
    match lookup(te, "type") {
        Some(i) => match &te[i].1 {
            Value::String(t) => {
                let rgba = String::from_str("RGBA8");
                if *t != rgba {
                    return None;
                }
            },
            _ => return None,
        },
        None => return None,
    }
    match number(te, "ast") {
        Some(0) => {},
        _ => return None,
    }
    let width = match number(te, "width") {
        Some(w) => w,
        None => return None,
    };
    let height = match number(te, "height") {
        Some(h) => h,
        None => return None,
    };
    let pi = match lookup(te, "pixel") {
        Some(i) => i,
        None => return None,
    };
    let len = match &te[pi].1 {
        Value::Stream(st) => st.data.len(),
        _ => return None,
    };
    if width == 0 || height == 0 {
        return None;
    }
    if width > usize::MAX / height {
        assert(width * height * 4 > usize::MAX) by (nonlinear_arith)
            requires
                width > usize::MAX / height,
                height >= 1,
        ;
        return None;
    }
    assert(width * height <= usize::MAX) by (nonlinear_arith)
        requires
            width <= usize::MAX / height,
            height >= 1,
    ;
    let wh = width * height;
    if wh > usize::MAX / 4 || wh * 4 != len {
        return None;
    }
    let ii = match lookup(se, "icon") {
        Some(i) => i,
        None => return None,
    };
    match &se[ii].1 {
        Value::Object(_) => {},
        _ => return None,
    }
    Some((width, height, ti, ii))
}

fn sprite_sizes(sprites: &Vec<Sprite>) -> (r: Vec<(usize, usize)>)
    ensures
        sizes_view(r@) == sizes_of(sprite_views(sprites@)),
{
    let mut out: Vec<(usize, usize)> = Vec::new();
    let mut i: usize = 0;
    while i < sprites.len()
        invariant
            i <= sprites@.len(),
            sizes_view(out@) == sizes_of(sprite_views(sprites@)).take(i as int),
        decreases sprites@.len() - i,
    {
        let ghost before = out@;
        out.push((sprites[i].w, sprites[i].h));
        assert(sprite_views(sprites@)[i as int] == sprites@[i as int]@);
        assert(sizes_view(out@) =~= sizes_view(before).push((sprites@[i as int].w as nat, sprites@[i as int].h as nat)));
        assert(sizes_of(sprite_views(sprites@))[i as int] == (sprites@[i as int].w as nat, sprites@[i as int].h as nat));
        assert(sizes_of(sprite_views(sprites@)).take(i + 1) =~= sizes_of(sprite_views(sprites@)).take(i as int).push(
            sizes_of(sprite_views(sprites@))[i as int],
        ));
        assert(sizes_view(out@) =~= sizes_of(sprite_views(sprites@)).take(i + 1));
        i = i + 1;
    }
    assert(sizes_of(sprite_views(sprites@)).take(i as int) =~= sizes_of(sprite_views(sprites@)));
    out
}

/// Repacks one atlas as [`compact_of`] says.
#[verifier::spinoff_prover]
#[verifier::rlimit(40)]
pub fn compact(source: &Value, names: &Vec<String>) -> (r: Option<Value>)
    ensures
        r matches Some(v) ==> compact_of(source@, names_view(names@)) == Some(v@),
        r is None ==> compact_of(source@, names_view(names@)) is None,
{
    let se = match source {
        Value::Object(se) => se,
        _ => return None,
    };
    let (width, height, ti, ii) = match atlas_parts(se) {
        Some(p) => p,
        None => return None,
    };
    let te = match &se[ti].1 {
        Value::Object(te) => te,
        _ => return None,
    };
    let icons = match &se[ii].1 {
        Value::Object(ic) => ic,
        _ => return None,
    };
    if names.len() == 0 {
        return Some(Value::Null);
    }
    let pi = match lookup(te, "pixel") {
        Some(i) => i,
        None => return None,
    };
    let st = match &te[pi].1 {
        Value::Stream(st) => st,
        _ => return None,
    };
    let ghost iv = view_entries(icons@);
    let ghost nv = names_view(names@);
    let sprites = match collect_sprites(icons, names, width, height) {
        Some(v) => v,
        None => return None,
    };
    let ghost ss = sprite_views(sprites@);
    proof {
        lemma_sprites_of(iv, nv, width as nat, height as nat);
    }
    let sorted = sort_sprites(sprites);
    let ghost so = sprite_views(sorted@);
    proof {
        lemma_sort_by(ss, sprite_order());
        assert forall|i: int| 0 <= i < sorted@.len() implies (#[trigger] sorted@[i]).x + sorted@[i].w <= width
            && sorted@[i].y + sorted@[i].h <= height && entry_of(iv, sorted@[i]@.name) matches Some(
            ValueView::Object(_),
        ) by {
            assert(so[i] == sorted@[i]@);
            let j = choose|j: int| 0 <= j < ss.len() && so[i] == ss[j];
            assert(sprite_at(iv, nv[j], width as nat, height as nat) == Some(ss[j]));
        }
    }
    let sizes = sprite_sizes(&sorted);
    assert(width <= usize::MAX / 2 && height <= usize::MAX / 2) by (nonlinear_arith)
        requires
            width * height * 4 <= usize::MAX,
            height >= 1,
            width >= 1,
    ;
    let (nw, nh, pos) = match best_layout(&sizes, width, height) {
        Some(t) => t,
        None => return None,
    };
    proof {
        lemma_best_from(sizes_view(sizes@), width as nat, height as nat, 1, (width * height) as nat, None);
        lemma_layout_fits(so, nw as nat, nh as nat, positions_view(pos@));
        assert(nw * nh * 4 <= usize::MAX);
        assert(nw <= width && nh <= height);
        assert forall|i: int| 0 <= i < pos@.len() implies (#[trigger] pos@[i]).0 <= i64::MAX && pos@[i].1
            <= i64::MAX by {
            assert(positions_view(pos@)[i] == (pos@[i].0 as nat, pos@[i].1 as nat));
            assert(pos@[i].0 <= nw && pos@[i].1 <= nh);
        }
    }
    let data = paint(&st.data, width, height, &sorted, &pos, nw, nh);
    let k = kept(icons, &sorted, &pos);
    let tex = resized(te, nw, nh, st.index, data);
    let mut out = copy_entries(se);
    object_insert(&mut out, String::from_str("icon"), Value::Object(k));
    object_insert(&mut out, String::from_str("texture"), Value::Object(tex));
    Some(Value::Object(out))
}

// ---- which sprites the motions use ----

/// The sprite references `(src, icon)` of a value, depth first (an object's
/// own reference before those of its entries); none when a reference is
/// not a pair of strings, so that which sprites are used is unknown.
pub open spec fn sprite_refs(v: ValueView) -> Option<Seq<(Seq<char>, Seq<char>)>>
    decreases v, 0nat,
{
    match v {
        ValueView::Object(es) => {
            let own: Option<Seq<(Seq<char>, Seq<char>)>> = match entry_of(es, "src"@) {
                None => Some(Seq::empty()),
                Some(ValueView::Str(s)) => match entry_of(es, "icon"@) {
                    Some(ValueView::Str(i)) => Some(seq![(s, i)]),
                    _ => None,
                },
                Some(_) => None,
            };
            match own {
                None => None,
                Some(o) => match entry_refs(es, es.len()) {
                    None => None,
                    Some(r) => Some(o + r),
                },
            }
        },
        ValueView::Array(items) => item_refs(items, items.len()),
        _ => Some(Seq::empty()),
    }
}

pub open spec fn item_refs(items: Seq<ValueView>, k: nat) -> Option<Seq<(Seq<char>, Seq<char>)>>
    decreases items, k,
{
    if k == 0 || k > items.len() {
        Some(Seq::empty())
    } else {
        match item_refs(items, (k - 1) as nat) {
            None => None,
            Some(a) => match sprite_refs(items[k - 1]) {
                None => None,
                Some(b) => Some(a + b),
            },
        }
    }
}

pub open spec fn entry_refs(es: Seq<(Seq<char>, ValueView)>, k: nat) -> Option<Seq<(Seq<char>, Seq<char>)>>
    decreases es, k,
{
    if k == 0 || k > es.len() {
        Some(Seq::empty())
    } else {
        proof {
            assert(decreases_to!(es => es[k - 1]));
            assert(decreases_to!(es[k - 1] => es[k - 1].1));
        }
        match entry_refs(es, (k - 1) as nat) {
            None => None,
            Some(a) => match sprite_refs(es[k - 1].1) {
                None => None,
                Some(b) => Some(a + b),
            },
        }
    }
}

/// The references of a tree's root entries other than `source`.
pub open spec fn root_refs(root: Seq<(Seq<char>, ValueView)>, k: nat) -> Option<Seq<(Seq<char>, Seq<char>)>>
    decreases k,
{
    if k == 0 || k > root.len() {
        Some(Seq::empty())
    } else {
        match root_refs(root, (k - 1) as nat) {
            None => None,
            Some(a) => if root[k - 1].0 == "source"@ {
                Some(a)
            } else {
                match sprite_refs(root[k - 1].1) {
                    None => None,
                    Some(b) => Some(a + b),
                }
            },
        }
    }
}

pub open spec fn pairs_view(s: Seq<(String, String)>) -> Seq<(Seq<char>, Seq<char>)> {
    s.map_values(|p: (String, String)| (p.0@, p.1@))
}

proof fn lemma_pairs_push(s: Seq<(String, String)>, p: (String, String))
    ensures
        pairs_view(s.push(p)) == pairs_view(s) + seq![(p.0@, p.1@)],
{
    assert(pairs_view(s.push(p)) =~= pairs_view(s) + seq![(p.0@, p.1@)]);
}

/// Adds the references of `v` to `out`; false when one is unknown.
fn gather_refs(v: &Value, out: &mut Vec<(String, String)>) -> (ok: bool)
    ensures
        ok == sprite_refs(v@) is Some,
        ok ==> pairs_view(final(out)@) == pairs_view(old(out)@) + sprite_refs(v@)->Some_0,
    decreases v,
{
    match v {
        Value::Array(a) => {
            let ghost items = view_values(a@);
            proof {
                lemma_view_values_len(a@);
            }
            let mut i: usize = 0;
            assert(pairs_view(out@) =~= pairs_view(old(out)@) + Seq::<(Seq<char>, Seq<char>)>::empty());
            while i < a.len()
                invariant
                    i <= a@.len(),
                    *v == Value::Array(*a),
                    items == view_values(a@),
                    items.len() == a@.len(),
                    forall|k: int| 0 <= k < a@.len() ==> #[trigger] items[k] == a@[k]@,
                    item_refs(items, i as nat) is Some,
                    pairs_view(out@) == pairs_view(old(out)@) + item_refs(items, i as nat)->Some_0,
                decreases a@.len() - i,
            {
                proof {
                    assert(decreases_to!(a@ => a@[i as int]));
                    assert(decreases_to!(*a => a@));
                    assert((*v)->Array_0 == *a);
                    assert(decreases_to!(*v => (*v)->Array_0));
                }
                let ghost before = out@;
                if !gather_refs(&a[i], out) {
                    proof {
                        lemma_item_refs_none(items, i as nat + 1);
                    }
                    return false;
                }
                assert(pairs_view(out@) =~= pairs_view(old(out)@) + item_refs(items, i as nat + 1)->Some_0);
                i = i + 1;
            }
            true
        },
        Value::Object(o) => {
            let ghost es = view_entries(o@);
            proof {
                lemma_view_entries_len(o@);
            }
            match lookup(o, "src") {
                None => {},
                Some(si) => match &o[si].1 {
                    Value::String(src) => match lookup(o, "icon") {
                        Some(ii) => match &o[ii].1 {
                            Value::String(icon) => {
                                let ghost before = out@;
                                out.push((src.clone(), icon.clone()));
                                proof {
                                    lemma_pairs_push(before, (*src, *icon));
                                }
                            },
                            _ => return false,
                        },
                        None => return false,
                    },
                    _ => return false,
                },
            }
            let ghost mid = out@;
            let ghost own = pairs_view(mid).skip(pairs_view(old(out)@).len() as int);
            assert(pairs_view(mid) =~= pairs_view(old(out)@) + own);
            let mut i: usize = 0;
            assert(pairs_view(out@) =~= pairs_view(mid) + Seq::<(Seq<char>, Seq<char>)>::empty());
            while i < o.len()
                invariant
                    i <= o@.len(),
                    *v == Value::Object(*o),
                    es == view_entries(o@),
                    es.len() == o@.len(),
                    forall|k: int| 0 <= k < o@.len() ==> #[trigger] es[k] == (o@[k].0@, o@[k].1@),
                    entry_refs(es, i as nat) is Some,
                    pairs_view(out@) == pairs_view(mid) + entry_refs(es, i as nat)->Some_0,
                decreases o@.len() - i,
            {
                proof {
                    assert(decreases_to!(o@[i as int] => o@[i as int].1));
                    assert(decreases_to!(o@ => o@[i as int]));
                    assert(decreases_to!(*o => o@));
                    assert((*v)->Object_0 == *o);
                    assert(decreases_to!(*v => (*v)->Object_0));
                }
                if !gather_refs(&o[i].1, out) {
                    proof {
                        lemma_entry_refs_none(es, i as nat + 1);
                    }
                    return false;
                }
                assert(pairs_view(out@) =~= pairs_view(mid) + entry_refs(es, i as nat + 1)->Some_0);
                i = i + 1;
            }
            assert(own == match entry_of(es, "src"@) {
                None => Seq::<(Seq<char>, Seq<char>)>::empty(),
                _ => seq![(entry_of(es, "src"@)->Some_0->Str_0, entry_of(es, "icon"@)->Some_0->Str_0)],
            });
            assert(pairs_view(out@) =~= pairs_view(old(out)@) + sprite_refs(v@)->Some_0);
            true
        },
        _ => {
            assert(pairs_view(out@) =~= pairs_view(old(out)@) + sprite_refs(v@)->Some_0);
            true
        },
    }
}

proof fn lemma_item_refs_none(items: Seq<ValueView>, k: nat)
    requires
        1 <= k <= items.len(),
        sprite_refs(items[k - 1]) is None,
    ensures
        item_refs(items, items.len()) is None,
    decreases items.len() - k,
{
    if k < items.len() {
        lemma_item_refs_grow_none(items, k, items.len());
    }
}

proof fn lemma_item_refs_grow_none(items: Seq<ValueView>, k: nat, j: nat)
    requires
        1 <= k <= j <= items.len(),
        item_refs(items, k) is None || sprite_refs(items[k - 1]) is None,
    ensures
        item_refs(items, j) is None,
    decreases j,
{
    if j > k {
        lemma_item_refs_grow_none(items, k, (j - 1) as nat);
    }
}

proof fn lemma_entry_refs_none(es: Seq<(Seq<char>, ValueView)>, k: nat)
    requires
        1 <= k <= es.len(),
        sprite_refs(es[k - 1].1) is None,
    ensures
        entry_refs(es, es.len()) is None,
{
    lemma_entry_refs_grow_none(es, k, es.len());
}

proof fn lemma_entry_refs_grow_none(es: Seq<(Seq<char>, ValueView)>, k: nat, j: nat)
    requires
        1 <= k <= j <= es.len(),
        entry_refs(es, k) is None || sprite_refs(es[k - 1].1) is None,
    ensures
        entry_refs(es, j) is None,
    decreases j,
{
    if j > k {
        lemma_entry_refs_grow_none(es, k, (j - 1) as nat);
    }
}

/// The references of a tree's root entries, as [`root_refs`] says.
fn root_references(root: &Vec<(String, Value)>) -> (r: Option<Vec<(String, String)>>)
    ensures
        r matches Some(v) ==> root_refs(view_entries(root@), root@.len() as nat) == Some(pairs_view(v@)),
        r is None ==> root_refs(view_entries(root@), root@.len() as nat) is None,
{
    let ghost es = view_entries(root@);
    proof {
        lemma_view_entries_len(root@);
    }
    let mut out: Vec<(String, String)> = Vec::new();
    let source = String::from_str("source");
    let mut i: usize = 0;
    assert(pairs_view(out@) =~= Seq::<(Seq<char>, Seq<char>)>::empty());
    while i < root.len()
        invariant
            i <= root@.len(),
            es == view_entries(root@),
            es.len() == root@.len(),
            source@ == "source"@,
            forall|k: int| 0 <= k < root@.len() ==> #[trigger] es[k] == (root@[k].0@, root@[k].1@),
            root_refs(es, i as nat) == Some(pairs_view(out@)),
        decreases root@.len() - i,
    {
        if root[i].0 != source {
            if !gather_refs(&root[i].1, &mut out) {
                proof {
                    lemma_root_refs_none(es, i as nat + 1, es.len());
                }
                return None;
            }
        }
        i = i + 1;
    }
    Some(out)
}

proof fn lemma_root_refs_none(es: Seq<(Seq<char>, ValueView)>, k: nat, j: nat)
    requires
        1 <= k <= j <= es.len(),
        root_refs(es, k) is None,
    ensures
        root_refs(es, j) is None,
    decreases j,
{
    if j > k {
        lemma_root_refs_none(es, k, (j - 1) as nat);
    }
}

/// The icons a motion uses from atlas `src`, each once, in the order they
/// are first met.
pub open spec fn icons_for(refs: Seq<(Seq<char>, Seq<char>)>, src: Seq<char>) -> Seq<Seq<char>>
    decreases refs.len(),
{
    if refs.len() == 0 {
        Seq::empty()
    } else {
        let acc = icons_for(refs.drop_last(), src);
        let p = refs.last();
        if p.0 == src && !acc.contains(p.1) {
            acc.push(p.1)
        } else {
            acc
        }
    }
}

fn icons_used(refs: &Vec<(String, String)>, src: &String) -> (r: Vec<String>)
    ensures
        names_view(r@) == icons_for(pairs_view(refs@), src@),
{
    let ghost pv = pairs_view(refs@);
    let mut out: Vec<String> = Vec::new();
    let mut i: usize = 0;
    assert(pv.take(0) =~= Seq::<(Seq<char>, Seq<char>)>::empty());
    assert(names_view(out@) =~= Seq::<Seq<char>>::empty());
    while i < refs.len()
        invariant
            i <= refs@.len(),
            pv == pairs_view(refs@),
            names_view(out@) == icons_for(pv.take(i as int), src@),
        decreases refs@.len() - i,
    {
        assert(pv.take(i + 1).drop_last() =~= pv.take(i as int));
        assert(pv.take(i + 1).last() == (refs@[i as int].0@, refs@[i as int].1@));
        if refs[i].0 == *src {
            let mut j: usize = 0;
            let mut seen = false;
            while j < out.len()
                invariant
                    j <= out@.len(),
                    i < refs@.len(),
                    seen == exists|q: int| 0 <= q < j && out@[q]@ == refs@[i as int].1@,
                decreases out@.len() - j,
            {
                if out[j] == refs[i].1 {
                    seen = true;
                }
                j = j + 1;
            }
            proof {
                if seen {
                    let q = choose|q: int| 0 <= q < j && out@[q]@ == refs@[i as int].1@;
                    assert(names_view(out@)[q] == refs@[i as int].1@);
                } else {
                    assert forall|q: int| 0 <= q < names_view(out@).len() implies names_view(out@)[q]
                        != refs@[i as int].1@ by {
                        assert(names_view(out@)[q] == out@[q]@);
                    }
                }
            }
            if !seen {
                let ghost before = out@;
                out.push(refs[i].1.clone());
                assert(names_view(out@) =~= names_view(before).push(refs@[i as int].1@));
            }
        }
        i = i + 1;
    }
    assert(pv.take(i as int) =~= pv);
    out
}

/// `s` read the way `str::parse::<i64>` reads it: an optional sign, then at
/// least one decimal digit, within `i64`'s range.
pub open spec fn parse_i64(s: Seq<char>) -> Option<int> {
    if s.len() > 0 && s[0] == '-' {
        let d = s.drop_first();
        if d.len() == 0 || !(forall|i: int| 0 <= i < d.len() ==> is_digit(#[trigger] d[i])) {
            None
        } else if digits_value(d) > 0x8000_0000_0000_0000 {
            None
        } else {
            Some(-digits_value(d))
        }
    } else {
        match parse_uint(s, i64::MAX as nat) {
            Some(v) => Some(v as int),
            None => None,
        }
    }
}

/// The number of a stock texture named `tex#<n>`.
pub open spec fn tex_number(name: Seq<char>) -> Option<int> {
    if name.len() >= 4 && name.take(4) == "tex#"@ {
        parse_i64(name.skip(4))
    } else {
        None
    }
}

fn parse_int(s: &str) -> (r: Option<i64>)
    ensures
        r matches Some(v) ==> parse_i64(s@) == Some(v as int),
        r is None ==> parse_i64(s@) is None,
{
    let n = s.unicode_len();
    if n > 0 && s.get_char(0) == '-' {
        let d = s.substring_char(1, n);
        assert(d@ =~= s@.drop_first());
        if n == 1 || d.get_char(0) == '+' {
            proof {
                if n > 1 {
                    assert(!is_digit(d@[0]));
                }
            }
            return None;
        }
        assert(unsigned_part(d@) == d@);
        match parse_uint_text(d, 0x8000_0000_0000_0000) {
            None => None,
            Some(v) => {
                if v == 0x8000_0000_0000_0000 {
                    Some(i64::MIN)
                } else {
                    Some(-(v as i64))
                }
            },
        }
    } else {
        match parse_uint_text(s, 0x7fff_ffff_ffff_ffff) {
            None => None,
            Some(v) => Some(v as i64),
        }
    }
}

pub(crate) fn tex_index(name: &String) -> (r: Option<i64>)
    ensures
        r matches Some(v) ==> tex_number(name@) == Some(v as int),
        r is None ==> tex_number(name@) is None,
{
    proof {
        reveal_strlit("tex#");
    }
    let s = name.as_str();
    let n = s.unicode_len();
    if n < 4 {
        return None;
    }
    let head = s.substring_char(0, 4);
    let prefix = String::from_str("tex#");
    let head_text = String::from_str(head);
    if head_text != prefix {
        assert(s@.take(4) =~= head@);
        return None;
    }
    assert(s@.take(4) =~= head@);
    let rest = s.substring_char(4, n);
    assert(rest@ =~= s@.skip(4));
    parse_int(rest)
}

// ---- the whole sheet ----

/// Names of the stock atlases among the first `k` sources: `tex#<n>` with
/// `n` below `first_new`, in order.
pub open spec fn stock_names(source: Seq<(Seq<char>, ValueView)>, first_new: int, k: nat) -> Seq<Seq<char>>
    decreases k,
{
    if k == 0 || k > source.len() {
        Seq::empty()
    } else {
        let acc = stock_names(source, first_new, (k - 1) as nat);
        match tex_number(source[k - 1].0) {
            Some(n) => if n < first_new {
                acc.push(source[k - 1].0)
            } else {
                acc
            },
            None => acc,
        }
    }
}

/// An object without its entry under `k`, the others keeping their order.
pub open spec fn remove_entry(s: Seq<(Seq<char>, ValueView)>, k: Seq<char>) -> Seq<(Seq<char>, ValueView)> {
    let i = find_key(s, k);
    if i >= 0 {
        s.remove(i)
    } else {
        s
    }
}

/// The sources after compacting the first `k` of the atlases `names`, in
/// order: an atlas with no used sprite is dropped, one that can be repacked
/// is replaced in place, any other is kept.
pub open spec fn compact_sources(
    source: Seq<(Seq<char>, ValueView)>,
    names: Seq<Seq<char>>,
    refs: Seq<(Seq<char>, Seq<char>)>,
    k: nat,
) -> Seq<(Seq<char>, ValueView)>
    decreases k,
{
    if k == 0 || k > names.len() {
        source
    } else {
        let s = compact_sources(source, names, refs, (k - 1) as nat);
        let name = names[k - 1];
        match entry_of(s, name) {
            None => s,
            Some(v) => match compact_of(v, icons_for(refs, name)) {
                Some(ValueView::Null) => remove_entry(s, name),
                Some(nv) => insert_entry(s, name, nv),
                None => s,
            },
        }
    }
}

/// A title-select sheet after compacting the stock atlases, those numbered
/// below `first_new`: unchanged when it is not an object, when a motion
/// refers to a sprite by anything but two strings, or when it has no
/// `source` object.
pub open spec fn compacted(tree: ValueView, first_new: i64) -> ValueView {
    match tree {
        ValueView::Object(root) => match root_refs(root, root.len()) {
            None => tree,
            Some(refs) => match entry_of(root, "source"@) {
                Some(ValueView::Object(source)) => {
                    let names = stock_names(source, first_new as int, source.len());
                    ValueView::Object(
                        root.update(
                            find_key(root, "source"@),
                            ("source"@, ValueView::Object(compact_sources(source, names, refs, names.len()))),
                        ),
                    )
                },
                _ => tree,
            },
        },
        _ => tree,
    }
}

fn stock_atlas_names(source: &Vec<(String, Value)>, first_new: i64) -> (r: Vec<String>)
    ensures
        names_view(r@) == stock_names(view_entries(source@), first_new as int, source@.len() as nat),
{
    let ghost es = view_entries(source@);
    proof {
        lemma_view_entries_len(source@);
    }
    let mut out: Vec<String> = Vec::new();
    let mut i: usize = 0;
    assert(names_view(out@) =~= Seq::<Seq<char>>::empty());
    while i < source.len()
        invariant
            i <= source@.len(),
            es == view_entries(source@),
            es.len() == source@.len(),
            forall|k: int| 0 <= k < source@.len() ==> #[trigger] es[k] == (source@[k].0@, source@[k].1@),
            names_view(out@) == stock_names(es, first_new as int, i as nat),
        decreases source@.len() - i,
    {
        match tex_index(&source[i].0) {
            Some(n) => {
                if n < first_new {
                    let ghost before = out@;
                    out.push(source[i].0.clone());
                    assert(names_view(out@) =~= names_view(before).push(source@[i as int].0@));
                }
            },
            None => {},
        }
        i = i + 1;
    }
    out
}

fn remove_key(s: &mut Vec<(String, Value)>, i: usize)
    requires
        i < old(s)@.len(),
    ensures
        view_entries(final(s)@) == view_entries(old(s)@).remove(i as int),
{
    proof {
        lemma_view_entries_len(old(s)@);
    }
    s.remove(i);
    proof {
        lemma_view_entries_len(s@);
        assert(view_entries(s@) =~= view_entries(old(s)@).remove(i as int));
    }
}

#[verifier::spinoff_prover]
fn compact_all(source: Vec<(String, Value)>, names: &Vec<String>, refs: &Vec<(String, String)>) -> (r: Vec<
    (String, Value),
>)
    ensures
        view_entries(r@) == compact_sources(
            view_entries(source@),
            names_view(names@),
            pairs_view(refs@),
            names@.len() as nat,
        ),
{
    let ghost sv = view_entries(source@);
    let ghost nv = names_view(names@);
    let ghost rv = pairs_view(refs@);
    let mut src = source;
    let mut k: usize = 0;
    while k < names.len()
        invariant
            k <= names@.len(),
            sv == view_entries(source@),
            nv == names_view(names@),
            rv == pairs_view(refs@),
            view_entries(src@) == compact_sources(sv, nv, rv, k as nat),
        decreases names@.len() - k,
    {
        let name = &names[k];
        assert(nv[k as int] == name@);
        match lookup(&src, name.as_str()) {
            None => {},
            Some(i) => {
                let icons = icons_used(refs, name);
                match compact(&src[i].1, &icons) {
                    Some(v) => {
                        match v {
                            Value::Null => {
                                proof {
                                    lemma_find_key(view_entries(src@), name@);
                                    lemma_view_entries_len(src@);
                                }
                                remove_key(&mut src, i);
                            },
                            other => {
                                object_insert(&mut src, name.clone(), other);
                            },
                        }
                    },
                    None => {},
                }
            },
        }
        k = k + 1;
    }
    src
}

/// Compacts the stock atlases of a title-select sheet, those numbered below
/// `first_new_texture`, as [`compacted`] says.
pub fn compact_stock_atlases(tree: &mut Value, first_new_texture: i64)
    ensures
        final(tree)@ == compacted(old(tree)@, first_new_texture),
{
    let mut t = Value::Null;
    std::mem::swap(&mut t, tree);
    *tree = compacted_tree(t, first_new_texture);
}

fn compacted_tree(t: Value, first_new: i64) -> (r: Value)
    ensures
        r@ == compacted(t@, first_new),
{
    match t {
        Value::Object(mut root) => {
            proof {
                lemma_view_entries_len(root@);
            }
            let refs = match root_references(&root) {
                Some(r) => r,
                None => return Value::Object(root),
            };
            let si = match lookup(&root, "source") {
                Some(i) => i,
                None => return Value::Object(root),
            };
            proof {
                lemma_find_key(view_entries(root@), "source"@);
                lemma_view_entries_len(root@);
            }
            let ghost before = root@;
            let (key, value) = root.remove(si);
            match value {
                Value::Object(src) => {
                    proof {
                        lemma_view_entries_len(src@);
                    }
                    let names = stock_atlas_names(&src, first_new);
                    let out = compact_all(src, &names, &refs);
                    root.insert(si, (key, Value::Object(out)));
                    proof {
                        lemma_view_entries_len(root@);
                        lemma_view_entries_len(before);
                        assert(view_entries(root@) =~= view_entries(before).update(
                            si as int,
                            ("source"@, view_entries(root@)[si as int].1),
                        ));
                    }
                    Value::Object(root)
                },
                other => {
                    root.insert(si, (key, other));
                    proof {
                        lemma_view_entries_len(root@);
                        lemma_view_entries_len(before);
                        assert(root@ =~= before);
                    }
                    Value::Object(root)
                },
            }
        },
        other => other,
    }
}

} // verus!
