//! Font pages: glyphs are laid out on padded shelves of 1024×1024 pages.
use vstd::prelude::*;

verus! {

/// Width and height of a font page.
pub const PAGE: u32 = 1024;

/// Where a glyph goes: its top-left corner and the page it is on.
#[derive(Debug, Clone, Copy, PartialEq, Eq, Structural)]
pub struct Placement {
    pub x: u32,
    pub y: u32,
    pub page: u64,
}

/// The packer's position: next free x, current shelf top, tallest glyph on
/// the shelf so far, and the page being filled.
pub struct Cursor {
    pub x: int,
    pub y: int,
    pub row: int,
    pub page: int,
}

pub open spec fn start() -> Cursor {
    Cursor { x: 1, y: 1, row: 0, page: 0 }
}

/// A glyph that cannot fit a page with its one-pixel border.
pub open spec fn too_big(g: (u32, u32)) -> bool {
    g.0 + 2 > PAGE || g.1 + 2 > PAGE
}

/// The cursor after the shelf and page breaks that glyph `g` needs.
pub open spec fn broken(c: Cursor, g: (u32, u32)) -> Cursor {
    let c1 = if c.x + g.0 + 1 > PAGE {
        Cursor { x: 1, y: c.y + c.row + 2, row: 0, page: c.page }
    } else {
        c
    };
    if c1.y + g.1 + 1 > PAGE {
        Cursor { x: 1, y: 1, row: 0, page: c1.page + 1 }
    } else {
        c1
    }
}

/// Whether placing `g` closes the page being filled.
pub open spec fn closes_page(c: Cursor, g: (u32, u32)) -> bool {
    broken(c, g).page != c.page
}

/// The height recorded for a page whose used rows end at `used`: rounded up
/// to a multiple of 4, at most a page.
pub open spec fn padded_height(used: int) -> int {
    let h = (used + 3) / 4 * 4;
    if h > PAGE {
        PAGE as int
    } else {
        h
    }
}

/// The height of the page being filled when it is closed.
pub open spec fn closing_height(c: Cursor, g: (u32, u32)) -> int {
    let c1 = if c.x + g.0 + 1 > PAGE {
        Cursor { x: 1, y: c.y + c.row + 2, row: 0, page: c.page }
    } else {
        c
    };
    padded_height(c1.y + c1.row + 1)
}

/// The cursor after placing `g`.
pub open spec fn advanced(c: Cursor, g: (u32, u32)) -> Cursor {
    let b = broken(c, g);
    Cursor { x: b.x + g.0 + 2, y: b.y, row: if b.row >= g.1 { b.row } else { g.1 as int }, page: b.page }
}

/// The packer after the first `n` glyphs: cursor, placements, and the
/// heights of the pages closed so far.
pub open spec fn packed(gs: Seq<(u32, u32)>, n: nat) -> (Cursor, Seq<Placement>, Seq<int>)
    decreases n,
{
    if n == 0 || n > gs.len() {
        (start(), Seq::empty(), Seq::empty())
    } else {
        let (c, ps, hs) = packed(gs, (n - 1) as nat);
        let g = gs[n - 1];
        let b = broken(c, g);
        let hs2 = if closes_page(c, g) {
            hs.push(closing_height(c, g))
        } else {
            hs
        };
        (advanced(c, g), ps.push(Placement { x: b.x as u32, y: b.y as u32, page: b.page as u64 }), hs2)
    }
}

/// Where every glyph goes, and the height of every page, the last included.
pub open spec fn layout_of(gs: Seq<(u32, u32)>) -> (Seq<Placement>, Seq<int>) {
    let (c, ps, hs) = packed(gs, gs.len());
    (ps, hs.push(padded_height(c.y + c.row + 1)))
}

pub open spec fn heights_view(hs: Seq<u32>) -> Seq<int> {
    hs.map_values(|h: u32| h as int)
}

/// The packer's position fits what it has placed so far.
pub open spec fn cursor_ok(c: Cursor, n: nat) -> bool {
    &&& 1 <= c.x <= PAGE + 1
    &&& 1 <= c.y
    &&& 0 <= c.row
    &&& c.y + c.row + 1 <= PAGE
    &&& 0 <= c.page <= n
}

fn padded(used: u32) -> (h: u32)
    requires
        used <= PAGE + 2,
    ensures
        h == padded_height(used as int),
{
    let h = (used + 3) / 4 * 4;
    if h > PAGE {
        PAGE
    } else {
        h
    }
}

proof fn lemma_padded_height(used: int)
    requires
        0 <= used,
    ensures
        padded_height(used) <= PAGE,
        padded_height(used) % 4 == 0,
{
    let q = (used + 3) / 4;
    assert((q * 4) % 4 == 0) by (nonlinear_arith);
}

proof fn lemma_padded_covers(used: int)
    requires
        0 <= used <= PAGE,
    ensures
        padded_height(used) >= used,
{
    let q = (used + 3) / 4;
    assert(q * 4 >= used) by (nonlinear_arith)
        requires
            q == (used + 3) / 4,
            used >= 0,
    ;
}

/// A glyph placed with its one-pixel border inside a page.
pub open spec fn fits_page(p: Placement, g: (u32, u32)) -> bool {
    1 <= p.x && p.x + g.0 + 1 <= PAGE && 1 <= p.y && p.y + g.1 + 1 <= PAGE
}

/// Two glyphs that do not touch: a free column or row lies between them.
pub open spec fn apart(p: Placement, g: (u32, u32), q: Placement, h: (u32, u32)) -> bool {
    p.x + g.0 + 1 <= q.x || q.x + h.0 + 1 <= p.x || p.y + g.1 + 1 <= q.y || q.y + h.1 + 1 <= p.y
}

/// What holds of the packer after `n` glyphs, with cursor `c`, placements
/// `ps` and the heights `hs` of the pages closed so far.
spec fn pack_inv(gs: Seq<(u32, u32)>, n: nat, c: Cursor, ps: Seq<Placement>, hs: Seq<int>) -> bool {
    &&& ps.len() == n
    &&& hs.len() == c.page
    &&& cursor_ok(c, n)
    &&& forall|k: int| 0 <= k < n ==> fits_page(#[trigger] ps[k], gs[k])
    &&& forall|k: int| 0 <= k < n ==> #[trigger] ps[k].page <= c.page
    &&& forall|k: int| 0 <= k < n && #[trigger] ps[k].page < c.page ==> ps[k].y + gs[k].1 <= hs[ps[k].page as int]
    &&& forall|k: int|
        0 <= k < n && #[trigger] ps[k].page == c.page ==> (ps[k].y + gs[k].1 + 2 <= c.y || (ps[k].y == c.y
            && ps[k].x + gs[k].0 + 2 <= c.x && gs[k].1 <= c.row))
    &&& forall|k: int, j: int|
        0 <= k < n && 0 <= j < n && k != j && #[trigger] ps[k].page == #[trigger] ps[j].page ==> apart(
            ps[k],
            gs[k],
            ps[j],
            gs[j],
        )
    &&& forall|p: int| 0 <= p < hs.len() ==> #[trigger] hs[p] <= PAGE && hs[p] % 4 == 0
    &&& n > 0 ==> c.x == ps[n - 1].x + gs[n - 1].0 + 2 && c.y == ps[n - 1].y && c.page == ps[n - 1].page && c.row
        >= gs[n - 1].1
}

proof fn lemma_pack_inv(gs: Seq<(u32, u32)>, n: nat)
    requires
        n <= gs.len(),
        gs.len() <= u64::MAX,
        forall|k: int| 0 <= k < gs.len() ==> !#[trigger] too_big(gs[k]),
    ensures
        pack_inv(gs, n, packed(gs, n).0, packed(gs, n).1, packed(gs, n).2),
    decreases n,
{
    if n > 0 {
        lemma_pack_inv(gs, (n - 1) as nat);
        let (c, ps, hs) = packed(gs, (n - 1) as nat);
        let g = gs[n - 1];
        assert(!too_big(g));
        let c1 = if c.x + g.0 + 1 > PAGE {
            Cursor { x: 1, y: c.y + c.row + 2, row: 0, page: c.page }
        } else {
            c
        };
        let b = broken(c, g);
        let np = Placement { x: b.x as u32, y: b.y as u32, page: b.page as u64 };
        let ps2 = ps.push(np);
        let closes = closes_page(c, g);
        let hs2 = if closes {
            hs.push(closing_height(c, g))
        } else {
            hs
        };
        let c2 = advanced(c, g);
        assert(packed(gs, n) == (c2, ps2, hs2));
        assert(np.x == b.x && np.y == b.y && np.page == b.page);
        // glyphs of the page being filled, seen from the cursor after a shelf break
        assert forall|k: int| 0 <= k < n - 1 && #[trigger] ps[k].page == c.page implies (ps[k].y + gs[k].1 + 2
            <= c1.y || (ps[k].y == c1.y && ps[k].x + gs[k].0 + 2 <= c1.x && gs[k].1 <= c1.row)) by {}
        if closes {
            let used = c1.y + c1.row + 1;
            lemma_padded_height(used);
            assert forall|k: int| 0 <= k < n - 1 && #[trigger] ps[k].page == c.page implies ps[k].y + gs[k].1
                <= closing_height(c, g) by {
                assert(fits_page(ps[k], gs[k]));
                if used <= PAGE {
                    lemma_padded_covers(used);
                }
            }
        }
        assert forall|k: int| 0 <= k < n implies fits_page(#[trigger] ps2[k], gs[k]) by {
            if k < n - 1 {
                assert(ps2[k] == ps[k]);
            }
        }
        assert forall|k: int| 0 <= k < n && #[trigger] ps2[k].page < c2.page implies ps2[k].y + gs[k].1
            <= hs2[ps2[k].page as int] by {
            if k < n - 1 {
                assert(ps2[k] == ps[k]);
            }
        }
        assert forall|k: int|
            0 <= k < n && #[trigger] ps2[k].page == c2.page implies (ps2[k].y + gs[k].1 + 2 <= c2.y || (ps2[k].y
                == c2.y && ps2[k].x + gs[k].0 + 2 <= c2.x && gs[k].1 <= c2.row)) by {
            if k < n - 1 {
                assert(ps2[k] == ps[k]);
            }
        }
        assert forall|k: int, j: int|
            0 <= k < n && 0 <= j < n && k != j && #[trigger] ps2[k].page == #[trigger] ps2[j].page implies apart(
                ps2[k],
                gs[k],
                ps2[j],
                gs[j],
            ) by {
            if k < n - 1 && j < n - 1 {
                assert(ps2[k] == ps[k] && ps2[j] == ps[j]);
            } else if k < n - 1 {
                assert(ps2[k] == ps[k]);
                assert(j == n - 1);
                assert(ps[k].page == c.page);
            } else {
                assert(ps2[j] == ps[j]);
                assert(k == n - 1);
                assert(ps[j].page == c.page);
            }
        }
        assert forall|p: int| 0 <= p < hs2.len() implies #[trigger] hs2[p] <= PAGE && hs2[p] % 4 == 0 by {
            if p < hs.len() {
                assert(hs2[p] == hs[p]);
            }
        }
    }
}

/// Glyph `g` placed at `q` right after glyph `f` placed at `p`, in shelf
/// order: right after it (two pixels on) when it fits there, else at the
/// start of a lower shelf of the same page, below `f`, or at the top left of
/// the next page.
pub open spec fn follows(p: Placement, f: (u32, u32), q: Placement, g: (u32, u32)) -> bool {
    &&& (p.x + f.0 + 2 + g.0 + 1 <= PAGE && p.y + g.1 + 1 <= PAGE) ==> (q.x == p.x + f.0 + 2 && q.y == p.y
        && q.page == p.page)
    &&& p.x + f.0 + 2 + g.0 + 1 > PAGE ==> q.x == 1 && ((q.page == p.page && q.y >= p.y + f.1 + 2) || (q.page
        == p.page + 1 && q.y == 1))
    &&& q.page == p.page || (q.page == p.page + 1 && q.x == 1 && q.y == 1)
}

/// The order of the layout: the first glyph goes to the top left of the
/// first page, and each next one follows the one before in shelf order.
pub proof fn lemma_glyph_order(gs: Seq<(u32, u32)>, k: int)
    requires
        gs.len() <= u64::MAX,
        forall|i: int| 0 <= i < gs.len() ==> !#[trigger] too_big(gs[i]),
        0 <= k < gs.len(),
    ensures
        k == 0 ==> layout_of(gs).0[0].x == 1 && layout_of(gs).0[0].y == 1 && layout_of(gs).0[0].page == 0,
        k > 0 ==> follows(layout_of(gs).0[k - 1], gs[k - 1], layout_of(gs).0[k], gs[k]),
{
    lemma_pack_inv(gs, k as nat);
    lemma_pack_inv(gs, (k + 1) as nat);
    lemma_pack_inv(gs, gs.len());
    lemma_layout_prefix(gs, (k + 1) as nat, gs.len());
    if k > 0 {
        lemma_layout_prefix(gs, k as nat, gs.len());
        lemma_layout_prefix(gs, k as nat, (k + 1) as nat);
    }
}

/// Placements once made stay.
proof fn lemma_layout_prefix(gs: Seq<(u32, u32)>, m: nat, n: nat)
    requires
        m <= n <= gs.len(),
    ensures
        packed(gs, n).1.len() == n,
        forall|i: int| 0 <= i < m ==> #[trigger] packed(gs, n).1[i] == packed(gs, m).1[i],
    decreases n,
{
    if n > m {
        lemma_layout_prefix(gs, m, (n - 1) as nat);
        let prev = packed(gs, (n - 1) as nat).1;
        assert(packed(gs, n).1 == prev.push(packed(gs, n).1[n - 1]));
        assert forall|i: int| 0 <= i < m implies #[trigger] packed(gs, n).1[i] == packed(gs, m).1[i] by {
            assert(packed(gs, n).1[i] == prev[i]);
        }
    } else if n > 0 {
        lemma_layout_prefix(gs, (n - 1) as nat, (n - 1) as nat);
    }
}

/// The glyph layout keeps every glyph inside its page with its border, keeps
/// glyphs on the same page from touching, and records for each page a height
/// that holds every glyph on it (at most a page, a multiple of 4).
pub proof fn lemma_glyph_layout(gs: Seq<(u32, u32)>)
    requires
        gs.len() <= u64::MAX,
        forall|k: int| 0 <= k < gs.len() ==> !#[trigger] too_big(gs[k]),
    ensures
        layout_of(gs).0.len() == gs.len(),
        forall|k: int| 0 <= k < gs.len() ==> fits_page(#[trigger] layout_of(gs).0[k], gs[k]),
        forall|k: int, j: int|
            0 <= k < gs.len() && 0 <= j < gs.len() && k != j && #[trigger] layout_of(gs).0[k].page
                == #[trigger] layout_of(gs).0[j].page ==> apart(layout_of(gs).0[k], gs[k], layout_of(gs).0[j], gs[j]),
        forall|k: int|
            0 <= k < gs.len() ==> #[trigger] layout_of(gs).0[k].page < layout_of(gs).1.len() && layout_of(gs).0[k].y
                + gs[k].1 <= layout_of(gs).1[layout_of(gs).0[k].page as int],
        forall|p: int| 0 <= p < layout_of(gs).1.len() ==> #[trigger] layout_of(gs).1[p] <= PAGE && layout_of(gs).1[p] % 4 == 0,
{
    lemma_pack_inv(gs, gs.len());
    let (c, ps, hs) = packed(gs, gs.len());
    let used = c.y + c.row + 1;
    lemma_padded_height(used);
    lemma_padded_covers(used);
    let hs2 = hs.push(padded_height(used));
    assert(layout_of(gs) == (ps, hs2));
    assert forall|k: int| 0 <= k < gs.len() implies #[trigger] ps[k].page < hs2.len() && ps[k].y + gs[k].1
        <= hs2[ps[k].page as int] by {
        if ps[k].page < c.page {
            assert(hs2[ps[k].page as int] == hs[ps[k].page as int]);
        }
    }
    assert forall|p: int| 0 <= p < hs2.len() implies #[trigger] hs2[p] <= PAGE && hs2[p] % 4 == 0 by {
        if p < hs.len() {
            assert(hs2[p] == hs[p]);
        }
    }
}

/// Lays glyphs of the given sizes (width, height) out on 1024×1024 pages:
/// left to right on shelves, a one-pixel border kept around each, a new shelf
/// when a glyph would cross the right edge and a new page when it would cross
/// the bottom. Each page's height is the used height rounded up to a multiple
/// of 4. Refused when a glyph with its border is larger than a page.
pub fn pack_glyphs(sizes: &Vec<(u32, u32)>) -> (r: Result<(Vec<Placement>, Vec<u64>), String>)
    ensures
        r is Err <==> exists|k: int| 0 <= k < sizes@.len() && #[trigger] too_big(sizes@[k]),
        r matches Err(m) ==> m@ == "Font glyph exceeds texture limit"@,
        r matches Ok(out) ==> out.0@ == layout_of(sizes@).0 && out.1@.map_values(|h: u64| h as int)
            == layout_of(sizes@).1,
        r matches Ok(out) ==> forall|k: int|
            0 <= k < sizes@.len() ==> 1 <= #[trigger] out.0@[k].x && out.0@[k].x + sizes@[k].0 + 1 <= PAGE && 1
                <= out.0@[k].y && out.0@[k].y + sizes@[k].1 + 1 <= PAGE,
        r matches Ok(out) ==> forall|j: int|
            0 <= j < out.1@.len() ==> #[trigger] out.1@[j] <= PAGE && out.1@[j] % 4 == 0,
        r matches Ok(out) ==> forall|k: int, j: int|
            0 <= k < sizes@.len() && 0 <= j < sizes@.len() && k != j && #[trigger] out.0@[k].page
                == #[trigger] out.0@[j].page ==> apart(out.0@[k], sizes@[k], out.0@[j], sizes@[j]),
        r matches Ok(out) ==> forall|k: int|
            0 <= k < sizes@.len() ==> #[trigger] out.0@[k].page < out.1@.len() && out.0@[k].y + sizes@[k].1
                <= out.1@[out.0@[k].page as int],
{
    let mut placements: Vec<Placement> = Vec::new();
    let mut heights: Vec<u64> = Vec::new();
    let mut x: u32 = 1;
    let mut y: u32 = 1;
    let mut row: u32 = 0;
    let mut page: u64 = 0;
    let mut i: usize = 0;
    while i < sizes.len()
        invariant
            i <= sizes@.len(),
            cursor_ok(Cursor { x: x as int, y: y as int, row: row as int, page: page as int }, i as nat),
            packed(sizes@, i as nat) == (
                Cursor { x: x as int, y: y as int, row: row as int, page: page as int },
                placements@,
                heights@.map_values(|h: u64| h as int),
            ),
            placements@.len() == i,
            forall|k: int| 0 <= k < i ==> !#[trigger] too_big(sizes@[k]),
            forall|k: int|
                0 <= k < i ==> 1 <= #[trigger] placements@[k].x && placements@[k].x + sizes@[k].0 + 1 <= PAGE && 1
                    <= placements@[k].y && placements@[k].y + sizes@[k].1 + 1 <= PAGE,
            forall|j: int| 0 <= j < heights@.len() ==> #[trigger] heights@[j] <= PAGE && heights@[j] % 4 == 0,
        decreases sizes@.len() - i,
    {
        let (w, h) = sizes[i];
        if w > PAGE - 2 || h > PAGE - 2 {
            assert(too_big(sizes@[i as int]));
            return Err(String::from_str("Font glyph exceeds texture limit"));
        }
        let ghost c = Cursor { x: x as int, y: y as int, row: row as int, page: page as int };
        let ghost before = heights@;
        if x + w + 1 > PAGE {
            x = 1;
            y = y + row + 2;
            row = 0;
        }
        if y + h + 1 > PAGE {
            let used = y + row + 1;
            let ph = padded(used);
            proof {
                lemma_padded_height(used as int);
            }
            heights.push(ph as u64);
            page = page + 1;
            x = 1;
            y = 1;
            row = 0;
        }
        assert(x + w + 1 <= PAGE && y + h + 1 <= PAGE);
        let ghost old_pl = placements@;
        placements.push(Placement { x, y, page });
        assert forall|k: int| 0 <= k < i + 1 implies 1 <= #[trigger] placements@[k].x && placements@[k].x
            + sizes@[k].0 + 1 <= PAGE && 1 <= placements@[k].y && placements@[k].y + sizes@[k].1 + 1 <= PAGE by {
            if k < i {
                assert(placements@[k] == old_pl[k]);
            }
        }
        x = x + w + 2;
        if h > row {
            row = h;
        }
        proof {
            assert(heights@.map_values(|v: u64| v as int) =~= if closes_page(c, sizes@[i as int]) {
                before.map_values(|v: u64| v as int).push(closing_height(c, sizes@[i as int]))
            } else {
                before.map_values(|v: u64| v as int)
            });
        }
        i = i + 1;
    }
    let used = y + row + 1;
    let last = padded(used);
    proof {
        lemma_padded_height(used as int);
    }
    let ghost before = heights@;
    heights.push(last as u64);
    assert(heights@.map_values(|v: u64| v as int) =~= before.map_values(|v: u64| v as int).push(
        padded_height(used as int),
    ));
    proof {
        lemma_glyph_layout(sizes@);
        let hv = heights@.map_values(|v: u64| v as int);
        assert(hv == layout_of(sizes@).1);
        assert forall|k: int| 0 <= k < sizes@.len() implies #[trigger] placements@[k].page < heights@.len()
            && placements@[k].y + sizes@[k].1 <= heights@[placements@[k].page as int] by {
            assert(layout_of(sizes@).0[k] == placements@[k]);
            assert(hv[placements@[k].page as int] == heights@[placements@[k].page as int] as int);
        }
    }
    Ok((placements, heights))
}

}
