//! Properties that hold of every dicing operation, stated over the contracts of the stages.
use crate::builder::{
    corners, emitted, emitted_in, mesh_indices, mesh_uvs, mesh_vertices, quad_indices, slot_index,
};
use crate::dicer::{
    all_clear, cell_count, cell_rect, core_pixels, diced_from, diced_units, dice_ok, kept,
    lemma_unit_count_bound, lemma_units_shape, unit_count, unit_hash, units_of,
};
use crate::models::{DicedTexture, DicedUnit, Pixel, Prefs, SourceSprite, Texture, URect};
use crate::packer::{
    add_hashes, atlas_size, baked, best_cols, capacity, covers, first_min, grow, is_pow2, new_count,
    pack_groups, pack_ok, pow2_up, rows_for, slot_filled, slot_holds, sqrt_up, units_per_side,
    Atlas,
};
use crate::{pipeline, Artifacts};
use vstd::arithmetic::div_mod::{
    lemma_fundamental_div_mod, lemma_fundamental_div_mod_converse, lemma_mod_pos_bound,
};
use vstd::prelude::*;

verus! {

/// Units whose unpadded blocks have the same size and the same pixels have the same hash,
/// whichever sprites they were diced from.
pub proof fn law_equal_blocks_equal_hashes(
    d1: DicedTexture,
    s1: SourceSprite,
    i1: int,
    a: int,
    d2: DicedTexture,
    s2: SourceSprite,
    i2: int,
    b: int,
    prefs: &Prefs,
)
    requires
        dice_ok(prefs),
        diced_from(d1, s1, i1, prefs),
        diced_from(d2, s2, i2, prefs),
        0 <= a < d1.units@.len(),
        0 <= b < d2.units@.len(),
        d1.units@[a].rect.width == d2.units@[b].rect.width,
        d1.units@[a].rect.height == d2.units@[b].rect.height,
        core_pixels(&s1.texture, d1.units@[a].rect) == core_pixels(&s2.texture, d2.units@[b].rect),
    ensures
        d1.units@[a].hash == d2.units@[b].hash,
{
    lemma_unit_hash(d1, s1, i1, a, prefs);
    lemma_unit_hash(d2, s2, i2, b, prefs);
}

/// The hash of a diced unit is the hash of its unpadded block.
proof fn lemma_unit_hash(d: DicedTexture, src: SourceSprite, i: int, a: int, prefs: &Prefs)
    requires
        dice_ok(prefs),
        diced_from(d, src, i, prefs),
        0 <= a < d.units@.len(),
    ensures
        d.units@[a].hash == unit_hash(&src.texture, d.units@[a].rect),
{
    let s = prefs.unit_size as int;
    lemma_units_shape(&src.texture, s, prefs.padding as int, prefs.trim_transparent, cell_count(&src.texture, s));
    assert(d.units_view()[a] == units_of(&src.texture, prefs)[a]);
}

/// Dicing one sprite with two paddings gives the same unit rects and hashes: padding is
/// never hashed.
pub proof fn law_hash_ignores_padding(
    d1: DicedTexture,
    d2: DicedTexture,
    src: SourceSprite,
    i: int,
    prefs_a: &Prefs,
    prefs_b: &Prefs,
)
    requires
        dice_ok(prefs_a),
        dice_ok(prefs_b),
        prefs_a.unit_size == prefs_b.unit_size,
        prefs_a.trim_transparent == prefs_b.trim_transparent,
        diced_from(d1, src, i, prefs_a),
        diced_from(d2, src, i, prefs_b),
    ensures
        d1.units@.len() == d2.units@.len(),
        forall|k: int|
            0 <= k < d1.units@.len() ==> (#[trigger] d1.units@[k]).rect == d2.units@[k].rect
                && d1.units@[k].hash == d2.units@[k].hash,
{
    let s = prefs_a.unit_size as int;
    let tex = &src.texture;
    let n = cell_count(tex, s);
    lemma_pads_agree(tex, s, prefs_a.padding as int, prefs_b.padding as int, prefs_a.trim_transparent, n);
    assert forall|k: int| 0 <= k < d1.units@.len() implies (#[trigger] d1.units@[k]).rect
        == d2.units@[k].rect && d1.units@[k].hash == d2.units@[k].hash by {
        assert(d1.units_view()[k] == units_of(tex, prefs_a)[k]);
        assert(d2.units_view()[k] == units_of(tex, prefs_b)[k]);
    }
}

/// Two paddings give units with the same rects and hashes, cell for cell.
proof fn lemma_pads_agree(tex: &Texture, s: int, pad1: int, pad2: int, trim: bool, n: nat)
    ensures
        diced_units(tex, s, pad1, trim, n).len() == diced_units(tex, s, pad2, trim, n).len(),
        forall|k: int|
            0 <= k < diced_units(tex, s, pad1, trim, n).len() ==> {
                let u = #[trigger] diced_units(tex, s, pad1, trim, n)[k];
                let v = diced_units(tex, s, pad2, trim, n)[k];
                u.0 == v.0 && u.2 == v.2
            },
    decreases n,
{
    if n > 0 {
        lemma_pads_agree(tex, s, pad1, pad2, trim, (n - 1) as nat);
        let a = diced_units(tex, s, pad1, trim, n);
        let b = diced_units(tex, s, pad2, trim, n);
        let pa = diced_units(tex, s, pad1, trim, (n - 1) as nat);
        let pb = diced_units(tex, s, pad2, trim, (n - 1) as nat);
        assert forall|k: int| 0 <= k < a.len() implies {
            let u = #[trigger] a[k];
            let v = b[k];
            u.0 == v.0 && u.2 == v.2
        } by {
            if k < pa.len() {
                assert(a[k] == pa[k]);
                assert(b[k] == pb[k]);
            }
        }
    }
}

/// Number of grid cells, among the first `n`, whose unit is clear.
pub open spec fn clear_cells(tex: &Texture, s: int, n: nat) -> nat
    decreases n,
{
    if n == 0 {
        0
    } else {
        let k = n - 1;
        let rows = unit_count(tex.height as int, s);
        clear_cells(tex, s, (n - 1) as nat) + if kept(tex, s, true, k / rows, k % rows) {
            0nat
        } else {
            1nat
        }
    }
}

/// A sprite `W`×`H` diced with unit size `S` has `⌈W/S⌉·⌈H/S⌉` units, less the clear ones
/// when trimming.
pub proof fn law_unit_count(d: DicedTexture, src: SourceSprite, i: int, prefs: &Prefs)
    requires
        dice_ok(prefs),
        diced_from(d, src, i, prefs),
    ensures
        ({
            let s = prefs.unit_size as int;
            let cells = unit_count(src.texture.width as int, s) * unit_count(src.texture.height as int, s);
            let clear = if prefs.trim_transparent {
                clear_cells(&src.texture, s, cell_count(&src.texture, s)) as int
            } else {
                0
            };
            d.units@.len() == cells - clear
        }),
{
    let s = prefs.unit_size as int;
    let tex = &src.texture;
    lemma_count(tex, s, prefs.padding as int, prefs.trim_transparent, cell_count(tex, s));
    assert(d.units_view().len() == d.units@.len());
    lemma_cells_nonneg(tex, s);
}

/// The cell count is the product of the column and row counts.
proof fn lemma_cells_nonneg(tex: &Texture, s: int)
    requires
        s >= 1,
    ensures
        cell_count(tex, s) == unit_count(tex.width as int, s) * unit_count(tex.height as int, s),
{
    let c = unit_count(tex.width as int, s);
    let r = unit_count(tex.height as int, s);
    assert(c >= 0 && r >= 0) by (nonlinear_arith)
        requires
            c == (tex.width + s - 1) / s,
            r == (tex.height + s - 1) / s,
            s >= 1,
    ;
    assert(c * r >= 0) by (nonlinear_arith)
        requires
            c >= 0,
            r >= 0,
    ;
}

/// The first `n` cells give `n` units, less the clear ones when trimming.
proof fn lemma_count(tex: &Texture, s: int, pad: int, trim: bool, n: nat)
    ensures
        diced_units(tex, s, pad, trim, n).len() == n - if trim {
            clear_cells(tex, s, n) as int
        } else {
            0
        },
        clear_cells(tex, s, n) <= n,
    decreases n,
{
    if n > 0 {
        lemma_count(tex, s, pad, trim, (n - 1) as nat);
    }
}

/// A sprite whose pixels are all clear yields no unit when trimming.
pub proof fn law_clear_sprite_has_no_units(d: DicedTexture, src: SourceSprite, i: int, prefs: &Prefs)
    requires
        dice_ok(prefs),
        diced_from(d, src, i, prefs),
        src.texture.wf(),
        prefs.trim_transparent,
        all_clear(src.texture.pixels@),
    ensures
        d.units@.len() == 0,
{
    let s = prefs.unit_size as int;
    let tex = &src.texture;
    lemma_clear_units(tex, s, prefs.padding as int, cell_count(tex, s));
    assert(d.units_view().len() == d.units@.len());
}

/// With every pixel clear, trimming keeps no unit of the first `n` cells.
proof fn lemma_clear_units(tex: &Texture, s: int, pad: int, n: nat)
    requires
        tex.wf(),
        s >= 1,
        all_clear(tex.pixels@),
        n <= cell_count(tex, s),
    ensures
        diced_units(tex, s, pad, true, n).len() == 0,
    decreases n,
{
    if n > 0 {
        lemma_clear_units(tex, s, pad, (n - 1) as nat);
        let k = n - 1;
        let rows = unit_count(tex.height as int, s);
        let core = core_pixels(tex, cell_rect(tex, s, k / rows, k % rows));
        assert forall|j: int| 0 <= j < core.len() implies (#[trigger] core[j]).is_clear() by {
            let w = cell_rect(tex, s, k / rows, k % rows).width as int;
            let cx = crate::models::clamp(cell_rect(tex, s, k / rows, k % rows).x + j % w, tex.width - 1);
            let cy = crate::models::clamp(cell_rect(tex, s, k / rows, k % rows).y + j / w, tex.height - 1);
            let cols = unit_count(tex.width as int, s);
            lemma_unit_count_bound(tex.width as int, s);
            lemma_unit_count_bound(tex.height as int, s);
            assert(cols >= 1 && rows >= 1) by (nonlinear_arith)
                requires
                    0 <= k < cols * rows,
                    cols >= 0,
                    rows >= 0,
            ;
            assert(0 <= cx + cy * tex.width < tex.pixels@.len()) by (nonlinear_arith)
                requires
                    0 <= cx < tex.width,
                    0 <= cy < tex.height,
                    tex.pixels@.len() == tex.width * tex.height,
            ;
            assert(tex.pixels@[cx + cy * tex.width].is_clear());
        }
    }
}

/// A sprite that fits within one unit, and is kept, yields exactly one unit covering it.
pub proof fn law_small_sprite_single_unit(d: DicedTexture, src: SourceSprite, i: int, prefs: &Prefs)
    requires
        dice_ok(prefs),
        diced_from(d, src, i, prefs),
        src.texture.wf(),
        1 <= src.texture.width <= prefs.unit_size,
        1 <= src.texture.height <= prefs.unit_size,
        !prefs.trim_transparent || !all_clear(src.texture.pixels@),
    ensures
        d.units@.len() == 1,
        d.units@[0].rect == (URect { x: 0, y: 0, width: src.texture.width, height: src.texture.height }),
{
    let tex = &src.texture;
    let s = prefs.unit_size as int;
    let w = tex.width as int;
    let h = tex.height as int;
    lemma_fundamental_div_mod_converse(w + s - 1, s, 1, w - 1);
    lemma_fundamental_div_mod_converse(h + s - 1, s, 1, h - 1);
    assert(unit_count(w, s) == 1);
    assert(unit_count(h, s) == 1);
    assert(unit_count(w, s) * unit_count(h, s) == 1) by (nonlinear_arith)
        requires
            unit_count(w, s) == 1,
            unit_count(h, s) == 1,
    ;
    assert(cell_count(tex, s) == 1);
    lemma_fundamental_div_mod_converse(0, 1, 0, 0);
    let r = cell_rect(tex, s, 0, 0);
    assert(r == URect { x: 0, y: 0, width: tex.width, height: tex.height });
    let core = core_pixels(tex, r);
    if prefs.trim_transparent {
        assert(!all_clear(core)) by {
            let j = choose|j: int| 0 <= j < tex.pixels@.len() && !(#[trigger] tex.pixels@[j]).is_clear();
            lemma_fundamental_div_mod(j, w);
            lemma_mod_pos_bound(j, w);
            assert(0 <= j / w < h) by (nonlinear_arith)
                requires
                    j == w * (j / w) + j % w,
                    0 <= j % w < w,
                    0 <= j < w * h,
            ;
            assert(core[j] == tex.pixels@[j % w + (j / w) * w]);
            assert(j % w + (j / w) * w == j) by (nonlinear_arith)
                requires
                    j == w * (j / w) + j % w,
            ;
        }
    }
    let pad = prefs.padding as int;
    let trim = prefs.trim_transparent;
    assert(diced_units(tex, s, pad, trim, 0).len() == 0);
    assert(kept(tex, s, trim, 0, 0));
    assert(units_of(tex, prefs) == diced_units(tex, s, pad, trim, 1));
    assert(diced_units(tex, s, pad, trim, 1) == diced_units(tex, s, pad, trim, 0).push(
        crate::dicer::candidate(tex, s, pad, 0, 0),
    ));
    assert(d.units_view().len() == 1);
    assert(d.units_view()[0] == units_of(tex, prefs)[0]);
}

/// Every atlas fits the size limit, unless rounded up to a power of two; a square atlas has
/// equal sides, and a power-of-two atlas equal sides that are a power of two.
pub proof fn law_atlas_bounds(n: int, prefs: &Prefs)
    requires
        pack_ok(prefs),
        1 <= prefs.unit_size <= prefs.atlas_size_limit,
        0 <= n <= capacity(prefs),
    ensures
        ({
            let (w, h) = atlas_size(n, prefs);
            &&& 1 <= w && 1 <= h
            &&& !prefs.atlas_pot ==> w <= prefs.atlas_size_limit && h <= prefs.atlas_size_limit
            &&& prefs.atlas_square ==> w == h
            &&& prefs.atlas_pot ==> w == h && is_pow2(w)
        }),
{
    let pp = prefs.padded_unit();
    let m = units_per_side(prefs);
    let limit = prefs.atlas_size_limit as int;
    lemma_fundamental_div_mod(limit, pp);
    lemma_mod_pos_bound(limit, pp);
    assert(m * pp <= limit) by (nonlinear_arith)
        requires
            limit == pp * m + limit % pp,
            limit % pp >= 0,
    ;
    if n > 0 {
        assert(m >= 1) by (nonlinear_arith)
            requires
                n <= m * m,
                n >= 1,
                m >= 0,
        ;
        lemma_sqrt_up(n, 0, m);
        let k = sqrt_up(n, 0);
        assert(k * pp <= m * pp && k * pp >= 1) by (nonlinear_arith)
            requires
                1 <= k <= m,
                pp >= 1,
        ;
        if prefs.atlas_pot {
            lemma_pow2_up(k * pp, 1);
        } else if !prefs.atlas_square {
            let top = if m < n { m } else { n };
            if m < n {
                lemma_rows_within(n, m);
            } else {
                lemma_fundamental_div_mod_converse(2 * n - 1, n, 1, n - 1);
            }
            lemma_best_cols(n, m, top);
            let c = best_cols(n, m, top);
            assert(c * pp <= m * pp && rows_for(n, c) * pp <= m * pp && c * pp >= 1 && rows_for(n, c)
                * pp >= 1) by (nonlinear_arith)
                requires
                    1 <= c <= m,
                    1 <= rows_for(n, c) <= m,
                    pp >= 1,
            ;
        }
    } else {
        assert(is_pow2(1));
    }
}

/// `sqrt_up(n, from)` is at least 1 for `n >= 1`, stays within `m` when `m * m >= n`, and its
/// square reaches `n`.
proof fn lemma_sqrt_up(n: int, from: int, m: int)
    requires
        1 <= n <= m * m,
        0 <= from <= m,
    ensures
        1 <= sqrt_up(n, from) <= m,
    decreases n - from,
{
    if !(from >= n || from * from >= n) {
        assert(from + 1 <= m) by (nonlinear_arith)
            requires
                from * from < n,
                n <= m * m,
                0 <= from <= m,
        ;
        lemma_sqrt_up(n, from + 1, m);
    } else {
        assert(from >= 1) by (nonlinear_arith)
            requires
                from >= n || from * from >= n,
                n >= 1,
                from >= 0,
        ;
    }
}

/// Doubling from a power of two gives a power of two.
proof fn lemma_pow2_up(v: int, p: int)
    requires
        p >= 1,
        is_pow2(p),
    ensures
        is_pow2(pow2_up(v, p)),
    decreases (if p < v { v - p } else { 0 }),
{
    if p < v {
        assert((p * 2) % 2 == 0 && (p * 2) / 2 == p) by (nonlinear_arith);
        assert(is_pow2(p * 2));
        lemma_pow2_up(v, p * 2);
    }
}

/// With `m * m >= n`, `m` columns leave at most `m` rows, and at least one.
proof fn lemma_rows_within(n: int, m: int)
    requires
        1 <= m,
        1 <= n <= m * m,
    ensures
        1 <= rows_for(n, m) <= m,
{
    lemma_fundamental_div_mod(n + m - 1, m);
    lemma_mod_pos_bound(n + m - 1, m);
    let q = rows_for(n, m);
    assert(1 <= q <= m) by (nonlinear_arith)
        requires
            m * q + (n + m - 1) % m == n + m - 1,
            0 <= (n + m - 1) % m < m,
            n <= m * m,
            n >= 1,
            m >= 1,
    ;
}

/// When `c` columns fit, `best_cols` finds a count within `1..=c` whose rows fit.
proof fn lemma_best_cols(n: int, m: int, c: int)
    requires
        n >= 1,
        c >= 1,
        rows_for(n, c) <= m,
    ensures
        1 <= best_cols(n, m, c) <= c,
        1 <= rows_for(n, best_cols(n, m, c)) <= m,
    decreases c,
{
    let b = best_cols(n, m, c - 1);
    lemma_best_cols_any(n, m, c - 1);
    lemma_rows_pos(n, c);
    if b != 0 {
        lemma_rows_pos(n, b);
    }
}

/// `best_cols` gives 0 or a count within `1..=c` whose rows fit.
proof fn lemma_best_cols_any(n: int, m: int, c: int)
    requires
        n >= 1,
    ensures
        best_cols(n, m, c) == 0 || (1 <= best_cols(n, m, c) <= c && rows_for(n, best_cols(n, m, c))
            <= m),
    decreases c,
{
    if c > 0 {
        lemma_best_cols_any(n, m, c - 1);
    }
}

/// At least one row holds `n >= 1` units.
proof fn lemma_rows_pos(n: int, c: int)
    requires
        n >= 1,
        c >= 1,
    ensures
        rows_for(n, c) >= 1,
{
    lemma_fundamental_div_mod(n + c - 1, c);
    lemma_mod_pos_bound(n + c - 1, c);
    let q = rows_for(n, c);
    assert(q >= 1) by (nonlinear_arith)
        requires
            c * q + (n + c - 1) % c == n + c - 1,
            (n + c - 1) % c < c,
            n >= 1,
            c >= 1,
    ;
}

/// A mesh of `n` units has `4n` vertices, four per unit in the order top-left, bottom-left,
/// bottom-right, top-right, and `6n` indices, the two triangles of each quad: one and a half
/// index per vertex.
pub proof fn law_quad_geometry(units: Seq<DicedUnit>, n: nat)
    requires
        n <= units.len(),
    ensures
        mesh_vertices(units, n).len() == 4 * n,
        mesh_indices(n).len() == 6 * n,
        2 * mesh_indices(n).len() == 3 * mesh_vertices(units, n).len(),
        forall|q: int|
            0 <= q < n ==> #[trigger] mesh_vertices(units, n).subrange(4 * q, 4 * q + 4) == corners(
                units[q].rect,
            ),
        forall|q: int|
            0 <= q < n ==> #[trigger] mesh_indices(n).subrange(6 * q, 6 * q + 6) == quad_indices(
                4 * q,
            ),
    decreases n,
{
    if n > 0 {
        law_quad_geometry(units, (n - 1) as nat);
        let pv = mesh_vertices(units, (n - 1) as nat);
        let pi = mesh_indices((n - 1) as nat);
        let v = mesh_vertices(units, n);
        let ix = mesh_indices(n);
        assert forall|q: int| 0 <= q < n implies #[trigger] v.subrange(4 * q, 4 * q + 4) == corners(
            units[q].rect,
        ) by {
            if q < n - 1 {
                assert(v.subrange(4 * q, 4 * q + 4) =~= pv.subrange(4 * q, 4 * q + 4));
            } else {
                assert(v.subrange(4 * q, 4 * q + 4) =~= corners(units[q].rect));
            }
        }
        assert forall|q: int| 0 <= q < n implies #[trigger] ix.subrange(6 * q, 6 * q + 6) == quad_indices(
            4 * q,
        ) by {
            if q < n - 1 {
                assert(ix.subrange(6 * q, 6 * q + 6) =~= pi.subrange(6 * q, 6 * q + 6));
            } else {
                assert(ix.subrange(6 * q, 6 * q + 6) =~= quad_indices(4 * q));
            }
        }
    }
}

/// Only packed textures that kept a unit are built into sprites.
pub proof fn law_built_sprites_have_units(atlases: Seq<Atlas>, n: nat)
    requires
        n <= atlases.len(),
    ensures
        forall|k: int|
            0 <= k < emitted(atlases, n).len() ==> {
                let (i, p) = #[trigger] emitted(atlases, n)[k];
                &&& 0 <= i < n
                &&& 0 <= p < atlases[i].packed@.len()
                &&& atlases[i].packed@[p].units@.len() > 0
            },
    decreases n,
{
    if n > 0 {
        law_built_sprites_have_units(atlases, (n - 1) as nat);
        let i = n - 1;
        let packed = atlases[i].packed@;
        lemma_emitted_in(packed, i, packed.len());
        let prev = emitted(atlases, (n - 1) as nat);
        let now = emitted(atlases, n);
        assert forall|k: int| 0 <= k < now.len() implies {
            let (at, p) = #[trigger] now[k];
            &&& 0 <= at < n
            &&& 0 <= p < atlases[at].packed@.len()
            &&& atlases[at].packed@[p].units@.len() > 0
        } by {
            if k < prev.len() {
                assert(now[k] == prev[k]);
            } else {
                assert(now[k] == emitted_in(packed, i, packed.len())[k - prev.len()]);
            }
        }
    }
}

/// The positions `emitted_in` gives lie in atlas `i` and name textures with units.
proof fn lemma_emitted_in(packed: Seq<DicedTexture>, i: int, m: nat)
    requires
        m <= packed.len(),
    ensures
        forall|k: int|
            0 <= k < emitted_in(packed, i, m).len() ==> {
                let (at, p) = #[trigger] emitted_in(packed, i, m)[k];
                &&& at == i
                &&& 0 <= p < m
                &&& packed[p].units@.len() > 0
            },
    decreases m,
{
    if m > 0 {
        lemma_emitted_in(packed, i, (m - 1) as nat);
        let prev = emitted_in(packed, i, (m - 1) as nat);
        let now = emitted_in(packed, i, m);
        assert forall|k: int| 0 <= k < now.len() implies {
            let (at, p) = #[trigger] now[k];
            &&& at == i
            &&& 0 <= p < m
            &&& packed[p].units@.len() > 0
        } by {
            if k < prev.len() {
                assert(now[k] == prev[k]);
            }
        }
    }
}

/// Every texture that `grow` leaves or packs was in `rest`, or already packed.
proof fn lemma_grow_from(rest: Seq<DicedTexture>, group: Seq<u64>, packed: Seq<DicedTexture>, cap: int)
    ensures
        ({
            let (left, g, p) = grow(rest, group, packed, cap);
            &&& forall|x: DicedTexture| left.contains(x) ==> rest.contains(x)
            &&& forall|x: DicedTexture| p.contains(x) ==> rest.contains(x) || packed.contains(x)
        }),
    decreases rest.len(),
{
    let i = first_min(rest, group);
    if 0 <= i < rest.len() && group.len() + new_count(rest[i], group) <= cap {
        let r2 = rest.remove(i);
        let prefs_b = packed.push(rest[i]);
        lemma_grow_from(r2, add_hashes(group, rest[i]), prefs_b, cap);
        assert forall|x: DicedTexture| r2.contains(x) implies rest.contains(x) by {
            let j = choose|j: int| 0 <= j < r2.len() && r2[j] == x;
            if j < i {
                assert(rest[j] == x);
            } else {
                assert(rest[j + 1] == x);
            }
        }
        assert forall|x: DicedTexture| prefs_b.contains(x) implies rest.contains(x) || packed.contains(x) by {
            let j = choose|j: int| 0 <= j < prefs_b.len() && prefs_b[j] == x;
            if j < packed.len() {
                assert(packed[j] == x);
            } else {
                assert(rest[i] == x);
            }
        }
    }
}

/// Every texture packed into a group was among the textures packed.
proof fn lemma_groups_from(rest: Seq<DicedTexture>, cap: int)
    ensures
        pack_groups(rest, cap) matches Some(gs) ==> forall|j: int, x: DicedTexture|
            0 <= j < gs.len() && #[trigger] gs[j].1.contains(x) ==> rest.contains(x),
    decreases rest.len(),
{
    if rest.len() > 0 {
        let (left, group, packed) = grow(rest, seq![], seq![], cap);
        lemma_grow_from(rest, seq![], seq![], cap);
        if !(packed.len() == 0 || left.len() >= rest.len()) {
            lemma_groups_from(left, cap);
            if let Some(gs) = pack_groups(rest, cap) {
                let tail = pack_groups(left, cap)->Some_0;
                assert(gs == seq![(group, packed)] + tail);
                assert forall|j: int, x: DicedTexture|
                    0 <= j < gs.len() && #[trigger] gs[j].1.contains(x) implies rest.contains(x) by {
                    if j > 0 {
                        assert(gs[j] == tail[j - 1]);
                        assert(left.contains(x));
                    }
                }
            }
        }
    }
}

/// Every sprite that dicing emits carries the ID of the source it names.
pub proof fn law_sprite_ids(
    src: Seq<SourceSprite>,
    prefs: &Prefs,
    d: Seq<DicedTexture>,
    a: Seq<Atlas>,
    arts: Artifacts,
)
    requires
        pipeline(src, prefs, d, a, arts),
    ensures
        forall|k: int|
            0 <= k < arts.sprites@.len() ==> {
                let s = #[trigger] arts.sprites@[k];
                &&& 0 <= s.source < src.len()
                &&& s.id@ == src[s.source as int].id@
            },
{
    let gs = pack_groups(d, capacity(prefs))->Some_0;
    lemma_groups_from(d, capacity(prefs));
    law_built_sprites_have_units(a, a.len());
    assert forall|k: int| 0 <= k < arts.sprites@.len() implies {
        let s = #[trigger] arts.sprites@[k];
        &&& 0 <= s.source < src.len()
        &&& s.id@ == src[s.source as int].id@
    } by {
        let (i, p) = emitted(a, a.len())[k];
        let t = a[i].packed@[p];
        assert(gs[i].1 == a[i].packed@);
        assert(gs[i].1.contains(t));
        assert(d.contains(t));
        let j = choose|j: int| 0 <= j < d.len() && d[j] == t;
        assert(diced_from(d[j], src[j], j, prefs));
    }
}

/// `grow` moves textures from `rest` to `packed` without duplicating or losing any.
proof fn lemma_grow_partition(
    rest: Seq<DicedTexture>,
    group: Seq<u64>,
    packed: Seq<DicedTexture>,
    cap: int,
)
    requires
        rest.no_duplicates(),
        packed.no_duplicates(),
        forall|x: DicedTexture| !(rest.contains(x) && packed.contains(x)),
    ensures
        ({
            let (left, g, p) = grow(rest, group, packed, cap);
            &&& left.no_duplicates()
            &&& p.no_duplicates()
            &&& forall|x: DicedTexture| !(left.contains(x) && p.contains(x))
            &&& forall|x: DicedTexture|
                (left.contains(x) || p.contains(x)) <==> (rest.contains(x) || packed.contains(x))
        }),
    decreases rest.len(),
{
    let i = first_min(rest, group);
    if 0 <= i < rest.len() && group.len() + new_count(rest[i], group) <= cap {
        let t = rest[i];
        let r2 = rest.remove(i);
        let prefs_b = packed.push(t);
        assert forall|j: int| 0 <= j < r2.len() implies #[trigger] r2[j] == rest[if j < i {
            j
        } else {
            j + 1
        }] by {}
        assert(r2.no_duplicates()) by {
            assert forall|a: int, b: int| 0 <= a < r2.len() && 0 <= b < r2.len() && a != b implies r2[a]
                != r2[b] by {
                let ra = if a < i { a } else { a + 1 };
                let rb = if b < i { b } else { b + 1 };
                assert(r2[a] == rest[ra]);
                assert(r2[b] == rest[rb]);
            }
        }
        assert(!packed.contains(t)) by {
            assert(rest.contains(t));
        }
        assert(prefs_b.no_duplicates()) by {
            assert forall|a: int, b: int| 0 <= a < prefs_b.len() && 0 <= b < prefs_b.len() && a != b implies prefs_b[a]
                != prefs_b[b] by {
                if a == packed.len() as int {
                    assert(packed[b] == prefs_b[b]);
                } else if b == packed.len() as int {
                    assert(packed[a] == prefs_b[a]);
                }
            }
        }
        assert forall|x: DicedTexture| r2.contains(x) <==> (rest.contains(x) && x != t) by {
            if r2.contains(x) {
                let j = choose|j: int| 0 <= j < r2.len() && r2[j] == x;
                let rj = if j < i { j } else { j + 1 };
                assert(rest[rj] == x);
                assert(rj != i);
            }
            if rest.contains(x) && x != t {
                let j = choose|j: int| 0 <= j < rest.len() && rest[j] == x;
                if j < i {
                    assert(r2[j] == x);
                } else {
                    assert(j != i);
                    assert(r2[j - 1] == x);
                }
            }
        }
        assert forall|x: DicedTexture| prefs_b.contains(x) <==> (packed.contains(x) || x == t) by {
            if prefs_b.contains(x) {
                let j = choose|j: int| 0 <= j < prefs_b.len() && prefs_b[j] == x;
                if j < packed.len() {
                    assert(packed[j] == x);
                }
            }
            if packed.contains(x) {
                let j = choose|j: int| 0 <= j < packed.len() && packed[j] == x;
                assert(prefs_b[j] == x);
            }
            if x == t {
                assert(prefs_b[packed.len() as int] == x);
            }
        }
        lemma_grow_partition(r2, add_hashes(group, t), prefs_b, cap);
    }
}

/// No texture appears twice in `s`.
pub open spec fn distinct_in(s: Seq<DicedTexture>) -> bool {
    s.no_duplicates()
}

/// The groups that packing forms split `rest`: no texture twice within or across groups,
/// and every texture of `rest` in one.
proof fn lemma_groups_partition(rest: Seq<DicedTexture>, cap: int)
    requires
        rest.no_duplicates(),
    ensures
        pack_groups(rest, cap) matches Some(gs) ==> {
            &&& forall|j: int| 0 <= j < gs.len() ==> distinct_in(#[trigger] gs[j].1)
            &&& forall|j1: int, j2: int, x: DicedTexture|
                0 <= j1 < gs.len() && 0 <= j2 < gs.len() && j1 != j2 && #[trigger] gs[j1].1.contains(x)
                    ==> !(#[trigger] gs[j2].1.contains(x))
            &&& forall|x: DicedTexture|
                rest.contains(x) ==> exists|j: int| 0 <= j < gs.len() && #[trigger] gs[j].1.contains(x)
        },
    decreases rest.len(),
{
    if rest.len() > 0 {
        let (left, group, packed) = grow(rest, seq![], seq![], cap);
        lemma_grow_partition(rest, seq![], seq![], cap);
        if !(packed.len() == 0 || left.len() >= rest.len()) {
            lemma_groups_partition(left, cap);
            lemma_groups_from(left, cap);
            if let Some(gs) = pack_groups(rest, cap) {
                let tail = pack_groups(left, cap)->Some_0;
                assert(gs == seq![(group, packed)] + tail);
                assert forall|j: int| 0 <= j < gs.len() implies distinct_in(#[trigger] gs[j].1) by {
                    if j > 0 {
                        assert(gs[j] == tail[j - 1]);
                    }
                }
                assert forall|j1: int, j2: int, x: DicedTexture|
                    0 <= j1 < gs.len() && 0 <= j2 < gs.len() && j1 != j2 && #[trigger] gs[j1].1.contains(x)
                        implies !(#[trigger] gs[j2].1.contains(x)) by {
                    if j1 > 0 {
                        assert(gs[j1] == tail[j1 - 1]);
                    }
                    if j2 > 0 {
                        assert(gs[j2] == tail[j2 - 1]);
                    }
                    if j1 == 0 && gs[j2].1.contains(x) {
                        assert(tail[j2 - 1].1.contains(x));
                        assert(left.contains(x));
                    }
                    if j2 == 0 && gs[j2].1.contains(x) {
                        assert(tail[j1 - 1].1.contains(x));
                        assert(left.contains(x));
                    }
                }
                assert forall|x: DicedTexture| rest.contains(x) implies exists|j: int|
                    0 <= j < gs.len() && #[trigger] gs[j].1.contains(x) by {
                    if packed.contains(x) {
                        assert(gs[0].1.contains(x));
                    } else {
                        assert(left.contains(x));
                        let j = choose|j: int| 0 <= j < tail.len() && #[trigger] tail[j].1.contains(x);
                        assert(gs[j + 1] == tail[j]);
                        assert(gs[j + 1].1.contains(x));
                    }
                }
            }
        }
    }
}

/// `emitted` lists each position once, and every position of a texture with units.
proof fn lemma_emitted_all(atlases: Seq<Atlas>, n: nat)
    requires
        n <= atlases.len(),
    ensures
        emitted(atlases, n).no_duplicates(),
        forall|i: int, p: int|
            0 <= i < n && 0 <= p < atlases[i].packed@.len() && (#[trigger] atlases[i].packed@[p]).units@.len()
                > 0 ==> emitted(atlases, n).contains((i, p)),
    decreases n,
{
    if n > 0 {
        lemma_emitted_all(atlases, (n - 1) as nat);
        law_built_sprites_have_units(atlases, (n - 1) as nat);
        let i = n - 1;
        let packed = atlases[i].packed@;
        lemma_emitted_in(packed, i, packed.len());
        lemma_emitted_in_all(packed, i, packed.len());
        let prev = emitted(atlases, (n - 1) as nat);
        let last = emitted_in(packed, i, packed.len());
        let now = emitted(atlases, n);
        assert(now == prev + last);
        assert forall|a: int, b: int| 0 <= a < now.len() && 0 <= b < now.len() && a != b implies now[a]
            != now[b] by {
            if a < prev.len() && b >= prev.len() {
                assert(now[b] == last[b - prev.len()]);
                assert(now[a] == prev[a]);
            } else if a >= prev.len() && b < prev.len() {
                assert(now[a] == last[a - prev.len()]);
                assert(now[b] == prev[b]);
            } else if a < prev.len() {
                assert(now[a] == prev[a] && now[b] == prev[b]);
            } else {
                assert(now[a] == last[a - prev.len()] && now[b] == last[b - prev.len()]);
            }
        }
        assert forall|at: int, p: int|
            0 <= at < n && 0 <= p < atlases[at].packed@.len() && (#[trigger] atlases[at].packed@[p]).units@.len()
                > 0 implies now.contains((at, p)) by {
            if at < i {
                let k = choose|k: int| 0 <= k < prev.len() && prev[k] == (at, p);
                assert(now[k] == (at, p));
            } else {
                assert(last.contains((at, p)));
                let k = choose|k: int| 0 <= k < last.len() && last[k] == (at, p);
                assert(now[prev.len() + k] == (at, p));
            }
        }
    }
}

/// `emitted_in` lists each position once, and every position of a texture with units.
proof fn lemma_emitted_in_all(packed: Seq<DicedTexture>, i: int, m: nat)
    requires
        m <= packed.len(),
    ensures
        emitted_in(packed, i, m).no_duplicates(),
        forall|p: int| 0 <= p < m && (#[trigger] packed[p]).units@.len() > 0 ==> emitted_in(packed, i, m).contains((i, p)),
    decreases m,
{
    if m > 0 {
        lemma_emitted_in_all(packed, i, (m - 1) as nat);
        lemma_emitted_in(packed, i, (m - 1) as nat);
        let prev = emitted_in(packed, i, (m - 1) as nat);
        let now = emitted_in(packed, i, m);
        if packed[m - 1].units@.len() > 0 {
            assert(now == prev.push((i, m - 1)));
            assert forall|a: int, b: int| 0 <= a < now.len() && 0 <= b < now.len() && a != b implies now[a]
                != now[b] by {
                if a == prev.len() as int {
                    assert(now[b] == prev[b]);
                } else if b == prev.len() as int {
                    assert(now[a] == prev[a]);
                } else {
                    assert(now[a] == prev[a] && now[b] == prev[b]);
                }
            }
        }
        assert forall|p: int| 0 <= p < m && (#[trigger] packed[p]).units@.len() > 0 implies now.contains((i, p)) by {
            if p < m - 1 {
                let k = choose|k: int| 0 <= k < prev.len() && prev[k] == (i, p);
                assert(now[k] == (i, p));
            } else {
                assert(now[now.len() - 1] == (i, p));
            }
        }
    }
}

/// Exactly the sources that keep a unit get a sprite, one each.
pub proof fn law_one_sprite_per_source(
    src: Seq<SourceSprite>,
    prefs: &Prefs,
    d: Seq<DicedTexture>,
    a: Seq<Atlas>,
    arts: Artifacts,
)
    requires
        pipeline(src, prefs, d, a, arts),
    ensures
        forall|k1: int, k2: int|
            0 <= k1 < arts.sprites@.len() && 0 <= k2 < arts.sprites@.len() && k1 != k2
                ==> (#[trigger] arts.sprites@[k1]).source != (#[trigger] arts.sprites@[k2]).source,
        forall|j: int|
            0 <= j < src.len() ==> (d[j].units@.len() > 0 <==> exists|k: int|
                0 <= k < arts.sprites@.len() && (#[trigger] arts.sprites@[k]).source == j),
{
    let cap = capacity(prefs);
    let gs = pack_groups(d, cap)->Some_0;
    let em = emitted(a, a.len());
    assert(d.no_duplicates()) by {
        assert forall|x: int, y: int| 0 <= x < d.len() && 0 <= y < d.len() && x != y implies d[x] != d[y] by {
            assert(diced_from(d[x], src[x], x, prefs));
            assert(diced_from(d[y], src[y], y, prefs));
        }
    }
    lemma_groups_partition(d, cap);
    lemma_groups_from(d, cap);
    law_built_sprites_have_units(a, a.len());
    lemma_emitted_all(a, a.len());
    assert forall|i: int| 0 <= i < a.len() implies #[trigger] gs[i].1 == a[i].packed@ by {}
    // The texture of each sprite is the diced texture of its source.
    assert forall|k: int| #![trigger em[k]] 0 <= k < arts.sprites@.len() implies {
        let (i, p) = em[k];
        &&& a[i].packed@[p] == d[arts.sprites@[k].source as int]
        &&& 0 <= arts.sprites@[k].source < d.len()
    } by {
        let (i, p) = em[k];
        let t = a[i].packed@[p];
        assert(gs[i].1.contains(t));
        let j = choose|j: int| 0 <= j < d.len() && d[j] == t;
        assert(diced_from(d[j], src[j], j, prefs));
    }
    assert forall|k1: int, k2: int|
        0 <= k1 < arts.sprites@.len() && 0 <= k2 < arts.sprites@.len() && k1 != k2
            implies (#[trigger] arts.sprites@[k1]).source != (#[trigger] arts.sprites@[k2]).source by {
        let (i1, prefs_a) = em[k1];
        let (i2, prefs_b) = em[k2];
        assert(em[k1] != em[k2]);
        if arts.sprites@[k1].source == arts.sprites@[k2].source {
            let t = a[i1].packed@[prefs_a];
            assert(t == a[i2].packed@[prefs_b]);
            if i1 == i2 {
                assert(distinct_in(gs[i1].1));
            } else {
                assert(gs[i1].1.contains(t));
                assert(gs[i2].1.contains(t));
            }
        }
    }
    assert forall|j: int| 0 <= j < src.len() implies (d[j].units@.len() > 0 <==> exists|k: int|
        0 <= k < arts.sprites@.len() && (#[trigger] arts.sprites@[k]).source == j) by {
        if d[j].units@.len() > 0 {
            assert(d.contains(d[j]));
            let i = choose|i: int| 0 <= i < gs.len() && #[trigger] gs[i].1.contains(d[j]);
            let p = choose|p: int| 0 <= p < gs[i].1.len() && gs[i].1[p] == d[j];
            assert(a[i].packed@[p].units@.len() > 0);
            assert(em.contains((i, p)));
            let k = choose|k: int| 0 <= k < em.len() && em[k] == (i, p);
            assert(diced_from(d[j], src[j], j, prefs));
            assert(d[arts.sprites@[k].source as int] == d[j]);
            assert(diced_from(d[arts.sprites@[k].source as int], src[arts.sprites@[k].source as int], arts.sprites@[k].source as int, prefs));
            assert(arts.sprites@[k].source == j);
        }
        if exists|k: int| 0 <= k < arts.sprites@.len() && (#[trigger] arts.sprites@[k]).source == j {
            let k = choose|k: int| 0 <= k < arts.sprites@.len() && (#[trigger] arts.sprites@[k]).source == j;
            let (i, p) = em[k];
            assert(a[i].packed@[p] == d[j]);
        }
    }
}

/// Units with equal hashes hold blocks of equal size and equal pixels: the hash has no
/// collision among the diced units.
pub open spec fn hashes_faithful(src: Seq<SourceSprite>, d: Seq<DicedTexture>) -> bool {
    forall|j1: int, q1: int, j2: int, q2: int|
        0 <= j1 < d.len() && 0 <= q1 < d[j1].units@.len() && 0 <= j2 < d.len() && 0 <= q2
            < d[j2].units@.len() && (#[trigger] d[j1].units@[q1]).hash == (#[trigger] d[j2].units@[q2]).hash
            ==> {
            let r1 = d[j1].units@[q1].rect;
            let r2 = d[j2].units@[q2].rect;
            &&& r1.width == r2.width
            &&& r1.height == r2.height
            &&& core_pixels(&src[j1].texture, r1) == core_pixels(&src[j2].texture, r2)
        }
}

/// What dicing states of unit `q` of a diced texture: where it lies, what it holds.
proof fn lemma_unit_facts(d: DicedTexture, src: SourceSprite, j: int, prefs: &Prefs, q: int)
    requires
        dice_ok(prefs),
        diced_from(d, src, j, prefs),
        0 <= q < d.units@.len(),
    ensures
        ({
            let u = d.units@[q];
            let s = prefs.unit_size as int;
            let pad = prefs.padding as int;
            &&& u.rect.width <= s
            &&& u.rect.height <= s
            &&& u.rect.x + u.rect.width <= src.texture.width
            &&& u.rect.y + u.rect.height <= src.texture.height
            &&& u.pixels@ == src.texture.region(
                u.rect.x - pad,
                u.rect.y - pad,
                (s + 2 * pad) as nat,
                (s + 2 * pad) as nat,
            )
        }),
{
    let s = prefs.unit_size as int;
    lemma_units_shape(&src.texture, s, prefs.padding as int, prefs.trim_transparent, cell_count(&src.texture, s));
    assert(d.units_view()[q] == units_of(&src.texture, prefs)[q]);
}

/// Pixel `(dx, dy)` of a unit's block is the texture's pixel under it.
proof fn lemma_core_at(tex: &Texture, r: URect, dx: int, dy: int)
    requires
        r.x + r.width <= tex.width,
        r.y + r.height <= tex.height,
        0 <= dx < r.width,
        0 <= dy < r.height,
    ensures
        dy * r.width + dx < r.width * r.height,
        core_pixels(tex, r)[dy * r.width + dx] == tex.at(r.x + dx, r.y + dy),
{
    let w = r.width as int;
    lemma_fundamental_div_mod_converse(dy * w + dx, w, dy, dx);
    assert(dy * w + dx < w * r.height) by (nonlinear_arith)
        requires
            0 <= dx < w,
            0 <= dy < r.height,
    ;
}

/// Offset by the padding, pixel `(dx, dy)` of a unit's padded block is the texture's pixel
/// under the unit.
proof fn lemma_padded_at(tex: &Texture, r: URect, s: int, pad: int, px: Seq<Pixel>, dx: int, dy: int)
    requires
        s >= 1,
        pad >= 0,
        r.width <= s,
        r.height <= s,
        r.x + r.width <= tex.width,
        r.y + r.height <= tex.height,
        px == tex.region(r.x - pad, r.y - pad, (s + 2 * pad) as nat, (s + 2 * pad) as nat),
        0 <= dx < r.width,
        0 <= dy < r.height,
    ensures
        (pad + dy) * (s + 2 * pad) + pad + dx < (s + 2 * pad) * (s + 2 * pad),
        px[(pad + dy) * (s + 2 * pad) + pad + dx] == tex.at(r.x + dx, r.y + dy),
{
    let pp = s + 2 * pad;
    let jj = (pad + dy) * pp + pad + dx;
    lemma_fundamental_div_mod_converse(jj, pp, pad + dy, pad + dx);
    assert(jj < pp * pp) by (nonlinear_arith)
        requires
            jj == (pad + dy) * pp + pad + dx,
            0 <= pad + dy < pp,
            0 <= pad + dx < pp,
    ;
}

/// The atlas positions of the mesh of `n` units, four per unit, are the corners of the rect
/// of each unit's slot, in the order of the vertices.
pub proof fn law_uv_quads(a: &Atlas, units: Seq<DicedUnit>, n: nat)
    requires
        n <= units.len(),
    ensures
        mesh_uvs(a, units, n).len() == 4 * n,
        forall|q: int|
            0 <= q < n ==> #[trigger] mesh_uvs(a, units, n).subrange(4 * q, 4 * q + 4) == corners(
                a.rects@[slot_index(a, units[q].hash)],
            ),
    decreases n,
{
    if n > 0 {
        law_uv_quads(a, units, (n - 1) as nat);
        let prev = mesh_uvs(a, units, (n - 1) as nat);
        let now = mesh_uvs(a, units, n);
        assert forall|q: int| 0 <= q < n implies #[trigger] now.subrange(4 * q, 4 * q + 4) == corners(
            a.rects@[slot_index(a, units[q].hash)],
        ) by {
            if q < n - 1 {
                assert(now.subrange(4 * q, 4 * q + 4) =~= prev.subrange(4 * q, 4 * q + 4));
            } else {
                assert(now.subrange(4 * q, 4 * q + 4) =~= corners(a.rects@[slot_index(a, units[q].hash)]));
            }
        }
    }
}

/// Sampling the atlas under the UV corners of a quad gives the source pixels under its
/// vertices: the mesh reproduces its sprite, unless two distinct blocks share a hash.
pub proof fn law_reproduction(
    src: Seq<SourceSprite>,
    prefs: &Prefs,
    d: Seq<DicedTexture>,
    a: Seq<Atlas>,
    arts: Artifacts,
    k: int,
    q: int,
)
    requires
        pipeline(src, prefs, d, a, arts),
        dice_ok(prefs),
        hashes_faithful(src, d),
        0 <= k < arts.sprites@.len(),
        0 <= 4 * q && 4 * q + 4 <= arts.sprites@[k].vertices@.len(),
    ensures
        ({
            let s = arts.sprites@[k];
            let v = s.vertices@[4 * q];
            let far = s.vertices@[4 * q + 2];
            let uv = s.uvs@[4 * q];
            let w = (far.x - v.x) as nat;
            let h = (far.y - v.y) as nat;
            arts.atlases@[s.atlas_index as int].region(uv.x as int, uv.y as int, w, h)
                == src[s.source as int].texture.region(v.x as int, v.y as int, w, h)
        }),
{
    let cap = capacity(prefs);
    let gs = pack_groups(d, cap)->Some_0;
    let em = emitted(a, a.len());
    lemma_groups_from(d, cap);
    law_built_sprites_have_units(a, a.len());
    let sprite = arts.sprites@[k];
    let (i, p) = em[k];
    let t = a[i].packed@[p];
    assert(gs[i].1 == a[i].packed@);
    assert(gs[i].1.contains(t));
    let j = choose|j: int| 0 <= j < d.len() && d[j] == t;
    assert(diced_from(d[j], src[j], j, prefs));
    let tex = src[j].texture;
    let n = t.units@.len();
    law_quad_geometry(t.units@, n);
    law_uv_quads(&a[i], t.units@, n);
    let u = t.units@[q];
    let r = u.rect;
    assert(sprite.vertices@.subrange(4 * q, 4 * q + 4) == corners(r));
    assert(sprite.vertices@[4 * q] == sprite.vertices@.subrange(4 * q, 4 * q + 4)[0]);
    assert(sprite.vertices@[4 * q + 2] == sprite.vertices@.subrange(4 * q, 4 * q + 4)[2]);
    lemma_unit_facts(d[j], src[j], j, prefs, q);
    // The slot of the unit's hash holds a unit of equal hash, diced from some source.
    let atlas = a[i];
    assert(covers(&atlas));
    assert(atlas.hashes@.contains(u.hash));
    let sl = slot_index(&atlas, u.hash);
    let rr = atlas.rects@[sl];
    assert(sprite.uvs@.subrange(4 * q, 4 * q + 4) == corners(rr));
    assert(sprite.uvs@[4 * q] == sprite.uvs@.subrange(4 * q, 4 * q + 4)[0]);
    let ppi = prefs.padded_unit();
    let pad = prefs.padding as int;
    let cols = atlas.texture.width as int / ppi;
    assert(baked(&atlas, prefs));
    assert(slot_filled(&atlas, sl, cols, ppi, pad));
    let (t2, u2) = choose|t2: int, u2: int| #[trigger] slot_holds(&atlas, sl, cols, ppi, pad, t2, u2);
    let other = atlas.packed@[t2];
    assert(gs[i].1.contains(other));
    let j2 = choose|j2: int| 0 <= j2 < d.len() && d[j2] == other;
    assert(diced_from(d[j2], src[j2], j2, prefs));
    let unit2 = other.units@[u2];
    lemma_unit_facts(d[j2], src[j2], j2, prefs, u2);
    assert(d[j].units@[q].hash == d[j2].units@[u2].hash);
    let r2 = unit2.rect;
    let x0 = (sl % cols) * ppi;
    let y0 = (sl / cols) * ppi;
    let w = r.width as int;
    let h = r.height as int;
    assert(arts.atlases@[i] == atlas.texture);
    lemma_regions_equal(
        atlas.texture,
        x0,
        y0,
        ppi,
        pad,
        prefs.unit_size as int,
        rr,
        unit2.pixels@,
        src[j2].texture,
        r2,
        tex,
        r,
    );
}

/// Under the unpadded rect of a slot, an atlas holds the block of the unit in the slot; where
/// that block equals another unit's, the atlas there reproduces the other unit's source.
proof fn lemma_regions_equal(
    atlas: Texture,
    x0: int,
    y0: int,
    pp: int,
    pad: int,
    s: int,
    rr: URect,
    px: Seq<Pixel>,
    tex2: Texture,
    r2: URect,
    tex: Texture,
    r: URect,
)
    requires
        s >= 1,
        pad >= 0,
        pp == s + 2 * pad,
        x0 >= 0,
        y0 >= 0,
        x0 + pp <= atlas.width,
        y0 + pp <= atlas.height,
        rr.x == x0 + pad,
        rr.y == y0 + pad,
        forall|j: int| 0 <= j < pp * pp ==> atlas.at(x0 + j % pp, y0 + j / pp) == #[trigger] px[j],
        r2.width <= s,
        r2.height <= s,
        r2.x + r2.width <= tex2.width,
        r2.y + r2.height <= tex2.height,
        px == tex2.region(r2.x - pad, r2.y - pad, pp as nat, pp as nat),
        r.width == r2.width,
        r.height == r2.height,
        r.x + r.width <= tex.width,
        r.y + r.height <= tex.height,
        core_pixels(&tex2, r2) == core_pixels(&tex, r),
    ensures
        atlas.region(rr.x as int, rr.y as int, r.width as nat, r.height as nat) == tex.region(
            r.x as int,
            r.y as int,
            r.width as nat,
            r.height as nat,
        ),
{
    let w = r.width as int;
    let h = r.height as int;
    let left = atlas.region(rr.x as int, rr.y as int, w as nat, h as nat);
    let right = tex.region(r.x as int, r.y as int, w as nat, h as nat);
    assert forall|jj: int| 0 <= jj < left.len() implies left[jj] == right[jj] by {
        lemma_fundamental_div_mod(jj, w);
        lemma_mod_pos_bound(jj, w);
        let dx = jj % w;
        let dy = jj / w;
        assert(0 <= dy < h) by (nonlinear_arith)
            requires
                jj == w * dy + dx,
                0 <= dx < w,
                0 <= jj < w * h,
        ;
        assert(dy * w + dx == jj) by (nonlinear_arith)
            requires
                jj == w * dy + dx,
        ;
        lemma_core_at(&tex, r, dx, dy);
        lemma_core_at(&tex2, r2, dx, dy);
        lemma_padded_at(&tex2, r2, s, pad, px, dx, dy);
        let big = (pad + dy) * pp + pad + dx;
        lemma_fundamental_div_mod_converse(big, pp, pad + dy, pad + dx);
        assert(atlas.at(x0 + big % pp, y0 + big / pp) == px[big]);
    }
    assert(left =~= right);
}

/// With distinct source IDs: a source has a sprite with its ID exactly when it keeps a
/// unit, never more than one, and a clear source has none when trimming.
pub proof fn law_sprites_by_id(
    src: Seq<SourceSprite>,
    prefs: &Prefs,
    d: Seq<DicedTexture>,
    a: Seq<Atlas>,
    arts: Artifacts,
    j: int,
)
    requires
        pipeline(src, prefs, d, a, arts),
        dice_ok(prefs),
        forall|j1: int, j2: int|
            0 <= j1 < src.len() && 0 <= j2 < src.len() && j1 != j2 ==> (#[trigger] src[j1]).id@
                != (#[trigger] src[j2]).id@,
        0 <= j < src.len(),
    ensures
        (exists|k: int| 0 <= k < arts.sprites@.len() && (#[trigger] arts.sprites@[k]).id@ == src[j].id@)
            <==> d[j].units@.len() > 0,
        forall|k1: int, k2: int|
            0 <= k1 < arts.sprites@.len() && 0 <= k2 < arts.sprites@.len() && (#[trigger] arts.sprites@[k1]).id@
                == src[j].id@ && (#[trigger] arts.sprites@[k2]).id@ == src[j].id@ ==> k1 == k2,
        prefs.trim_transparent && src[j].texture.wf() && all_clear(src[j].texture.pixels@) ==> forall|
            k: int,
        |
            0 <= k < arts.sprites@.len() ==> (#[trigger] arts.sprites@[k]).id@ != src[j].id@,
{
    law_sprite_ids(src, prefs, d, a, arts);
    law_one_sprite_per_source(src, prefs, d, a, arts);
    assert forall|k: int| 0 <= k < arts.sprites@.len() implies ((#[trigger] arts.sprites@[k]).id@
        == src[j].id@ <==> arts.sprites@[k].source == j) by {
        let sj = arts.sprites@[k].source as int;
        if sj != j {
            assert(src[sj].id@ != src[j].id@);
        }
    }
    if d[j].units@.len() > 0 {
        let k = choose|k: int| 0 <= k < arts.sprites@.len() && (#[trigger] arts.sprites@[k]).source == j;
        assert(arts.sprites@[k].id@ == src[j].id@);
    }
    if prefs.trim_transparent && src[j].texture.wf() && all_clear(src[j].texture.pixels@) {
        assert(diced_from(d[j], src[j], j, prefs));
        law_clear_sprite_has_no_units(d[j], src[j], j, prefs);
    }
}

} // verus!
