//! Chops source sprite textures into square units and hashes their content.
use crate::models::{
    clamp, first_occurrences, DicedTexture, DicedUnit, Error, IRect, Pixel, Prefs, SourceSprite, Texture, URect, USize,
    PADDING_ABOVE_UNIT, UNIT_SIZE_ZERO,
};
use std::collections::hash_map::DefaultHasher;
use std::hash::Hasher;
use vstd::arithmetic::div_mod::{
    lemma_fundamental_div_mod, lemma_fundamental_div_mod_converse, lemma_mod_pos_bound,
};
use vstd::prelude::*;
use vstd::std_specs::hash::DefaultHasherAdditionalSpecFns;

verus! {

/// Number of units of side `s` needed to cover `len` pixels.
pub open spec fn unit_count(len: int, s: int) -> int {
    (len + s - 1) / s
}

/// The rect stored for the unit at grid cell `(gx, gy)`: the unit's square cut to the texture.
pub open spec fn cell_rect(tex: &Texture, s: int, gx: int, gy: int) -> URect {
    let x = gx * s;
    let y = gy * s;
    URect {
        x: x as u32,
        y: y as u32,
        width: (if s < tex.width - x { s } else { tex.width - x }) as u32,
        height: (if s < tex.height - y { s } else { tex.height - y }) as u32,
    }
}

/// The pixels of the texture under `r`, row after row.
pub open spec fn core_pixels(tex: &Texture, r: URect) -> Seq<Pixel> {
    tex.region(r.x as int, r.y as int, r.width as nat, r.height as nat)
}

/// The pixels of the unit at grid cell `(gx, gy)` with a border of `pad` pixels,
/// edge pixels repeated where the border leaves the texture.
pub open spec fn padded_pixels(tex: &Texture, s: int, pad: int, gx: int, gy: int) -> Seq<Pixel> {
    tex.region(gx * s - pad, gy * s - pad, (s + 2 * pad) as nat, (s + 2 * pad) as nat)
}

/// The RGBA components of the pixels, in order.
pub open spec fn pixel_bytes(px: Seq<Pixel>) -> Seq<u8>
    decreases px.len(),
{
    if px.len() == 0 {
        seq![]
    } else {
        let p = px.last();
        pixel_bytes(px.drop_last()) + seq![p.r, p.g, p.b, p.a]
    }
}

/// Little-endian bytes of `v`.
pub open spec fn u32_bytes(v: u32) -> Seq<u8> {
    seq![
        (v % 256) as u8,
        (v / 256 % 256) as u8,
        (v / 65536 % 256) as u8,
        (v / 16777216) as u8,
    ]
}

/// The bytes hashed for a unit: its dimensions, then its unpadded pixels.
pub open spec fn unit_bytes(r: URect, core: Seq<Pixel>) -> Seq<u8> {
    u32_bytes(r.width) + u32_bytes(r.height) + pixel_bytes(core)
}

/// The hash that std's `DefaultHasher` gives after one write of `bytes`.
pub open spec fn content_hash(bytes: Seq<u8>) -> u64 {
    DefaultHasher::spec_finish(seq![bytes])
}

/// The hash of the unit stored under `r`.
pub open spec fn unit_hash(tex: &Texture, r: URect) -> u64 {
    content_hash(unit_bytes(r, core_pixels(tex, r)))
}

/// Every pixel is fully transparent.
pub open spec fn all_clear(px: Seq<Pixel>) -> bool {
    forall|i: int| 0 <= i < px.len() ==> (#[trigger] px[i]).is_clear()
}

/// The unit diced at grid cell `(gx, gy)`: stored rect, padded pixels and hash.
pub open spec fn candidate(tex: &Texture, s: int, pad: int, gx: int, gy: int) -> (
    URect,
    Seq<Pixel>,
    u64,
) {
    let r = cell_rect(tex, s, gx, gy);
    (r, padded_pixels(tex, s, pad, gx, gy), unit_hash(tex, r))
}

/// Whether the unit at grid cell `(gx, gy)` is kept: trimming is off or it is not clear.
pub open spec fn kept(tex: &Texture, s: int, trim: bool, gx: int, gy: int) -> bool {
    !(trim && all_clear(core_pixels(tex, cell_rect(tex, s, gx, gy))))
}

/// The kept units of the first `n` grid cells in scan order: the cell with index `k` lies
/// in column `k / rows` and row `k % rows`.
pub open spec fn diced_units(tex: &Texture, s: int, pad: int, trim: bool, n: nat) -> Seq<
    (URect, Seq<Pixel>, u64),
>
    decreases n,
{
    if n == 0 {
        seq![]
    } else {
        let k = n - 1;
        let rows = unit_count(tex.height as int, s);
        let prev = diced_units(tex, s, pad, trim, (n - 1) as nat);
        if kept(tex, s, trim, k / rows, k % rows) {
            prev.push(candidate(tex, s, pad, k / rows, k % rows))
        } else {
            prev
        }
    }
}

/// Number of grid cells of a texture.
pub open spec fn cell_count(tex: &Texture, s: int) -> nat {
    (unit_count(tex.width as int, s) * unit_count(tex.height as int, s)) as nat
}

/// The units that dicing `tex` with `prefs` yields.
pub open spec fn units_of(tex: &Texture, prefs: &Prefs) -> Seq<(URect, Seq<Pixel>, u64)> {
    let s = prefs.unit_size as int;
    diced_units(tex, s, prefs.padding as int, prefs.trim_transparent, cell_count(tex, s))
}

/// Preferences that dicing accepts.
pub open spec fn dice_ok(prefs: &Prefs) -> bool {
    prefs.unit_size >= 1 && prefs.padding <= prefs.unit_size
}

/// `d` is the product of dicing `src`, the `index`-th source, with `prefs`.
pub open spec fn diced_from(d: DicedTexture, src: SourceSprite, index: int, prefs: &Prefs) -> bool {
    &&& d.id@ == src.id@
    &&& d.source == index
    &&& d.size == (USize { width: src.texture.width, height: src.texture.height })
    &&& d.units_view() == units_of(&src.texture, prefs)
    &&& d.unique_wf()
    &&& d.unique_in_order()
}

/// Textures that dicing accepts.
pub open spec fn sources_wf(src: Seq<SourceSprite>) -> bool {
    forall|i: int| 0 <= i < src.len() ==> (#[trigger] src[i]).texture.wf()
}

/// Chops source sprite textures into units and collects the distinct hashes of each.
pub fn dice(src: &[SourceSprite], prefs: &Prefs) -> (r: Result<Vec<DicedTexture>, Error>)
    requires
        sources_wf(src@),
        prefs.fits_machine(),
    ensures
        prefs.unit_size == 0 ==> r == Err::<Vec<DicedTexture>, Error>(Error::Spec(UNIT_SIZE_ZERO)),
        prefs.unit_size != 0 && prefs.padding > prefs.unit_size ==> r == Err::<
            Vec<DicedTexture>,
            Error,
        >(Error::Spec(PADDING_ABOVE_UNIT)),
        dice_ok(prefs) ==> r is Ok,
        r matches Ok(d) ==> d@.len() == src@.len() && forall|i: int|
            0 <= i < src@.len() ==> diced_from(#[trigger] d@[i], src@[i], i, prefs),
{
    if prefs.unit_size == 0 {
        return Err(Error::Spec(UNIT_SIZE_ZERO));
    }
    if prefs.padding > prefs.unit_size {
        return Err(Error::Spec(PADDING_ABOVE_UNIT));
    }
    let mut diced: Vec<DicedTexture> = Vec::new();
    let mut i: usize = 0;
    while i < src.len()
        invariant
            i <= src@.len(),
            dice_ok(prefs),
            prefs.fits_machine(),
            sources_wf(src@),
            diced@.len() == i,
            forall|j: int| 0 <= j < i ==> diced_from(#[trigger] diced@[j], src@[j], j, prefs),
        decreases src@.len() - i,
    {
        let d = dice_it(&src[i], i, prefs);
        diced.push(d);
        i += 1;
    }
    Ok(diced)
}

/// `g * s < len` for every grid index `g` below `unit_count(len, s)`.
proof fn lemma_cell_in_bounds(g: int, len: int, s: int)
    requires
        s >= 1,
        len >= 0,
        0 <= g < unit_count(len, s),
    ensures
        g * s < len,
        g * s + s <= len + s - 1,
{
    let q = unit_count(len, s);
    lemma_fundamental_div_mod(len + s - 1, s);
    assert(s * q <= len + s - 1);
    assert(g * s + s <= q * s) by (nonlinear_arith)
        requires
            g + 1 <= q,
            s >= 1,
    ;
}

/// `unit_count(len, s)` does not exceed `len`.
pub proof fn lemma_unit_count_bound(len: int, s: int)
    requires
        s >= 1,
        len >= 0,
    ensures
        0 <= unit_count(len, s) <= len,
{
    lemma_fundamental_div_mod(len + s - 1, s);
    let q = unit_count(len, s);
    assert(q >= 0) by (nonlinear_arith)
        requires
            q == (len + s - 1) / s,
            len >= 0,
            s >= 1,
    ;
    lemma_mod_pos_bound(len + s - 1, s);
    assert(s * q <= len + s - 1);
    assert(q <= len) by (nonlinear_arith)
        requires
            s * q <= len + s - 1,
            s >= 1,
            len >= 0,
    ;
}

fn dice_it(src: &SourceSprite, index: usize, prefs: &Prefs) -> (d: DicedTexture)
    requires
        src.texture.wf(),
        dice_ok(prefs),
        prefs.fits_machine(),
    ensures
        diced_from(d, *src, index as int, prefs),
{
    let tex = &src.texture;
    let s = prefs.unit_size;
    proof {
        lemma_unit_count_bound(tex.width as int, s as int);
        lemma_unit_count_bound(tex.height as int, s as int);
    }
    let cols = ((tex.width as u64 + s as u64 - 1) / s as u64) as u32;
    let rows = ((tex.height as u64 + s as u64 - 1) / s as u64) as u32;
    let ghost n_rows = unit_count(tex.height as int, s as int);
    let mut units: Vec<DicedUnit> = Vec::new();
    let mut x: u32 = 0;
    while x < cols
        invariant
            x <= cols,
            cols == unit_count(tex.width as int, s as int),
            rows == n_rows,
            n_rows == unit_count(tex.height as int, s as int),
            tex.wf(),
            tex == &src.texture,
            s == prefs.unit_size,
            dice_ok(prefs),
            prefs.fits_machine(),
            units@.map_values(|u: DicedUnit| u@) == diced_units(
                tex,
                s as int,
                prefs.padding as int,
                prefs.trim_transparent,
                (x * rows) as nat,
            ),
        decreases cols - x,
    {
        let mut y: u32 = 0;
        while y < rows
            invariant
                y <= rows,
                x < cols,
                cols == unit_count(tex.width as int, s as int),
                rows == n_rows,
                n_rows == unit_count(tex.height as int, s as int),
                tex.wf(),
                s == prefs.unit_size,
                dice_ok(prefs),
                prefs.fits_machine(),
                units@.map_values(|u: DicedUnit| u@) == diced_units(
                    tex,
                    s as int,
                    prefs.padding as int,
                    prefs.trim_transparent,
                    (x * rows + y) as nat,
                ),
            decreases rows - y,
        {
            let ghost k = x * rows + y;
            proof {
                lemma_fundamental_div_mod_converse(k, rows as int, x as int, y as int);
            }
            let unit = dice_at(x, y, tex, prefs);
            let ghost old_units = units@;
            match unit {
                Some(u) => {
                    units.push(u);
                    assert(units@.map_values(|u: DicedUnit| u@) =~= old_units.map_values(
                        |u: DicedUnit| u@,
                    ).push(u@));
                },
                None => {},
            }
            y += 1;
        }
        assert(x * rows + rows == (x + 1) * rows) by (nonlinear_arith);
        x += 1;
    }
    assert(cols * rows == cell_count(tex, s as int));
    let unique = collect_unique(&units);
    DicedTexture {
        id: src.id.clone(),
        source: index,
        size: USize { width: tex.width, height: tex.height },
        units,
        unique,
    }
}

/// The distinct hashes of `units`, in order of first appearance.
fn collect_unique(units: &Vec<DicedUnit>) -> (unique: Vec<u64>)
    ensures
        unique@.no_duplicates(),
        unique@.to_set() == units@.map_values(|u: DicedUnit| u.hash).to_set(),
        unique@ == first_occurrences(units@.map_values(|u: DicedUnit| u.hash)),
{
    let mut unique: Vec<u64> = Vec::new();
    let mut i: usize = 0;
    while i < units.len()
        invariant
            i <= units@.len(),
            unique@.no_duplicates(),
            unique@ == first_occurrences(units@.take(i as int).map_values(|u: DicedUnit| u.hash)),
            forall|h: u64|
                unique@.contains(h) <==> units@.take(i as int).map_values(
                    |u: DicedUnit| u.hash,
                ).contains(h),
        decreases units@.len() - i,
    {
        let h = units[i].hash;
        let ghost prev = units@.take(i as int).map_values(|u: DicedUnit| u.hash);
        let ghost before = unique@;
        assert(units@.take(i + 1).map_values(|u: DicedUnit| u.hash) =~= prev.push(h));
        assert(prev.push(h).drop_last() =~= prev);
        if !contains_hash(&unique, h) {
            unique.push(h);
            proof {
                assert forall|a: int, b: int|
                    0 <= a < unique@.len() && 0 <= b < unique@.len() && a != b implies unique@[a]
                    != unique@[b] by {
                    if a == before.len() as int {
                        assert(before[b] == unique@[b]);
                        if unique@[b] == h {
                            assert(before.contains(h));
                        }
                    }
                    if b == before.len() as int {
                        assert(before[a] == unique@[a]);
                    }
                }
            }
        }
        proof {
            let next = prev.push(h);
            assert(unique@.contains(h)) by {
                if before.contains(h) {
                    let j = choose|j: int| 0 <= j < before.len() && before[j] == h;
                    assert(unique@[j] == h);
                } else {
                    assert(unique@[before.len() as int] == h);
                }
            }
            assert forall|g: u64| unique@.contains(g) <==> next.contains(g) by {
                if g != h {
                    if next.contains(g) {
                        let j = choose|j: int| 0 <= j < next.len() && next[j] == g;
                        assert(prev[j] == g);
                        assert(before.contains(g));
                        let m = choose|m: int| 0 <= m < before.len() && before[m] == g;
                        assert(unique@[m] == g);
                    }
                    if unique@.contains(g) {
                        let m = choose|m: int| 0 <= m < unique@.len() && unique@[m] == g;
                        assert(m < before.len());
                        assert(before[m] == g);
                        assert(before.contains(g));
                        assert(prev.contains(g));
                        let j = choose|j: int| 0 <= j < prev.len() && prev[j] == g;
                        assert(next[j] == g);
                    }
                } else {
                    assert(next[next.len() - 1] == g);
                }
            }
        }
        i += 1;
    }
    let ghost all = units@.map_values(|u: DicedUnit| u.hash);
    assert(units@.take(units@.len() as int) =~= units@);
    assert(unique@.to_set() =~= all.to_set());
    unique
}

/// Whether `v` holds `h`.
pub(crate) fn contains_hash(v: &Vec<u64>, h: u64) -> (r: bool)
    ensures
        r == v@.contains(h),
{
    let mut i: usize = 0;
    while i < v.len()
        invariant
            i <= v@.len(),
            forall|j: int| 0 <= j < i ==> v@[j] != h,
        decreases v@.len() - i,
    {
        if v[i] == h {
            return true;
        }
        i += 1;
    }
    false
}

/// Dices the unit at grid cell `(unit_x, unit_y)`; none when trimming drops a clear unit.
fn dice_at(unit_x: u32, unit_y: u32, tex: &Texture, prefs: &Prefs) -> (r: Option<DicedUnit>)
    requires
        tex.wf(),
        dice_ok(prefs),
        prefs.fits_machine(),
        unit_x < unit_count(tex.width as int, prefs.unit_size as int),
        unit_y < unit_count(tex.height as int, prefs.unit_size as int),
    ensures
        kept(tex, prefs.unit_size as int, prefs.trim_transparent, unit_x as int, unit_y as int)
            ==> (r matches Some(u) && u@ == candidate(
            tex,
            prefs.unit_size as int,
            prefs.padding as int,
            unit_x as int,
            unit_y as int,
        )),
        !kept(tex, prefs.unit_size as int, prefs.trim_transparent, unit_x as int, unit_y as int)
            ==> r is None,
{
    let s = prefs.unit_size;
    proof {
        lemma_cell_in_bounds(unit_x as int, tex.width as int, s as int);
        lemma_cell_in_bounds(unit_y as int, tex.height as int, s as int);
    }
    let unit_rect = IRect {
        x: unit_x as i64 * s as i64,
        y: unit_y as i64 * s as i64,
        width: s,
        height: s,
    };
    let rect = crop_over_borders(&unit_rect, tex);
    let core_rect = IRect { x: rect.x as i64, y: rect.y as i64, width: rect.width, height: rect.height };
    let core = get_pixels(&core_rect, tex);
    if prefs.trim_transparent && all_transparent(&core) {
        return None;
    }
    let hash = hash(&rect, &core);
    let padded_rect = pad_rect(&unit_rect, prefs.padding);
    let pixels = get_pixels(&padded_rect, tex);
    Some(DicedUnit { rect, pixels, hash })
}

/// Whether every pixel is fully transparent.
fn all_transparent(px: &Vec<Pixel>) -> (r: bool)
    ensures
        r == all_clear(px@),
{
    let mut i: usize = 0;
    while i < px.len()
        invariant
            i <= px@.len(),
            forall|j: int| 0 <= j < i ==> (#[trigger] px@[j]).is_clear(),
        decreases px@.len() - i,
    {
        if px[i].a != 0 {
            return false;
        }
        i += 1;
    }
    true
}

/// Samples the block of pixels under `rect`, clamping coordinates outside the texture.
fn get_pixels(rect: &IRect, tex: &Texture) -> (r: Vec<Pixel>)
    requires
        tex.wf(),
        tex.width >= 1,
        tex.height >= 1,
        -0x1_0000_0000 <= rect.x <= 0x1_0000_0000,
        -0x1_0000_0000 <= rect.y <= 0x1_0000_0000,
    ensures
        r@ == tex.region(rect.x as int, rect.y as int, rect.width as nat, rect.height as nat),
{
    let w = rect.width;
    let h = rect.height;
    let mut pixels: Vec<Pixel> = Vec::new();
    let mut dy: u32 = 0;
    while dy < h
        invariant
            dy <= h,
            w == rect.width,
            h == rect.height,
            tex.wf(),
            tex.width >= 1,
            tex.height >= 1,
            -0x1_0000_0000 <= rect.x <= 0x1_0000_0000,
            -0x1_0000_0000 <= rect.y <= 0x1_0000_0000,
            pixels@.len() == dy * w,
            forall|i: int|
                0 <= i < pixels@.len() ==> #[trigger] pixels@[i] == tex.sample(
                    rect.x + i % (w as int),
                    rect.y + i / (w as int),
                ),
        decreases h - dy,
    {
        let mut dx: u32 = 0;
        while dx < w
            invariant
                dx <= w,
                dy < h,
                w == rect.width,
                h == rect.height,
                tex.wf(),
                tex.width >= 1,
                tex.height >= 1,
                -0x1_0000_0000 <= rect.x <= 0x1_0000_0000,
                -0x1_0000_0000 <= rect.y <= 0x1_0000_0000,
                pixels@.len() == dy * w + dx,
                forall|i: int|
                    0 <= i < pixels@.len() ==> #[trigger] pixels@[i] == tex.sample(
                        rect.x + i % (w as int),
                        rect.y + i / (w as int),
                    ),
            decreases w - dx,
        {
            let p = get_pixel(rect.x + dx as i64, rect.y + dy as i64, tex);
            proof {
                lemma_fundamental_div_mod_converse(
                    dy * w + dx,
                    w as int,
                    dy as int,
                    dx as int,
                );
            }
            pixels.push(p);
            dx += 1;
        }
        assert(dy * w + w == (dy + 1) * w) by (nonlinear_arith);
        dy += 1;
    }
    assert(pixels@.len() == (w as nat) * (h as nat)) by (nonlinear_arith)
        requires
            pixels@.len() == dy * w,
            dy == h,
    ;
    assert(pixels@ =~= tex.region(rect.x as int, rect.y as int, w as nat, h as nat));
    pixels
}

/// The pixel at `(x, y)`, with coordinates clamped to the texture.
fn get_pixel(x: i64, y: i64, tex: &Texture) -> (p: Pixel)
    requires
        tex.wf(),
        tex.width >= 1,
        tex.height >= 1,
    ensures
        p == tex.sample(x as int, y as int),
{
    let cx = saturate(x, tex.width - 1);
    let cy = saturate(y, tex.height - 1);
    proof {
        let w = tex.width as int;
        let h = tex.height as int;
        assert(cx + cy * w <= w * h - 1) by (nonlinear_arith)
            requires
                cx <= w - 1,
                0 <= cy <= h - 1,
                w >= 1,
        ;
        assert(cy * w <= cx + cy * w);
    }
    let n = tex.pixels.len();
    let row = cy as usize * tex.width as usize;
    tex.pixels[cx as usize + row]
}

/// The rect grown by `pad` pixels on each side.
fn pad_rect(rect: &IRect, pad: u32) -> (r: IRect)
    requires
        rect.width + 2 * pad <= u32::MAX,
        rect.height + 2 * pad <= u32::MAX,
        0 <= rect.x <= 0x1_0000_0000,
        0 <= rect.y <= 0x1_0000_0000,
    ensures
        r == (IRect {
            x: (rect.x - pad) as i64,
            y: (rect.y - pad) as i64,
            width: (rect.width + 2 * pad) as u32,
            height: (rect.height + 2 * pad) as u32,
        }),
{
    IRect {
        x: rect.x - pad as i64,
        y: rect.y - pad as i64,
        width: rect.width + pad * 2,
        height: rect.height + pad * 2,
    }
}

/// The part of `rect` inside the texture; `rect`'s corner lies inside it.
fn crop_over_borders(rect: &IRect, tex: &Texture) -> (r: URect)
    requires
        0 <= rect.x < tex.width,
        0 <= rect.y < tex.height,
    ensures
        r.x == rect.x,
        r.y == rect.y,
        r.width == (if rect.width < tex.width - rect.x { rect.width as int } else { tex.width - rect.x }),
        r.height == (if rect.height < tex.height - rect.y { rect.height as int } else { tex.height - rect.y }),
{
    let x = rect.x as u32;
    let y = rect.y as u32;
    let room_x = tex.width - x;
    let room_y = tex.height - y;
    URect {
        x,
        y,
        width: if rect.width < room_x { rect.width } else { room_x },
        height: if rect.height < room_y { rect.height } else { room_y },
    }
}

/// The bytes hashed for a unit, see [unit_bytes].
fn unit_bytes_of(rect: &URect, pixels: &Vec<Pixel>) -> (b: Vec<u8>)
    ensures
        b@ == unit_bytes(*rect, pixels@),
{
    let mut bytes: Vec<u8> = Vec::new();
    push_u32(&mut bytes, rect.width);
    push_u32(&mut bytes, rect.height);
    let ghost head = bytes@;
    let mut i: usize = 0;
    while i < pixels.len()
        invariant
            i <= pixels@.len(),
            head == u32_bytes(rect.width) + u32_bytes(rect.height),
            bytes@ == head + pixel_bytes(pixels@.take(i as int)),
        decreases pixels@.len() - i,
    {
        let p = pixels[i];
        assert(pixels@.take(i + 1).drop_last() =~= pixels@.take(i as int));
        bytes.push(p.r);
        bytes.push(p.g);
        bytes.push(p.b);
        bytes.push(p.a);
        assert(bytes@ =~= head + pixel_bytes(pixels@.take(i + 1)));
        i += 1;
    }
    assert(pixels@.take(pixels@.len() as int) =~= pixels@);
    bytes
}

/// Appends the little-endian bytes of `v`.
fn push_u32(bytes: &mut Vec<u8>, v: u32)
    ensures
        final(bytes)@ == old(bytes)@ + u32_bytes(v),
{
    bytes.push((v % 256) as u8);
    bytes.push((v / 256 % 256) as u8);
    bytes.push((v / 65536 % 256) as u8);
    bytes.push((v / 16777216) as u8);
    assert(final(bytes)@ =~= old(bytes)@ + u32_bytes(v));
}

/// Content hash of a unit: std's `DefaultHasher` over the unit's dimensions and pixels.
fn hash(rect: &URect, pixels: &Vec<Pixel>) -> (h: u64)
    ensures
        h == content_hash(unit_bytes(*rect, pixels@)),
{
    let bytes = unit_bytes_of(rect, pixels);
    let mut hasher = DefaultHasher::new();
    hasher.write(bytes.as_slice());
    assert(hasher@ =~= seq![bytes@]);
    hasher.finish()
}

/// Clamps `n` into `0..=max`.
fn saturate(n: i64, max: u32) -> (r: u32)
    ensures
        r == clamp(n as int, max as int),
{
    if n < 0 {
        0
    } else if n > max as i64 {
        max
    } else {
        n as u32
    }
}

/// The units of the first `n` grid cells number at most `n`; each lies inside the texture,
/// is at most `s` wide and high, and holds `(s + 2 * pad)²` padded pixels.
pub proof fn lemma_units_shape(tex: &Texture, s: int, pad: int, trim: bool, n: nat)
    requires
        s >= 1,
        pad >= 0,
        n <= cell_count(tex, s),
    ensures
        diced_units(tex, s, pad, trim, n).len() <= n,
        forall|k: int|
            0 <= k < diced_units(tex, s, pad, trim, n).len() ==> {
                let u = #[trigger] diced_units(tex, s, pad, trim, n)[k];
                &&& u.1.len() == (s + 2 * pad) * (s + 2 * pad)
                &&& u.0.width <= s
                &&& u.0.height <= s
                &&& u.0.x + u.0.width <= tex.width
                &&& u.0.y + u.0.height <= tex.height
                &&& u.2 == unit_hash(tex, u.0)
                &&& u.1 == tex.region(
                    u.0.x - pad,
                    u.0.y - pad,
                    (s + 2 * pad) as nat,
                    (s + 2 * pad) as nat,
                )
            },
    decreases n,
{
    if n > 0 {
        lemma_units_shape(tex, s, pad, trim, (n - 1) as nat);
        let k = n - 1;
        let rows = unit_count(tex.height as int, s);
        let cols = unit_count(tex.width as int, s);
        lemma_unit_count_bound(tex.height as int, s);
        lemma_unit_count_bound(tex.width as int, s);
        assert(rows >= 1) by (nonlinear_arith)
            requires
                k < cols * rows,
                k >= 0,
                cols >= 0,
                rows >= 0,
        ;
        lemma_fundamental_div_mod(k, rows);
        lemma_mod_pos_bound(k, rows);
        let gx = k / rows;
        let gy = k % rows;
        assert(0 <= gx < cols) by (nonlinear_arith)
            requires
                k == rows * gx + gy,
                0 <= gy < rows,
                k < cols * rows,
                k >= 0,
        ;
        lemma_cell_in_bounds(gx, tex.width as int, s);
        lemma_cell_in_bounds(gy, tex.height as int, s);
        let prev = diced_units(tex, s, pad, trim, (n - 1) as nat);
        let now = diced_units(tex, s, pad, trim, n);
        assert forall|j: int| 0 <= j < now.len() implies {
            let u = #[trigger] now[j];
            &&& u.1.len() == (s + 2 * pad) * (s + 2 * pad)
            &&& u.0.width <= s
            &&& u.0.height <= s
            &&& u.0.x + u.0.width <= tex.width
            &&& u.0.y + u.0.height <= tex.height
            &&& u.2 == unit_hash(tex, u.0)
            &&& u.1 == tex.region(
                u.0.x - pad,
                u.0.y - pad,
                (s + 2 * pad) as nat,
                (s + 2 * pad) as nat,
            )
        } by {
            if j < prev.len() {
                assert(now[j] == prev[j]);
            }
        }
    }
}

/// Every unit that dicing yields has the shape [lemma_units_shape] gives, and there are at most
/// as many as the texture has pixels.
pub proof fn lemma_diced_shape(d: DicedTexture, src: SourceSprite, index: int, prefs: &Prefs)
    requires
        diced_from(d, src, index, prefs),
        dice_ok(prefs),
        src.texture.wf(),
    ensures
        d.units@.len() <= src.texture.pixels@.len(),
        forall|u: int|
            0 <= u < d.units@.len() ==> {
                let unit = #[trigger] d.units@[u];
                let pp = prefs.unit_size + 2 * prefs.padding;
                &&& unit.pixels@.len() == pp * pp
                &&& unit.rect.width <= prefs.unit_size
                &&& unit.rect.height <= prefs.unit_size
                &&& unit.rect.x + unit.rect.width <= d.size.width
                &&& unit.rect.y + unit.rect.height <= d.size.height
            },
{
    let tex = &src.texture;
    let s = prefs.unit_size as int;
    lemma_unit_count_bound(tex.width as int, s);
    lemma_unit_count_bound(tex.height as int, s);
    let cols = unit_count(tex.width as int, s);
    let rows = unit_count(tex.height as int, s);
    assert(cols * rows <= tex.width * tex.height) by (nonlinear_arith)
        requires
            0 <= cols <= tex.width,
            0 <= rows <= tex.height,
    ;
    lemma_units_shape(tex, s, prefs.padding as int, prefs.trim_transparent, cell_count(tex, s));
    assert forall|u: int| 0 <= u < d.units@.len() implies {
        let unit = #[trigger] d.units@[u];
        let pp = prefs.unit_size + 2 * prefs.padding;
        &&& unit.pixels@.len() == pp * pp
        &&& unit.rect.width <= prefs.unit_size
        &&& unit.rect.height <= prefs.unit_size
        &&& unit.rect.x + unit.rect.width <= d.size.width
        &&& unit.rect.y + unit.rect.height <= d.size.height
    } by {
        assert(d.units_view()[u] == units_of(tex, prefs)[u]);
    }
}

} // verus!
