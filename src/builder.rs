//! Builds, for each packed texture, a mesh of one quad per unit mapped onto its atlas.
use crate::models::{DicedTexture, DicedUnit, Point, Prefs, URect};
use crate::packer::{covers, shaped, Atlas};
use vstd::prelude::*;

verus! {

/// Generated product of a source sprite: a mesh in pixel space whose quads sample an atlas.
#[derive(Debug, Clone)]
pub struct DicedSprite {
    /// ID of the source sprite.
    pub id: String,
    /// Index of the source sprite among the inputs of the dicing operation.
    pub source: usize,
    /// Index of the atlas holding the sprite's units.
    pub atlas_index: usize,
    /// Quad corners in the source's pixel space, four per unit.
    pub vertices: Vec<Point>,
    /// Atlas pixel positions mapped to the vertices, corner for corner.
    pub uvs: Vec<Point>,
    /// Two triangles per quad, as indices into the vertices.
    pub indices: Vec<usize>,
    /// Bounds of the sprite in the source's pixel space.
    pub rect: URect,
}

/// The corners of `r` in mesh order: top-left, bottom-left, bottom-right, top-right.
pub open spec fn corners(r: URect) -> Seq<Point> {
    seq![
        Point { x: r.x as u64, y: r.y as u64 },
        Point { x: r.x as u64, y: (r.y + r.height) as u64 },
        Point { x: (r.x + r.width) as u64, y: (r.y + r.height) as u64 },
        Point { x: (r.x + r.width) as u64, y: r.y as u64 },
    ]
}

/// The slot of the atlas that holds hash `h`.
pub open spec fn slot_index(a: &Atlas, h: u64) -> int {
    choose|k: int| 0 <= k < a.hashes@.len() && a.hashes@[k] == h
}

/// Vertices of the quads of the first `n` units.
pub open spec fn mesh_vertices(units: Seq<DicedUnit>, n: nat) -> Seq<Point>
    decreases n,
{
    if n == 0 {
        seq![]
    } else {
        mesh_vertices(units, (n - 1) as nat) + corners(units[n - 1].rect)
    }
}

/// Atlas positions of the quads of the first `n` units.
pub open spec fn mesh_uvs(a: &Atlas, units: Seq<DicedUnit>, n: nat) -> Seq<Point>
    decreases n,
{
    if n == 0 {
        seq![]
    } else {
        mesh_uvs(a, units, (n - 1) as nat) + corners(a.rects@[slot_index(a, units[n - 1].hash)])
    }
}

/// The two triangles of the quad whose first vertex has index `i`.
pub open spec fn quad_indices(i: int) -> Seq<usize> {
    seq![i as usize, (i + 1) as usize, (i + 2) as usize, (i + 2) as usize, (i + 3) as usize, i as usize]
}

/// Indices of the triangles of the first `n` quads.
pub open spec fn mesh_indices(n: nat) -> Seq<usize>
    decreases n,
{
    if n == 0 {
        seq![]
    } else {
        mesh_indices((n - 1) as nat) + quad_indices(4 * (n - 1))
    }
}

/// Least left edge among the first `n` units, `n >= 1`.
pub open spec fn min_x(units: Seq<DicedUnit>, n: nat) -> int
    decreases n,
{
    if n <= 1 {
        units[0].rect.x as int
    } else {
        let m = min_x(units, (n - 1) as nat);
        let x = units[n - 1].rect.x as int;
        if x < m { x } else { m }
    }
}

/// Least top edge among the first `n` units, `n >= 1`.
pub open spec fn min_y(units: Seq<DicedUnit>, n: nat) -> int
    decreases n,
{
    if n <= 1 {
        units[0].rect.y as int
    } else {
        let m = min_y(units, (n - 1) as nat);
        let y = units[n - 1].rect.y as int;
        if y < m { y } else { m }
    }
}

/// Greatest right edge among the first `n` units, `n >= 1`.
pub open spec fn max_x(units: Seq<DicedUnit>, n: nat) -> int
    decreases n,
{
    if n <= 1 {
        units[0].rect.x + units[0].rect.width
    } else {
        let m = max_x(units, (n - 1) as nat);
        let x = units[n - 1].rect.x + units[n - 1].rect.width;
        if x > m { x } else { m }
    }
}

/// Greatest bottom edge among the first `n` units, `n >= 1`.
pub open spec fn max_y(units: Seq<DicedUnit>, n: nat) -> int
    decreases n,
{
    if n <= 1 {
        units[0].rect.y + units[0].rect.height
    } else {
        let m = max_y(units, (n - 1) as nat);
        let y = units[n - 1].rect.y + units[n - 1].rect.height;
        if y > m { y } else { m }
    }
}

/// Bounds of a sprite: with trimming, those of its units; else the whole source.
pub open spec fn sprite_rect(t: &DicedTexture, trim: bool) -> URect {
    let units = t.units@;
    let n = units.len();
    if trim {
        URect {
            x: min_x(units, n) as u32,
            y: min_y(units, n) as u32,
            width: (max_x(units, n) - min_x(units, n)) as u32,
            height: (max_y(units, n) - min_y(units, n)) as u32,
        }
    } else {
        URect { x: 0, y: 0, width: t.size.width, height: t.size.height }
    }
}

/// `s` is the sprite built from `t`, packed into atlas `a` with index `i`.
pub open spec fn built_from(s: DicedSprite, a: &Atlas, i: int, t: DicedTexture, trim: bool) -> bool {
    let n = t.units@.len();
    &&& s.id@ == t.id@
    &&& s.source == t.source
    &&& s.atlas_index == i
    &&& s.vertices@ == mesh_vertices(t.units@, n)
    &&& s.uvs@ == mesh_uvs(a, t.units@, n)
    &&& s.indices@ == mesh_indices(n)
    &&& s.rect == sprite_rect(&t, trim)
}

/// Positions `(i, p)`, among the first `m` textures packed into atlas `i`, of those with units.
pub open spec fn emitted_in(packed: Seq<DicedTexture>, i: int, m: nat) -> Seq<(int, int)>
    decreases m,
{
    if m == 0 {
        seq![]
    } else {
        let prev = emitted_in(packed, i, (m - 1) as nat);
        if packed[m - 1].units@.len() > 0 {
            prev.push((i, m - 1))
        } else {
            prev
        }
    }
}

/// Positions `(atlas, packed texture)`, over the first `n` atlases, of the textures with units.
pub open spec fn emitted(atlases: Seq<Atlas>, n: nat) -> Seq<(int, int)>
    decreases n,
{
    if n == 0 {
        seq![]
    } else {
        emitted(atlases, (n - 1) as nat) + emitted_in(
            atlases[n - 1].packed@,
            n - 1,
            atlases[n - 1].packed@.len(),
        )
    }
}

/// Atlases that building accepts: every unit finds its slot, and every mesh index fits.
pub open spec fn buildable(atlases: Seq<Atlas>, prefs: &Prefs) -> bool {
    forall|k: int|
        0 <= k < atlases.len() ==> {
            let a = #[trigger] atlases[k];
            &&& covers(&a)
            &&& a.hashes@.no_duplicates()
            &&& a.rects@.len() == a.hashes@.len()
            &&& forall|t: int| 0 <= t < a.packed@.len() ==> shaped(#[trigger] a.packed@[t], prefs)
        }
}

/// Builds one sprite per packed texture with units: atlases in order, then packing order.
pub fn build(atlases: &Vec<Atlas>, prefs: &Prefs) -> (r: Vec<DicedSprite>)
    requires
        buildable(atlases@, prefs),
    ensures
        r@.len() == emitted(atlases@, atlases@.len()).len(),
        forall|k: int|
            0 <= k < r@.len() ==> {
                let (i, p) = #[trigger] emitted(atlases@, atlases@.len())[k];
                built_from(r@[k], &atlases@[i], i, atlases@[i].packed@[p], prefs.trim_transparent)
            },
{
    let mut sprites: Vec<DicedSprite> = Vec::new();
    let mut i: usize = 0;
    while i < atlases.len()
        invariant
            i <= atlases@.len(),
            buildable(atlases@, prefs),
            sprites@.len() == emitted(atlases@, i as nat).len(),
            forall|k: int|
                0 <= k < sprites@.len() ==> {
                    let (at, p) = #[trigger] emitted(atlases@, i as nat)[k];
                    &&& 0 <= at < i
                    &&& built_from(
                        sprites@[k],
                        &atlases@[at],
                        at,
                        atlases@[at].packed@[p],
                        prefs.trim_transparent,
                    )
                },
        decreases atlases@.len() - i,
    {
        let atlas = &atlases[i];
        let ghost base = sprites@;
        let ghost before = emitted(atlases@, i as nat);
        let mut p: usize = 0;
        while p < atlas.packed.len()
            invariant
                i < atlases@.len(),
                *atlas == atlases@[i as int],
                p <= atlas.packed@.len(),
                buildable(atlases@, prefs),
                base.len() == before.len(),
                before == emitted(atlases@, i as nat),
                sprites@.len() == before.len() + emitted_in(atlas.packed@, i as int, p as nat).len(),
                forall|k: int|
                    0 <= k < sprites@.len() ==> {
                        let (at, q) = #[trigger] (before + emitted_in(
                            atlas.packed@,
                            i as int,
                            p as nat,
                        ))[k];
                        &&& 0 <= at <= i
                        &&& built_from(
                            sprites@[k],
                            &atlases@[at],
                            at,
                            atlases@[at].packed@[q],
                            prefs.trim_transparent,
                        )
                    },
            decreases atlas.packed@.len() - p,
        {
            let ghost prev = before + emitted_in(atlas.packed@, i as int, p as nat);
            let ghost next = before + emitted_in(atlas.packed@, i as int, (p + 1) as nat);
            let t = &atlas.packed[p];
            if t.units.len() > 0 {
                let sprite = build_it(atlas, i, t, prefs);
                sprites.push(sprite);
                assert(next =~= prev.push((i as int, p as int)));
                assert forall|k: int| 0 <= k < sprites@.len() implies {
                    let (at, q) = #[trigger] next[k];
                    &&& 0 <= at <= i
                    &&& built_from(
                        sprites@[k],
                        &atlases@[at],
                        at,
                        atlases@[at].packed@[q],
                        prefs.trim_transparent,
                    )
                } by {
                    if k < prev.len() {
                        assert(next[k] == prev[k]);
                    }
                }
            } else {
                assert(next =~= prev);
            }
            p += 1;
        }
        assert(emitted(atlases@, (i + 1) as nat) =~= before + emitted_in(
            atlas.packed@,
            i as int,
            atlas.packed@.len(),
        ));
        i += 1;
    }
    sprites
}

/// Builds the sprite of texture `t`, packed into atlas `atlas` with index `atlas_idx`.
fn build_it(atlas: &Atlas, atlas_idx: usize, t: &DicedTexture, prefs: &Prefs) -> (s: DicedSprite)
    requires
        covers(atlas),
        atlas.hashes@.no_duplicates(),
        atlas.rects@.len() == atlas.hashes@.len(),
        exists|p: int| 0 <= p < atlas.packed@.len() && atlas.packed@[p] == *t,
        shaped(*t, prefs),
        t.units@.len() > 0,
        4 * t.units@.len() + 4 <= usize::MAX,
    ensures
        built_from(s, atlas, atlas_idx as int, *t, prefs.trim_transparent),
{
    let ghost p = choose|p: int| 0 <= p < atlas.packed@.len() && atlas.packed@[p] == *t;
    let mut vertices: Vec<Point> = Vec::new();
    let mut uvs: Vec<Point> = Vec::new();
    let mut indices: Vec<usize> = Vec::new();
    let mut k: usize = 0;
    while k < t.units.len()
        invariant
            k <= t.units@.len(),
            covers(atlas),
            atlas.hashes@.no_duplicates(),
            atlas.rects@.len() == atlas.hashes@.len(),
            0 <= p < atlas.packed@.len(),
            atlas.packed@[p] == *t,
            4 * t.units@.len() + 4 <= usize::MAX,
            vertices@ == mesh_vertices(t.units@, k as nat),
            uvs@ == mesh_uvs(atlas, t.units@, k as nat),
            indices@ == mesh_indices(k as nat),
            vertices@.len() == 4 * k,
        decreases t.units@.len() - k,
    {
        let unit = &t.units[k];
        assert(atlas.packed@[p].units@[k as int] == *unit);
        let slot = find_slot(atlas, unit.hash);
        let uv_rect = atlas.rects[slot];
        build_quad(&mut vertices, &mut uvs, &mut indices, &unit.rect, &uv_rect);
        k += 1;
    }
    let rect = eval_rect(t, prefs.trim_transparent);
    DicedSprite {
        id: t.id.clone(),
        source: t.source,
        atlas_index: atlas_idx,
        vertices,
        uvs,
        indices,
        rect,
    }
}

/// The slot of the atlas that holds hash `h`.
fn find_slot(atlas: &Atlas, h: u64) -> (k: usize)
    requires
        atlas.hashes@.no_duplicates(),
        atlas.hashes@.contains(h),
    ensures
        k == slot_index(atlas, h),
        k < atlas.hashes@.len(),
{
    let ghost w = slot_index(atlas, h);
    let mut k: usize = 0;
    while k < atlas.hashes.len()
        invariant
            k <= atlas.hashes@.len(),
            w == slot_index(atlas, h),
            0 <= w < atlas.hashes@.len(),
            atlas.hashes@[w] == h,
            atlas.hashes@.no_duplicates(),
            forall|v: int| 0 <= v < k ==> atlas.hashes@[v] != h,
        decreases atlas.hashes@.len() - k,
    {
        if atlas.hashes[k] == h {
            assert(atlas.hashes@[k as int] == atlas.hashes@[w]);
            return k;
        }
        k += 1;
    }
    k
}

/// Appends the quad of a unit: its four corners, the atlas corners they sample and its two
/// triangles.
fn build_quad(
    vertices: &mut Vec<Point>,
    uvs: &mut Vec<Point>,
    indices: &mut Vec<usize>,
    unit_rect: &URect,
    uv_rect: &URect,
)
    requires
        old(vertices)@.len() + 4 <= usize::MAX,
    ensures
        final(vertices)@ == old(vertices)@ + corners(*unit_rect),
        final(uvs)@ == old(uvs)@ + corners(*uv_rect),
        final(indices)@ == old(indices)@ + quad_indices(old(vertices)@.len() as int),
{
    let i = vertices.len();
    push_corners(vertices, unit_rect);
    push_corners(uvs, uv_rect);
    indices.push(i);
    indices.push(i + 1);
    indices.push(i + 2);
    indices.push(i + 2);
    indices.push(i + 3);
    indices.push(i);
    assert(final(indices)@ =~= old(indices)@ + quad_indices(i as int));
}

/// Appends the corners of `r` in mesh order.
fn push_corners(points: &mut Vec<Point>, r: &URect)
    ensures
        final(points)@ == old(points)@ + corners(*r),
{
    let x_min = r.x as u64;
    let y_min = r.y as u64;
    let x_max = r.x as u64 + r.width as u64;
    let y_max = r.y as u64 + r.height as u64;
    points.push(Point { x: x_min, y: y_min });
    points.push(Point { x: x_min, y: y_max });
    points.push(Point { x: x_max, y: y_max });
    points.push(Point { x: x_max, y: y_min });
    assert(final(points)@ =~= old(points)@ + corners(*r));
}

/// Bounds of the sprite, see [sprite_rect].
fn eval_rect(t: &DicedTexture, trim: bool) -> (r: URect)
    requires
        t.units@.len() > 0,
        forall|u: int|
            0 <= u < t.units@.len() ==> {
                let unit = #[trigger] t.units@[u];
                &&& unit.rect.x + unit.rect.width <= t.size.width
                &&& unit.rect.y + unit.rect.height <= t.size.height
            },
    ensures
        r == sprite_rect(t, trim),
{
    if trim {
        eval_fit_rect(t)
    } else {
        URect { x: 0, y: 0, width: t.size.width, height: t.size.height }
    }
}

/// The rect that encloses every unit.
fn eval_fit_rect(t: &DicedTexture) -> (r: URect)
    requires
        t.units@.len() > 0,
        forall|u: int|
            0 <= u < t.units@.len() ==> {
                let unit = #[trigger] t.units@[u];
                &&& unit.rect.x + unit.rect.width <= t.size.width
                &&& unit.rect.y + unit.rect.height <= t.size.height
            },
    ensures
        r == sprite_rect(t, true),
{
    let units = &t.units;
    let first = units[0].rect;
    let mut lo_x = first.x;
    let mut lo_y = first.y;
    let mut hi_x = first.x + first.width;
    let mut hi_y = first.y + first.height;
    let mut k: usize = 1;
    while k < units.len()
        invariant
            1 <= k <= units@.len(),
            *units == t.units,
            forall|u: int|
                0 <= u < t.units@.len() ==> {
                    let unit = #[trigger] t.units@[u];
                    &&& unit.rect.x + unit.rect.width <= t.size.width
                    &&& unit.rect.y + unit.rect.height <= t.size.height
                },
            lo_x == min_x(units@, k as nat),
            lo_y == min_y(units@, k as nat),
            hi_x == max_x(units@, k as nat),
            hi_y == max_y(units@, k as nat),
            lo_x <= hi_x,
            lo_y <= hi_y,
        decreases units@.len() - k,
    {
        let r = units[k].rect;
        assert(units@[k as int].rect == r);
        if r.x < lo_x {
            lo_x = r.x;
        }
        if r.y < lo_y {
            lo_y = r.y;
        }
        if r.x + r.width > hi_x {
            hi_x = r.x + r.width;
        }
        if r.y + r.height > hi_y {
            hi_y = r.y + r.height;
        }
        k += 1;
    }
    URect { x: lo_x, y: lo_y, width: hi_x - lo_x, height: hi_y - lo_y }
}

} // verus!
