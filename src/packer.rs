//! Groups diced textures into atlases and bakes the distinct units of each group.
use crate::dicer::contains_hash;
use crate::models::{
    clear_pixel, DicedTexture, Error, Pixel, Prefs, Texture, URect, USize, CANT_FIT, LIMIT_ZERO,
    UNIT_ABOVE_LIMIT,
};
use vstd::arithmetic::div_mod::{
    lemma_div_is_ordered, lemma_fundamental_div_mod, lemma_fundamental_div_mod_converse,
    lemma_mod_pos_bound,
};
use vstd::prelude::*;

verus! {

/// Number of hashes of `t` that `group` lacks.
pub open spec fn new_count(t: DicedTexture, group: Seq<u64>) -> nat {
    t.unique@.filter(|h: u64| !group.contains(h)).len()
}

/// `group` followed by the hashes of `t` that it lacks, in the order of `t.unique`.
pub open spec fn add_hashes(group: Seq<u64>, t: DicedTexture) -> Seq<u64> {
    group + t.unique@.filter(|h: u64| !group.contains(h))
}

/// Index of the first texture of `rest` that lacks the fewest hashes of `group`.
pub open spec fn first_min(rest: Seq<DicedTexture>, group: Seq<u64>) -> int
    decreases rest.len(),
{
    if rest.len() <= 1 {
        0
    } else {
        let j = first_min(rest.drop_last(), group);
        if new_count(rest.last(), group) < new_count(rest[j], group) {
            rest.len() - 1
        } else {
            j
        }
    }
}

/// Greedy filling of one atlas holding at most `cap` units: while the texture of `rest` that
/// lacks the fewest hashes still fits, move it from `rest` to `packed` and add its hashes.
/// Gives the textures left, the hashes of the atlas and the packed textures.
pub open spec fn grow(rest: Seq<DicedTexture>, group: Seq<u64>, packed: Seq<DicedTexture>, cap: int) -> (
    Seq<DicedTexture>,
    Seq<u64>,
    Seq<DicedTexture>,
)
    decreases rest.len(),
{
    let i = first_min(rest, group);
    if 0 <= i < rest.len() && group.len() + new_count(rest[i], group) <= cap {
        grow(rest.remove(i), add_hashes(group, rest[i]), packed.push(rest[i]), cap)
    } else {
        (rest, group, packed)
    }
}

/// The groups, each as its hashes and its packed textures, that packing `rest` forms;
/// none when a group would admit no texture.
pub open spec fn pack_groups(rest: Seq<DicedTexture>, cap: int) -> Option<
    Seq<(Seq<u64>, Seq<DicedTexture>)>,
>
    decreases rest.len(),
{
    if rest.len() == 0 {
        Some(seq![])
    } else {
        let (left, group, packed) = grow(rest, seq![], seq![], cap);
        // A group that admits a texture leaves fewer textures behind.
        if packed.len() == 0 || left.len() >= rest.len() {
            None
        } else {
            match pack_groups(left, cap) {
                Some(gs) => Some(seq![(group, packed)] + gs),
                None => None,
            }
        }
    }
}

/// Units that fit along one side of an atlas.
pub open spec fn units_per_side(prefs: &Prefs) -> int {
    prefs.atlas_size_limit as int / prefs.padded_unit()
}

/// Most units that one atlas holds.
pub open spec fn capacity(prefs: &Prefs) -> int {
    units_per_side(prefs) * units_per_side(prefs)
}

/// Smallest `k >= from` with `k * k >= n`.
pub open spec fn sqrt_up(n: int, from: int) -> int
    decreases n - from,
{
    if from >= n || from * from >= n {
        from
    } else {
        sqrt_up(n, from + 1)
    }
}

/// Smallest power of two, starting from `p`, that is at least `v`.
pub open spec fn pow2_up(v: int, p: int) -> int
    decreases (if p < v { v - p } else { 0 }),
{
    if p <= 0 || p >= v {
        p
    } else {
        pow2_up(v, p * 2)
    }
}

/// Whether `v` is a power of two.
pub open spec fn is_pow2(v: int) -> bool
    decreases v,
{
    if v <= 0 {
        false
    } else if v == 1 {
        true
    } else {
        v % 2 == 0 && is_pow2(v / 2)
    }
}

/// Rows needed for `n` units laid in `c` columns.
pub open spec fn rows_for(n: int, c: int) -> int {
    (n + c - 1) / c
}

/// Distance of a `c`-column layout of `n` units from a square.
pub open spec fn skew(n: int, c: int) -> int {
    if c >= rows_for(n, c) {
        c - rows_for(n, c)
    } else {
        rows_for(n, c) - c
    }
}

/// Whether `c` columns lay out `n` units better than `b` columns: a smaller area, or the
/// same area closer to a square.
pub open spec fn better_cols(n: int, c: int, b: int) -> bool {
    c * rows_for(n, c) < b * rows_for(n, b) || (c * rows_for(n, c) == b * rows_for(n, b) && skew(n, c)
        < skew(n, b))
}

/// The best column count among `1..=c` whose row count stays within `m`; 0 when none does.
/// The first of equally good counts wins.
pub open spec fn best_cols(n: int, m: int, c: int) -> int
    decreases c,
{
    if c <= 0 {
        0
    } else {
        let b = best_cols(n, m, c - 1);
        if rows_for(n, c) <= m && (b == 0 || better_cols(n, c, b)) {
            c
        } else {
            b
        }
    }
}

/// Width and height of an atlas that holds `n` units.
pub open spec fn atlas_size(n: int, prefs: &Prefs) -> (int, int) {
    let pp = prefs.padded_unit();
    let m = units_per_side(prefs);
    if n == 0 {
        (1, 1)
    } else if prefs.atlas_pot {
        let side = pow2_up(sqrt_up(n, 0) * pp, 1);
        (side, side)
    } else if prefs.atlas_square {
        let side = sqrt_up(n, 0) * pp;
        (side, side)
    } else {
        let c = best_cols(n, m, if m < n { m } else { n });
        (c * pp, rows_for(n, c) * pp)
    }
}

/// Product of packing diced textures.
#[derive(Debug, Clone)]
pub struct Atlas {
    /// The atlas texture holding the distinct units of the packed textures.
    pub texture: Texture,
    /// Hashes of the units on the atlas, in slot order.
    pub hashes: Vec<u64>,
    /// Rect of each unit's unpadded pixels on the atlas texture, in slot order.
    pub rects: Vec<URect>,
    /// Diced textures packed into this atlas, in admission order.
    pub packed: Vec<DicedTexture>,
}

/// Slot `i` of an atlas `cols` slots wide holds a unit of `t`, whose padded pixels fill the
/// slot and whose stored size is that of the slot's rect.
pub open spec fn slot_holds(a: &Atlas, i: int, cols: int, pp: int, pad: int, t: int, u: int) -> bool {
    let unit = a.packed@[t].units@[u];
    let x0 = (i % cols) * pp;
    let y0 = (i / cols) * pp;
    &&& 0 <= t < a.packed@.len()
    &&& 0 <= u < a.packed@[t].units@.len()
    &&& 0 <= x0 && x0 + pp <= a.texture.width
    &&& 0 <= y0 && y0 + pp <= a.texture.height
    &&& unit.hash == a.hashes@[i]
    &&& a.rects@[i] == (URect {
        x: (x0 + pad) as u32,
        y: (y0 + pad) as u32,
        width: unit.rect.width,
        height: unit.rect.height,
    })
    &&& forall|j: int|
        0 <= j < pp * pp ==> a.texture.at(x0 + j % pp, y0 + j / pp) == #[trigger] unit.pixels@[j]
}

/// Every unit of every packed texture has its hash on the atlas.
pub open spec fn covers(a: &Atlas) -> bool {
    forall|t: int, u: int|
        0 <= t < a.packed@.len() && 0 <= u < a.packed@[t].units@.len() ==> a.hashes@.contains(
            #[trigger] a.packed@[t].units@[u].hash,
        )
}

/// Slot `i` holds a unit of one of the packed textures.
pub open spec fn slot_filled(a: &Atlas, i: int, cols: int, pp: int, pad: int) -> bool {
    exists|t: int, u: int| #[trigger] slot_holds(a, i, cols, pp, pad, t, u)
}

/// A diced texture whose units have the shape that `prefs` gives.
pub open spec fn shaped(t: DicedTexture, prefs: &Prefs) -> bool {
    &&& t.unique_wf()
    &&& 4 * t.units@.len() + 4 <= usize::MAX
    &&& forall|u: int|
        0 <= u < t.units@.len() ==> {
            let unit = #[trigger] t.units@[u];
            &&& unit.pixels@.len() == prefs.padded_unit() * prefs.padded_unit()
            &&& unit.rect.width <= prefs.unit_size
            &&& unit.rect.height <= prefs.unit_size
            &&& unit.rect.x + unit.rect.width <= t.size.width
            &&& unit.rect.y + unit.rect.height <= t.size.height
        }
}

/// `a` is an atlas baked with `prefs`.
pub open spec fn baked(a: &Atlas, prefs: &Prefs) -> bool {
    let pp = prefs.padded_unit();
    let n = a.hashes@.len() as int;
    let cols = a.texture.width as int / pp;
    &&& a.texture.wf()
    &&& n <= capacity(prefs)
    &&& (a.texture.width as int, a.texture.height as int) == atlas_size(n, prefs)
    &&& a.hashes@.no_duplicates()
    &&& a.rects@.len() == n
    &&& forall|i: int| 0 <= i < n ==> #[trigger] slot_filled(a, i, cols, pp, prefs.padding as int)
    &&& forall|q: int|
        0 <= q < a.texture.pixels@.len() && !in_slots(q, a.texture.width as int, cols, pp, n)
            ==> #[trigger] a.texture.pixels@[q] == clear_pixel()
}

/// Index of the slot that covers the atlas pixel with index `q`, for an atlas `w` pixels wide
/// and `cols` slots wide.
pub open spec fn slot_of(q: int, w: int, cols: int, pp: int) -> int {
    (q % w) / pp + ((q / w) / pp) * cols
}

/// Whether one of the first `n` slots covers the atlas pixel with index `q`.
pub open spec fn in_slots(q: int, w: int, cols: int, pp: int, n: int) -> bool {
    (q % w) / pp < cols && slot_of(q, w, cols, pp) < n
}

/// Preferences that packing accepts, besides the checked limits.
pub open spec fn pack_ok(prefs: &Prefs) -> bool {
    &&& prefs.unit_size >= 1
    &&& prefs.padding <= prefs.unit_size
    &&& prefs.fits_machine()
}

/// Packs diced textures into atlases, each group of textures sharing one atlas.
pub fn pack(diced: Vec<DicedTexture>, prefs: &Prefs) -> (r: Result<Vec<Atlas>, Error>)
    requires
        pack_ok(prefs),
        forall|i: int| 0 <= i < diced@.len() ==> shaped(#[trigger] diced@[i], prefs),
    ensures
        prefs.atlas_size_limit == 0 ==> r == Err::<Vec<Atlas>, Error>(Error::Spec(LIMIT_ZERO)),
        prefs.atlas_size_limit != 0 && prefs.unit_size > prefs.atlas_size_limit ==> r == Err::<
            Vec<Atlas>,
            Error,
        >(Error::Spec(UNIT_ABOVE_LIMIT)),
        1 <= prefs.unit_size <= prefs.atlas_size_limit ==> {
            &&& r is Err <==> pack_groups(diced@, capacity(prefs)) is None
            &&& r is Err ==> r == Err::<Vec<Atlas>, Error>(Error::Spec(CANT_FIT))
        },
        r matches Ok(atlases) ==> {
            &&& pack_groups(diced@, capacity(prefs)) == Some(
                atlases@.map_values(|a: Atlas| (a.hashes@, a.packed@)),
            )
            &&& forall|k: int| 0 <= k < atlases@.len() ==> baked(#[trigger] &atlases@[k], prefs)
            &&& forall|k: int| 0 <= k < atlases@.len() ==> covers(#[trigger] &atlases@[k])
            &&& forall|k: int, t: int|
                0 <= k < atlases@.len() && 0 <= t < atlases@[k].packed@.len() ==> shaped(
                    #[trigger] atlases@[k].packed@[t],
                    prefs,
                )
        },
{
    if prefs.atlas_size_limit == 0 {
        return Err(Error::Spec(LIMIT_ZERO));
    }
    if prefs.unit_size > prefs.atlas_size_limit {
        return Err(Error::Spec(UNIT_ABOVE_LIMIT));
    }
    let pp = prefs.unit_size + prefs.padding * 2;
    let m = prefs.atlas_size_limit / pp;
    assert(m as int * m as int <= u64::MAX) by (nonlinear_arith)
        requires
            m <= u32::MAX,
    ;
    let cap = m as u64 * m as u64;
    let ghost all = diced@;
    let mut rest = diced;
    let mut atlases: Vec<Atlas> = Vec::new();
    while rest.len() > 0
        invariant
            all == diced@,
            pack_ok(prefs),
            1 <= prefs.unit_size <= prefs.atlas_size_limit,
            pp == prefs.padded_unit(),
            m == units_per_side(prefs),
            cap == capacity(prefs),
            forall|i: int| 0 <= i < rest@.len() ==> shaped(#[trigger] rest@[i], prefs),
            forall|k: int| 0 <= k < atlases@.len() ==> baked(#[trigger] &atlases@[k], prefs),
            forall|k: int| 0 <= k < atlases@.len() ==> covers(#[trigger] &atlases@[k]),
            forall|k: int, t: int|
                0 <= k < atlases@.len() && 0 <= t < atlases@[k].packed@.len() ==> shaped(
                    #[trigger] atlases@[k].packed@[t],
                    prefs,
                ),
            pack_groups(all, cap as int) == match pack_groups(rest@, cap as int) {
                Some(gs) => Some(atlases@.map_values(|a: Atlas| (a.hashes@, a.packed@)) + gs),
                None => None::<Seq<(Seq<u64>, Seq<DicedTexture>)>>,
            },
        decreases rest@.len(),
    {
        let ghost before = rest@;
        match pack_next(&mut rest, prefs, cap) {
            Ok(atlas) => {
                let ghost done = atlases@.map_values(|a: Atlas| (a.hashes@, a.packed@));
                atlases.push(atlas);
                assert(atlases@.map_values(|a: Atlas| (a.hashes@, a.packed@)) =~= done.push(
                    (atlas.hashes@, atlas.packed@),
                ));
                proof {
                    match pack_groups(rest@, cap as int) {
                        Some(gs) => {
                            assert(done + (seq![(atlas.hashes@, atlas.packed@)] + gs) =~= done.push(
                                (atlas.hashes@, atlas.packed@),
                            ) + gs);
                        },
                        None => {},
                    }
                }
            },
            Err(e) => {
                let ghost res = grow(before, seq![], seq![], cap as int);
                assert(res.2.len() == 0);
                assert(pack_groups(before, cap as int) is None);
                assert(pack_groups(all, cap as int) is None);
                return Err(e);
            },
        }
    }
    assert(atlases@.map_values(|a: Atlas| (a.hashes@, a.packed@)) + seq![] =~= atlases@.map_values(
        |a: Atlas| (a.hashes@, a.packed@),
    ));
    Ok(atlases)
}

/// Reference to a diced unit: the index of its texture among the packed ones and its own index.
struct UnitRef {
    texture_idx: usize,
    unit_idx: usize,
}

impl UnitRef {
    fn new(texture_idx: usize, unit_idx: usize) -> (r: UnitRef)
        ensures
            r.texture_idx == texture_idx,
            r.unit_idx == unit_idx,
    {
        UnitRef { texture_idx, unit_idx }
    }
}

/// Each reference of `refs` points at a unit of `packed` whose hash is the same-index hash of
/// `group`.
spec fn refs_ok(refs: Seq<UnitRef>, group: Seq<u64>, packed: Seq<DicedTexture>) -> bool {
    &&& refs.len() == group.len()
    &&& forall|k: int|
        0 <= k < refs.len() ==> {
            let r = #[trigger] refs[k];
            &&& r.texture_idx < packed.len()
            &&& r.unit_idx < packed[r.texture_idx as int].units@.len()
            &&& packed[r.texture_idx as int].units@[r.unit_idx as int].hash == group[k]
        }
}

/// Forms the next group from `rest` and bakes its atlas; the packed textures leave `rest`.
fn pack_next(rest: &mut Vec<DicedTexture>, prefs: &Prefs, cap: u64) -> (r: Result<Atlas, Error>)
    requires
        pack_ok(prefs),
        1 <= prefs.unit_size <= prefs.atlas_size_limit,
        cap == capacity(prefs),
        old(rest)@.len() > 0,
        forall|i: int| 0 <= i < old(rest)@.len() ==> shaped(#[trigger] old(rest)@[i], prefs),
    ensures
        ({
            let (left, group, packed) = grow(old(rest)@, seq![], seq![], cap as int);
            &&& packed.len() == 0 ==> r == Err::<Atlas, Error>(Error::Spec(CANT_FIT)) && final(rest)@
                == old(rest)@
            &&& packed.len() != 0 ==> (r matches Ok(a) && a.hashes@ == group && a.packed@ == packed
                && baked(&a, prefs) && covers(&a) && (forall|t: int|
                0 <= t < a.packed@.len() ==> shaped(#[trigger] a.packed@[t], prefs))
                && final(rest)@ == left && left.len() < old(rest)@.len())
        }),
        forall|i: int| 0 <= i < final(rest)@.len() ==> shaped(#[trigger] final(rest)@[i], prefs),
{
    let ghost start = rest@;
    let mut group: Vec<u64> = Vec::new();
    let mut refs: Vec<UnitRef> = Vec::new();
    let mut packed: Vec<DicedTexture> = Vec::new();
    let mut pick = find_packable_texture(rest, &group, cap);
    while pick.is_some()
        invariant
            pack_ok(prefs),
            cap == capacity(prefs),
            pick == pick_of(rest@, group@, cap as int),
            grow(rest@, group@, packed@, cap as int) == grow(start, seq![], seq![], cap as int),
            rest@.len() + packed@.len() == start.len(),
            packed@.len() == 0 ==> rest@ == start,
            group@.len() <= cap,
            group@.no_duplicates(),
            refs_ok(refs@, group@, packed@),
            forall|i: int| 0 <= i < rest@.len() ==> shaped(#[trigger] rest@[i], prefs),
            forall|i: int| 0 <= i < packed@.len() ==> shaped(#[trigger] packed@[i], prefs),
            forall|p: int, h: u64|
                0 <= p < packed@.len() && #[trigger] packed@[p].unique@.contains(h) ==> group@.contains(
                    h,
                ),
        decreases rest@.len(),
    {
        let i = pick.unwrap();
        let len = rest.len();
        let ghost before = rest@;
        let ghost g_before = group@;
        let ghost p_before = packed@;
        let t = rest.remove(i);
        assert forall|j: int| 0 <= j < rest@.len() implies shaped(#[trigger] rest@[j], prefs) by {
            if j < i {
                assert(rest@[j] == before[j]);
            } else {
                assert(rest@[j] == before[j + 1]);
            }
        }
        add_units(&mut group, &mut refs, &t, packed.len(), &packed);
        packed.push(t);
        proof {
            assert(pick_of(before, g_before, cap as int) == Some(i));
            lemma_first_min_range(before, g_before);
            assert(first_min(before, g_before) == i as int);
            assert(grow(before, g_before, p_before, cap as int) == grow(
                before.remove(i as int),
                add_hashes(g_before, before[i as int]),
                p_before.push(before[i as int]),
                cap as int,
            ));
            assert(group@.len() == g_before.len() + new_count(t, g_before));
            lemma_add_hashes_covers(g_before, t);
            assert forall|p: int, h: u64|
                0 <= p < packed@.len() && #[trigger] packed@[p].unique@.contains(h) implies group@.contains(
                h,
            ) by {
                if p < p_before.len() {
                    assert(packed@[p] == p_before[p]);
                    assert(g_before.contains(h));
                }
            }
        }
        pick = find_packable_texture(rest, &group, cap);
    }
    proof {
        assert(grow(rest@, group@, packed@, cap as int) == (rest@, group@, packed@));
    }
    if packed.len() == 0 {
        return Err(Error::Spec(CANT_FIT));
    }
    let size = eval_atlas_size(prefs, group.len() as u64);
    let baked_atlas = bake_atlas(prefs, &group, &refs, &packed, size);
    let atlas = Atlas { texture: baked_atlas.0, hashes: group, rects: baked_atlas.1, packed };
    proof {
        lemma_baked(&atlas, prefs, refs@);
        assert forall|t: int, u: int|
            0 <= t < atlas.packed@.len() && 0 <= u < atlas.packed@[t].units@.len() implies atlas.hashes@.contains(
            #[trigger] atlas.packed@[t].units@[u].hash,
        ) by {
            let d = atlas.packed@[t];
            let h = d.units@[u].hash;
            assert(d.hashes()[u] == h);
            assert(d.hashes().to_set().contains(h));
            assert(d.unique@.to_set().contains(h));
            assert(d.unique@.contains(h));
        }
    }
    proof {
        let res = grow(start, seq![], seq![], cap as int);
        assert(res.0 == rest@);
        assert(res.1 == atlas.hashes@);
        assert(res.2 == atlas.packed@);
        assert(baked(&atlas, prefs));
    }
    Ok(atlas)
}

/// `add_hashes` keeps the hashes of `group` and holds those of `t`.
proof fn lemma_add_hashes_covers(group: Seq<u64>, t: DicedTexture)
    ensures
        forall|h: u64| group.contains(h) ==> #[trigger] add_hashes(group, t).contains(h),
        forall|h: u64| t.unique@.contains(h) ==> #[trigger] add_hashes(group, t).contains(h),
{
    let lacks = |h: u64| !group.contains(h);
    let f = t.unique@.filter(lacks);
    let all = add_hashes(group, t);
    assert forall|h: u64| group.contains(h) implies #[trigger] all.contains(h) by {
        let q = choose|q: int| 0 <= q < group.len() && group[q] == h;
        assert(all[q] == h);
    }
    assert forall|h: u64| t.unique@.contains(h) implies #[trigger] all.contains(h) by {
        if !group.contains(h) {
            let q = choose|q: int| 0 <= q < t.unique@.len() && t.unique@[q] == h;
            broadcast use vstd::seq_lib::group_filter_ensures;
            assert(f.contains(h));
            let r = choose|r: int| 0 <= r < f.len() && f[r] == h;
            assert(all[group.len() + r] == h);
        } else {
            let q = choose|q: int| 0 <= q < group.len() && group[q] == h;
            assert(all[q] == h);
        }
    }
}

/// An atlas whose every slot holds the unit that `refs` points at is baked.
proof fn lemma_baked(a: &Atlas, prefs: &Prefs, refs: Seq<UnitRef>)
    requires
        a.texture.wf(),
        a.hashes@.len() <= capacity(prefs),
        (a.texture.width as int, a.texture.height as int) == atlas_size(a.hashes@.len() as int, prefs),
        a.hashes@.no_duplicates(),
        a.rects@.len() == a.hashes@.len(),
        refs.len() == a.hashes@.len(),
        forall|i: int|
            0 <= i < a.hashes@.len() ==> #[trigger] slot_holds(
                a,
                i,
                a.texture.width as int / prefs.padded_unit(),
                prefs.padded_unit(),
                prefs.padding as int,
                refs[i].texture_idx as int,
                refs[i].unit_idx as int,
            ),
        forall|q: int|
            0 <= q < a.texture.pixels@.len() && !in_slots(
                q,
                a.texture.width as int,
                a.texture.width as int / prefs.padded_unit(),
                prefs.padded_unit(),
                a.hashes@.len() as int,
            ) ==> #[trigger] a.texture.pixels@[q] == clear_pixel(),
    ensures
        baked(a, prefs),
{
    let pp = prefs.padded_unit();
    let n = a.hashes@.len() as int;
    let cols = a.texture.width as int / pp;
    assert forall|i: int| 0 <= i < n implies #[trigger] slot_filled(a, i, cols, pp, prefs.padding as int) by {
        assert(slot_holds(
            a,
            i,
            cols,
            pp,
            prefs.padding as int,
            refs[i].texture_idx as int,
            refs[i].unit_idx as int,
        ));
    }
}

/// The texture `grow` admits next, if any.
spec fn pick_of(rest: Seq<DicedTexture>, group: Seq<u64>, cap: int) -> Option<usize> {
    let i = first_min(rest, group);
    if 0 <= i < rest.len() && group.len() + new_count(rest[i], group) <= cap {
        Some(i as usize)
    } else {
        None
    }
}

/// `first_min` of a non-empty sequence is one of its indices.
proof fn lemma_first_min_range(rest: Seq<DicedTexture>, group: Seq<u64>)
    requires
        rest.len() >= 1,
    ensures
        0 <= first_min(rest, group) < rest.len(),
    decreases rest.len(),
{
    if rest.len() > 1 {
        lemma_first_min_range(rest.drop_last(), group);
    }
}

/// Finds the texture that lacks the fewest hashes of `group` and still fits the atlas.
fn find_packable_texture(rest: &Vec<DicedTexture>, group: &Vec<u64>, cap: u64) -> (r: Option<usize>)
    requires
        group@.len() <= cap,
    ensures
        r == pick_of(rest@, group@, cap as int),
{
    if rest.len() == 0 {
        return None;
    }
    let mut best: usize = 0;
    let mut best_count = count_new(&rest[0], group);
    let mut j: usize = 1;
    assert(rest@.take(1).len() == 1);
    while j < rest.len()
        invariant
            1 <= j <= rest@.len(),
            best == first_min(rest@.take(j as int), group@),
            best < j,
            best_count == new_count(rest@[best as int], group@),
        decreases rest@.len() - j,
    {
        let c = count_new(&rest[j], group);
        let ghost prefix = rest@.take(j + 1);
        assert(prefix.drop_last() =~= rest@.take(j as int));
        assert(prefix[best as int] == rest@[best as int]);
        if c < best_count {
            best = j;
            best_count = c;
        }
        j += 1;
    }
    assert(rest@.take(rest@.len() as int) =~= rest@);
    proof {
        lemma_first_min_range(rest@, group@);
    }
    if best_count <= cap - group.len() as u64 {
        Some(best)
    } else {
        None
    }
}

/// Number of hashes of `t` that `group` lacks.
fn count_new(t: &DicedTexture, group: &Vec<u64>) -> (n: u64)
    ensures
        n == new_count(*t, group@),
{
    let mut n: u64 = 0;
    let mut i: usize = 0;
    let ghost lacks = |h: u64| !group@.contains(h);
    while i < t.unique.len()
        invariant
            i <= t.unique@.len(),
            lacks == (|h: u64| !group@.contains(h)),
            n == t.unique@.take(i as int).filter(lacks).len(),
            n <= i,
        decreases t.unique@.len() - i,
    {
        let h = t.unique[i];
        assert(t.unique@.take(i + 1) =~= t.unique@.take(i as int).push(h));
        proof {
            t.unique@.take(i as int).lemma_filter_push(h, lacks);
        }
        if !contains_hash(group, h) {
            n += 1;
        }
        i += 1;
    }
    assert(t.unique@.take(t.unique@.len() as int) =~= t.unique@);
    n
}

/// Index of a unit of `t` with hash `h`.
fn find_unit(t: &DicedTexture, h: u64) -> (u: usize)
    requires
        t.unique_wf(),
        t.unique@.contains(h),
    ensures
        u < t.units@.len(),
        t.units@[u as int].hash == h,
{
    assert(t.unique@.to_set().contains(h));
    assert(t.hashes().to_set().contains(h));
    let ghost w = choose|w: int| 0 <= w < t.hashes().len() && t.hashes()[w] == h;
    let mut u: usize = 0;
    while u < t.units.len()
        invariant
            u <= t.units@.len(),
            0 <= w < t.units@.len(),
            t.units@[w].hash == h,
            forall|v: int| 0 <= v < u ==> t.units@[v].hash != h,
        decreases t.units@.len() - u,
    {
        if t.units[u].hash == h {
            return u;
        }
        u += 1;
    }
    u
}

/// Appends to `group` the hashes of `t` that it lacks, each with a reference to its unit;
/// `t` is to be packed at index `t_idx`.
fn add_units(
    group: &mut Vec<u64>,
    refs: &mut Vec<UnitRef>,
    t: &DicedTexture,
    t_idx: usize,
    packed: &Vec<DicedTexture>,
)
    requires
        t.unique_wf(),
        t_idx == packed@.len(),
        old(group)@.no_duplicates(),
        refs_ok(old(refs)@, old(group)@, packed@),
    ensures
        final(group)@ == add_hashes(old(group)@, *t),
        final(group)@.no_duplicates(),
        refs_ok(final(refs)@, final(group)@, packed@.push(*t)),
{
    let ghost g0 = group@;
    let ghost lacks = |h: u64| !g0.contains(h);
    let ghost ext = packed@.push(*t);
    let mut i: usize = 0;
    assert forall|k: int| 0 <= k < refs@.len() implies {
        let r = #[trigger] refs@[k];
        &&& r.texture_idx < ext.len()
        &&& r.unit_idx < ext[r.texture_idx as int].units@.len()
        &&& ext[r.texture_idx as int].units@[r.unit_idx as int].hash == group@[k]
    } by {
        assert(ext[refs@[k].texture_idx as int] == packed@[refs@[k].texture_idx as int]);
    }
    while i < t.unique.len()
        invariant
            i <= t.unique@.len(),
            t.unique_wf(),
            t_idx == packed@.len(),
            ext == packed@.push(*t),
            lacks == (|h: u64| !g0.contains(h)),
            group@ == g0 + t.unique@.take(i as int).filter(lacks),
            group@.no_duplicates(),
            refs_ok(refs@, group@, ext),
        decreases t.unique@.len() - i,
    {
        let h = t.unique[i];
        let ghost taken = t.unique@.take(i as int);
        assert(t.unique@.take(i + 1) =~= taken.push(h));
        proof {
            taken.lemma_filter_push(h, lacks);
            // `h` is not among the hashes taken before it.
            assert forall|q: int| 0 <= q < taken.filter(lacks).len() implies taken.filter(lacks)[q]
                != h by {
                let f = taken.filter(lacks);
                assert(f.contains(f[q]));
                taken.lemma_filter_contains_rev(lacks, f[q]);
                assert(taken.contains(f[q]));
                let p = choose|p: int| 0 <= p < taken.len() && taken[p] == taken.filter(lacks)[q];
                assert(t.unique@[p] == taken[p]);
            }
        }
        if !contains_hash(group, h) {
            let ghost before = group@;
            let u = find_unit(t, h);
            group.push(h);
            refs.push(UnitRef::new(t_idx, u));
            proof {
                assert(!g0.contains(h)) by {
                    if g0.contains(h) {
                        let q = choose|q: int| 0 <= q < g0.len() && g0[q] == h;
                        assert(before[q] == h);
                    }
                }
                assert(group@ =~= g0 + t.unique@.take(i + 1).filter(lacks));
                assert forall|a: int, b: int|
                    0 <= a < group@.len() && 0 <= b < group@.len() && a != b implies group@[a]
                    != group@[b] by {
                    if a == before.len() as int {
                        assert(before[b] == group@[b]);
                        if group@[b] == h {
                            assert(before.contains(h));
                        }
                    }
                    if b == before.len() as int {
                        assert(before[a] == group@[a]);
                        if group@[a] == h {
                            assert(before.contains(h));
                        }
                    }
                }
                assert(ext[t_idx as int] == *t);
            }
        } else {
            proof {
                assert(g0.contains(h)) by {
                    let q = choose|q: int| 0 <= q < group@.len() && group@[q] == h;
                    if q >= g0.len() {
                        let fq = q - g0.len();
                        assert(taken.filter(lacks)[fq] == h);
                    } else {
                        assert(g0[q] == h);
                    }
                }
                assert(group@ =~= g0 + t.unique@.take(i + 1).filter(lacks));
            }
        }
        i += 1;
    }
    assert(t.unique@.take(t.unique@.len() as int) =~= t.unique@);
}

/// Width and height of an atlas for `n` units.
fn eval_atlas_size(prefs: &Prefs, n: u64) -> (r: USize)
    requires
        pack_ok(prefs),
        1 <= prefs.unit_size <= prefs.atlas_size_limit,
        n <= capacity(prefs),
    ensures
        (r.width as int, r.height as int) == atlas_size(n as int, prefs),
        r.width >= 1,
        r.height >= 1,
        r.width <= 2 * prefs.atlas_size_limit,
        r.height <= 2 * prefs.atlas_size_limit,
        n > 0 ==> r.width as int / prefs.padded_unit() >= 1 && (r.width as int / prefs.padded_unit()) * (
        r.height as int / prefs.padded_unit()) >= n,
{
    if n == 0 {
        return USize::new(1, 1);
    }
    let pp = prefs.unit_size + prefs.padding * 2;
    let m = prefs.atlas_size_limit / pp;
    let ghost g = n as int;
    let ghost ppi = pp as int;
    let ghost limit = prefs.atlas_size_limit as int;
    proof {
        lemma_fundamental_div_mod(limit, ppi);
        lemma_mod_pos_bound(limit, ppi);
        assert(m * ppi <= limit) by (nonlinear_arith)
            requires
                limit == ppi * m + limit % ppi,
                limit % ppi >= 0,
        ;
        assert(m >= 1) by (nonlinear_arith)
            requires
                g <= m * m,
                g >= 1,
                m >= 0,
        ;
        assert(m * m <= u64::MAX) by (nonlinear_arith)
            requires
                m <= u32::MAX,
        ;
        assert(limit < 0x8000_0000) by (nonlinear_arith)
            requires
                4 * limit * limit <= usize::MAX,
                usize::MAX <= u64::MAX,
                limit >= 0,
        ;
    }
    let mut k: u64 = 0;
    while k * k < n
        invariant
            sqrt_up(g, k as int) == sqrt_up(g, 0),
            k <= m,
            k * k <= m * m,
            m * m <= u64::MAX,
            m as int * m as int >= g,
            g >= 1,
            g == n,
        decreases n - k,
    {
        assert(k + 1 <= m && k < g) by (nonlinear_arith)
            requires
                k * k < g,
                m * m >= g,
                k <= m,
                g >= 1,
        ;
        assert((k + 1) * (k + 1) <= m * m) by (nonlinear_arith)
            requires
                k + 1 <= m,
                k >= 0,
        ;
        k += 1;
    }
    assert(k * ppi <= m * ppi) by (nonlinear_arith)
        requires
            k <= m,
            ppi >= 1,
    ;
    let side = k * pp as u64;
    if prefs.atlas_pot {
        let mut p: u64 = 1;
        while p < side
            invariant
                pow2_up(side as int, p as int) == pow2_up(side as int, 1),
                1 <= p,
                p == 1 || p < 2 * side,
                side <= limit,
                limit < 0x8000_0000,
            decreases (if p < side { side - p } else { 0 }),
        {
            p = p * 2;
        }
        assert(side >= 1) by (nonlinear_arith)
            requires
                side == k * ppi,
                k * k >= g,
                g >= 1,
                ppi >= 1,
        ;
        proof {
            lemma_slots_cover(g, k as int, ppi, p as int);
        }
        return USize::new(p as u32, p as u32);
    }
    if prefs.atlas_square {
        assert(side >= 1) by (nonlinear_arith)
            requires
                side == k * ppi,
                k * k >= g,
                g >= 1,
                ppi >= 1,
        ;
        proof {
            lemma_slots_cover(g, k as int, ppi, side as int);
        }
        return USize::new(side as u32, side as u32);
    }
    let top = if (m as u64) < n { m as u64 } else { n };
    let mut best: u64 = 0;
    let mut best_area: u64 = 0;
    let mut best_skew: u64 = 0;
    let mut c: u64 = 1;
    while c <= top
        invariant
            1 <= c <= top + 1,
            top == (if m < g { m as int } else { g }),
            g >= 1,
            m as int * m as int >= g,
            best == best_cols(g, m as int, c - 1),
            best == 0 || (1 <= best < c && rows_for(g, best as int) <= m && best_area == best
                * rows_for(g, best as int) && best_skew == skew(g, best as int)),
            c > top ==> best >= 1,
            g == n,
            m <= u32::MAX,
        decreases top + 1 - c,
    {
        let rows = (n - 1) / c + 1;
        proof {
            lemma_rows_for(g, c as int);
        }
        if rows <= m as u64 {
            assert(c * rows <= m * m && m * m <= u64::MAX) by (nonlinear_arith)
                requires
                    c <= top,
                    top <= m,
                    rows <= m,
                    m <= u32::MAX,
            ;
            let area = c * rows;
            let sk = if c >= rows { c - rows } else { rows - c };
            if best == 0 || area < best_area || (area == best_area && sk < best_skew) {
                best = c;
                best_area = area;
                best_skew = sk;
            }
        } else {
            proof {
                if c == top {
                    if m < g {
                        lemma_rows_fit(g, m as int);
                    } else {
                        lemma_fundamental_div_mod_converse(2 * g - 1, g, 1, g - 1);
                    }
                }
            }
        }
        c += 1;
    }
    let rows = (n - 1) / best + 1;
    proof {
        lemma_rows_for(g, best as int);
    }
    assert(best * ppi <= m * ppi && rows * ppi <= m * ppi) by (nonlinear_arith)
        requires
            best <= m,
            rows <= m,
            ppi >= 1,
    ;
    proof {
        lemma_grid_cover(g, best as int, ppi);
    }
    USize::new((best * pp as u64) as u32, (rows * pp as u64) as u32)
}

/// The rows that `n` units need in `c` columns, in a form free of overflow.
proof fn lemma_rows_for(n: int, c: int)
    requires
        n >= 1,
        c >= 1,
    ensures
        rows_for(n, c) == (n - 1) / c + 1,
{
    lemma_fundamental_div_mod(n - 1, c);
    lemma_mod_pos_bound(n - 1, c);
    assert(((n - 1) / c + 1) * c == c * ((n - 1) / c) + c) by (nonlinear_arith);
    lemma_fundamental_div_mod_converse(n - 1 + c, c, (n - 1) / c + 1, (n - 1) % c);
}

/// With `m * m >= n`, `m` columns leave at most `m` rows.
proof fn lemma_rows_fit(n: int, m: int)
    requires
        1 <= m,
        1 <= n <= m * m,
    ensures
        rows_for(n, m) <= m,
{
    lemma_fundamental_div_mod(n + m - 1, m);
    lemma_mod_pos_bound(n + m - 1, m);
    let q = rows_for(n, m);
    assert(q <= m) by (nonlinear_arith)
        requires
            m * q + (n + m - 1) % m == n + m - 1,
            (n + m - 1) % m >= 0,
            n <= m * m,
            m >= 1,
    ;
}

/// A `c`-column grid of `rows_for(n, c)` rows of side `pp` has room for `n` slots.
proof fn lemma_grid_cover(n: int, c: int, pp: int)
    requires
        n >= 1,
        c >= 1,
        pp >= 1,
    ensures
        (c * pp) / pp == c,
        (rows_for(n, c) * pp) / pp == rows_for(n, c),
        c * rows_for(n, c) >= n,
{
    lemma_fundamental_div_mod_converse(c * pp, pp, c, 0);
    lemma_fundamental_div_mod_converse(rows_for(n, c) * pp, pp, rows_for(n, c), 0);
    lemma_fundamental_div_mod(n + c - 1, c);
    lemma_mod_pos_bound(n + c - 1, c);
    let q = rows_for(n, c);
    assert(c * q >= n) by (nonlinear_arith)
        requires
            c * q + (n + c - 1) % c == n + c - 1,
            (n + c - 1) % c < c,
    ;
}

/// A square atlas of side `side >= k * pp`, with `k * k >= n`, has room for `n` slots.
proof fn lemma_slots_cover(n: int, k: int, pp: int, side: int)
    requires
        n >= 1,
        k * k >= n,
        k >= 0,
        pp >= 1,
        side >= k * pp,
    ensures
        side / pp >= 1,
        (side / pp) * (side / pp) >= n,
{
    lemma_fundamental_div_mod_converse(k * pp, pp, k, 0);
    lemma_div_is_ordered(k * pp, side, pp);
    let d = side / pp;
    assert(k >= 1) by (nonlinear_arith)
        requires
            k * k >= n,
            n >= 1,
            k >= 0,
    ;
    assert(d * d >= k * k) by (nonlinear_arith)
        requires
            d >= k,
            k >= 0,
    ;
}

/// Splits a pixel index of a `w`-wide texture into its column and row.
proof fn lemma_flat(x: int, y: int, w: int)
    requires
        0 <= x < w,
        0 <= y,
    ensures
        (x + y * w) % w == x,
        (x + y * w) / w == y,
{
    lemma_fundamental_div_mod_converse(x + y * w, w, y, x);
}

/// The padded pixels of the unit that `refs[s]` points at.
spec fn slot_pixels(packed: Seq<DicedTexture>, refs: Seq<UnitRef>, s: int) -> Seq<Pixel> {
    packed[refs[s].texture_idx as int].units@[refs[s].unit_idx as int].pixels@
}

/// Lays the referenced units into an atlas of the given size, one slot each, and gives the
/// texture and each unit's rect on it.
fn bake_atlas(
    prefs: &Prefs,
    group: &Vec<u64>,
    refs: &Vec<UnitRef>,
    packed: &Vec<DicedTexture>,
    size: USize,
) -> (r: (Texture, Vec<URect>))
    requires
        pack_ok(prefs),
        1 <= prefs.unit_size <= prefs.atlas_size_limit,
        refs_ok(refs@, group@, packed@),
        forall|i: int| 0 <= i < packed@.len() ==> shaped(#[trigger] packed@[i], prefs),
        size.width >= 1,
        size.height >= 1,
        size.width <= 2 * prefs.atlas_size_limit,
        size.height <= 2 * prefs.atlas_size_limit,
        group@.len() > 0 ==> size.width as int / prefs.padded_unit() >= 1 && (size.width as int
            / prefs.padded_unit()) * (size.height as int / prefs.padded_unit()) >= group@.len(),
    ensures
        r.0.width == size.width,
        r.0.height == size.height,
        r.0.wf(),
        r.1@.len() == group@.len(),
        forall|i: int|
            0 <= i < group@.len() ==> #[trigger] slot_holds(
                &Atlas { texture: r.0, hashes: *group, rects: r.1, packed: *packed },
                i,
                size.width as int / prefs.padded_unit(),
                prefs.padded_unit(),
                prefs.padding as int,
                refs@[i].texture_idx as int,
                refs@[i].unit_idx as int,
            ),
        forall|q: int|
            0 <= q < r.0.pixels@.len() && !in_slots(
                q,
                size.width as int,
                size.width as int / prefs.padded_unit(),
                prefs.padded_unit(),
                group@.len() as int,
            ) ==> #[trigger] r.0.pixels@[q] == clear_pixel(),
{
    let pp = prefs.unit_size + prefs.padding * 2;
    let w = size.width;
    let h = size.height;
    let cols = w / pp;
    let ghost wi = w as int;
    let ghost ppi = pp as int;
    let ghost ci = cols as int;
    let ghost n = group@.len() as int;
    assert(w as int * h as int <= usize::MAX) by (nonlinear_arith)
        requires
            w <= 2 * prefs.atlas_size_limit,
            h <= 2 * prefs.atlas_size_limit,
            4 * prefs.atlas_size_limit * prefs.atlas_size_limit <= usize::MAX,
    ;
    let total = w as usize * h as usize;
    let mut pixels: Vec<Pixel> = Vec::new();
    while pixels.len() < total
        invariant
            pixels@.len() <= total,
            forall|q: int| 0 <= q < pixels@.len() ==> #[trigger] pixels@[q] == clear_pixel(),
        decreases total - pixels@.len(),
    {
        pixels.push(Pixel::new(0, 0, 0, 0));
    }
    proof {
        lemma_fundamental_div_mod(wi, ppi);
        lemma_mod_pos_bound(wi, ppi);
        assert(ci * ppi <= wi) by (nonlinear_arith)
            requires
                wi == ppi * ci + wi % ppi,
                wi % ppi >= 0,
        ;
        lemma_fundamental_div_mod(h as int, ppi);
        lemma_mod_pos_bound(h as int, ppi);
        assert((h as int / ppi) * ppi <= h) by (nonlinear_arith)
            requires
                h == ppi * (h as int / ppi) + h as int % ppi,
                h as int % ppi >= 0,
        ;
    }
    let mut rects: Vec<URect> = Vec::new();
    let mut i: usize = 0;
    while i < group.len()
        invariant
            i <= group@.len(),
            n == group@.len(),
            pack_ok(prefs),
            pp == prefs.padded_unit(),
            wi == w,
            ppi == pp,
            ci == cols,
            cols == w / pp,
            ci * ppi <= wi,
            (h as int / ppi) * ppi <= h,
            n > 0 ==> ci >= 1 && ci * (h as int / ppi) >= n,
            pixels@.len() == w * h,
            refs_ok(refs@, group@, packed@),
            forall|t: int| 0 <= t < packed@.len() ==> shaped(#[trigger] packed@[t], prefs),
            rects@.len() == i,
            forall|s: int|
                0 <= s < i ==> {
                    let unit = packed@[refs@[s].texture_idx as int].units@[refs@[s].unit_idx as int];
                    #[trigger] rects@[s] == URect {
                        x: ((s % ci) * ppi + prefs.padding) as u32,
                        y: ((s / ci) * ppi + prefs.padding) as u32,
                        width: unit.rect.width,
                        height: unit.rect.height,
                    }
                },
            forall|s: int|
                0 <= s < i ==> 0 <= (#[trigger] (s % ci)) * ppi && (s % ci) * ppi + ppi <= wi && 0 <= (s
                    / ci) * ppi && (s / ci) * ppi + ppi <= h,
            forall|s: int, j: int|
                0 <= s < i && 0 <= j < ppi * ppi ==> pixels@[((s % ci) * ppi + j % ppi) + ((s / ci)
                    * ppi + j / ppi) * wi] == #[trigger] slot_pixels(packed@, refs@, s)[j],
            forall|q: int|
                0 <= q < pixels@.len() && !in_slots(q, wi, ci, ppi, i as int) ==> #[trigger] pixels@[q]
                    == clear_pixel(),
        decreases group@.len() - i,
    {
        let r = &refs[i];
        let unit = &packed[r.texture_idx].units[r.unit_idx];
        let col = i as u64 % cols as u64;
        let row = i as u64 / cols as u64;
        let ghost old_px = pixels@;
        proof {
            lemma_fundamental_div_mod(i as int, ci);
            lemma_mod_pos_bound(i as int, ci);
            assert(row < h as int / ppi) by (nonlinear_arith)
                requires
                    i < n,
                    ci * (h as int / ppi) >= n,
                    i == ci * row + col,
                    0 <= col,
                    ci >= 1,
            ;
            assert(col * ppi + ppi <= wi && row * ppi + ppi <= h) by (nonlinear_arith)
                requires
                    col < ci,
                    row < h as int / ppi,
                    ci * ppi <= wi,
                    (h as int / ppi) * ppi <= h,
                    ppi >= 1,
            ;
            assert(shaped(packed@[r.texture_idx as int], prefs));
            assert(col + row * ci == i) by (nonlinear_arith)
                requires
                    i == ci * row + col,
            ;
        }
        let x0 = (col * pp as u64) as u32;
        let y0 = (row * pp as u64) as u32;
        set_pixels(&mut pixels, w, h, &unit.pixels, x0, y0, pp);
        rects.push(URect::new(x0 + prefs.padding, y0 + prefs.padding, unit.rect.width, unit.rect.height));
        proof {
            assert forall|s: int, j: int|
                0 <= s <= i && 0 <= j < ppi * ppi implies pixels@[((s % ci) * ppi + j % ppi) + ((s
                / ci) * ppi + j / ppi) * wi] == #[trigger] slot_pixels(packed@, refs@, s)[j] by {
                if s < i {
                    lemma_slot_cell(s, j, ci, ppi, wi, h as int);
                    let q = ((s % ci) * ppi + j % ppi) + ((s / ci) * ppi + j / ppi) * wi;
                    lemma_fundamental_div_mod(s, ci);
                    lemma_fundamental_div_mod(i as int, ci);
                    assert(q >= 0) by (nonlinear_arith)
                        requires
                            q == ((s % ci) * ppi + j % ppi) + ((s / ci) * ppi + j / ppi) * wi,
                            s % ci >= 0,
                            j % ppi >= 0,
                            s / ci >= 0,
                            j / ppi >= 0,
                            ppi >= 1,
                            wi >= 0,
                    ;
                    lemma_square_slot(q, col as int, row as int, ci, ppi, wi, h as int);
                    lemma_div_is_ordered(s, i as int, ci);
                    assert((s / ci) * ppi + j / ppi < h) by (nonlinear_arith)
                        requires
                            s / ci <= row,
                            row < h as int / ppi,
                            j / ppi < ppi,
                            (h as int / ppi) * ppi <= h,
                    ;
                    assert(old_px[q] == slot_pixels(packed@, refs@, s)[j]);
                    assert(q < pixels@.len()) by (nonlinear_arith)
                        requires
                            q == ((s % ci) * ppi + j % ppi) + ((s / ci) * ppi + j / ppi) * wi,
                            q % wi == (s % ci) * ppi + j % ppi,
                            q / wi == (s / ci) * ppi + j / ppi,
                            (s / ci) * ppi + j / ppi < h,
                            pixels@.len() == wi * h,
                            wi >= 1,
                    ;
                    assert(pixels@[q] == old_px[q]);
                }
            }
            assert forall|q: int|
                0 <= q < pixels@.len() && !in_slots(q, wi, ci, ppi, i + 1) implies #[trigger] pixels@[q]
                == clear_pixel() by {
                lemma_square_slot(q, col as int, row as int, ci, ppi, wi, h as int);
                assert(!in_slots(q, wi, ci, ppi, i as int));
                assert(old_px[q] == clear_pixel());
            }
        }
        i += 1;
    }
    let tex = Texture { width: w, height: h, pixels };
    proof {
        let a = Atlas { texture: tex, hashes: *group, rects, packed: *packed };
        assert forall|i: int| 0 <= i < n implies #[trigger] slot_holds(
            &a,
            i,
            ci,
            ppi,
            prefs.padding as int,
            refs@[i].texture_idx as int,
            refs@[i].unit_idx as int,
        ) by {
            let unit = packed@[refs@[i].texture_idx as int].units@[refs@[i].unit_idx as int];
            assert(rects@[i] == URect {
                x: ((i % ci) * ppi + prefs.padding) as u32,
                y: ((i / ci) * ppi + prefs.padding) as u32,
                width: unit.rect.width,
                height: unit.rect.height,
            });
            assert forall|j: int| 0 <= j < ppi * ppi implies a.texture.at(
                (i % ci) * ppi + j % ppi,
                (i / ci) * ppi + j / ppi,
            ) == #[trigger] unit.pixels@[j] by {
                assert(slot_pixels(packed@, refs@, i)[j] == unit.pixels@[j]);
            }
        }
    }
    (tex, rects)
}

/// The pixel with offset `j` in slot `s` lies in that slot's square, and in no other's.
proof fn lemma_slot_cell(s: int, j: int, cols: int, pp: int, w: int, h: int)
    requires
        s >= 0,
        cols >= 1,
        pp >= 1,
        0 <= j < pp * pp,
        cols * pp <= w,
    ensures
        ({
            let x = (s % cols) * pp + j % pp;
            let y = (s / cols) * pp + j / pp;
            let q = x + y * w;
            &&& q % w == x
            &&& q / w == y
            &&& x / pp == s % cols
            &&& y / pp == s / cols
        }),
        0 <= j / pp < pp,
        0 <= j % pp < pp,
{
    lemma_mod_pos_bound(s, cols);
    lemma_mod_pos_bound(j, pp);
    lemma_fundamental_div_mod(j, pp);
    let x = (s % cols) * pp + j % pp;
    let y = (s / cols) * pp + j / pp;
    assert(j / pp >= 0) by (nonlinear_arith)
        requires
            j >= 0,
            pp >= 1,
            j == pp * (j / pp) + j % pp,
            j % pp < pp,
    ;
    assert(s / cols >= 0) by (nonlinear_arith)
        requires
            s >= 0,
            cols >= 1,
    ;
    assert(x < w) by (nonlinear_arith)
        requires
            s % cols < cols,
            j % pp < pp,
            cols * pp <= w,
            x == (s % cols) * pp + j % pp,
    ;
    assert(j / pp < pp) by (nonlinear_arith)
        requires
            j == pp * (j / pp) + j % pp,
            j % pp >= 0,
            j < pp * pp,
            pp >= 1,
    ;
    lemma_flat(x, y, w);
    lemma_fundamental_div_mod_converse(x, pp, s % cols, j % pp);
    lemma_fundamental_div_mod_converse(y, pp, s / cols, j / pp);
}

/// A pixel inside the square at `(col, row)` belongs to the slot `col + row * cols`.
proof fn lemma_square_slot(q: int, col: int, row: int, cols: int, pp: int, w: int, h: int)
    requires
        0 <= col < cols,
        0 <= row,
        pp >= 1,
        w >= 1,
        q >= 0,
    ensures
        (col * pp <= q % w < col * pp + pp && row * pp <= q / w < row * pp + pp) ==> (q % w) / pp
            == col && slot_of(q, w, cols, pp) == col + row * cols,
{
    if col * pp <= q % w < col * pp + pp && row * pp <= q / w < row * pp + pp {
        lemma_fundamental_div_mod_converse(q % w, pp, col, q % w - col * pp);
        lemma_fundamental_div_mod_converse(q / w, pp, row, q / w - row * pp);
    }
}

/// Copies the `pp`×`pp` block `px` into the atlas with its top-left corner at `(x0, y0)`.
fn set_pixels(atlas: &mut Vec<Pixel>, w: u32, h: u32, px: &Vec<Pixel>, x0: u32, y0: u32, pp: u32)
    requires
        old(atlas)@.len() == w * h,
        px@.len() == pp * pp,
        pp >= 1,
        x0 + pp <= w,
        y0 + pp <= h,
    ensures
        final(atlas)@.len() == old(atlas)@.len(),
        forall|j: int|
            0 <= j < pp * pp ==> final(atlas)@[(x0 + j % (pp as int)) + (y0 + j / (pp as int)) * w]
                == #[trigger] px@[j],
        forall|q: int|
            0 <= q < final(atlas)@.len() && !(x0 <= q % (w as int) < x0 + pp && y0 <= q / (w as int)
                < y0 + pp) ==> #[trigger] final(atlas)@[q] == old(atlas)@[q],
{
    let ghost start = atlas@;
    let ghost wi = w as int;
    let ghost ppi = pp as int;
    let plen = px.len();
    let alen = atlas.len();
    let mut dy: u32 = 0;
    while dy < pp
        invariant
            dy <= pp,
            atlas@.len() == w * h,
            px@.len() == pp * pp,
            pp >= 1,
            x0 + pp <= w,
            y0 + pp <= h,
            wi == w,
            ppi == pp,
            start.len() == w * h,
            plen == px@.len(),
            alen == atlas@.len(),
            forall|j: int|
                0 <= j < dy * ppi ==> atlas@[(x0 + j % ppi) + (y0 + j / ppi) * wi] == #[trigger] px@[j],
            forall|q: int|
                0 <= q < atlas@.len() && !written(q, wi, x0 as int, y0 as int, ppi, dy * ppi)
                    ==> #[trigger] atlas@[q] == start[q],
        decreases pp - dy,
    {
        let mut dx: u32 = 0;
        while dx < pp
            invariant
                dx <= pp,
                dy < pp,
                atlas@.len() == w * h,
                px@.len() == pp * pp,
                pp >= 1,
                x0 + pp <= w,
                y0 + pp <= h,
                wi == w,
                ppi == pp,
                start.len() == w * h,
                plen == px@.len(),
                alen == atlas@.len(),
                forall|j: int|
                    0 <= j < dy * ppi + dx ==> atlas@[(x0 + j % ppi) + (y0 + j / ppi) * wi]
                        == #[trigger] px@[j],
                forall|q: int|
                    0 <= q < atlas@.len() && !written(q, wi, x0 as int, y0 as int, ppi, dy * ppi + dx)
                        ==> #[trigger] atlas@[q] == start[q],
            decreases pp - dx,
        {
            let ghost b = dy * ppi + dx;
            let ghost before = atlas@;
            let x = x0 + dx;
            let y = y0 + dy;
            proof {
                assert(y as int * wi + x < wi * h) by (nonlinear_arith)
                    requires
                        x < wi,
                        y < h,
                ;
                assert(b < ppi * ppi) by (nonlinear_arith)
                    requires
                        b == dy * ppi + dx,
                        dy < ppi,
                        dx < ppi,
                ;
                lemma_fundamental_div_mod_converse(b, ppi, dy as int, dx as int);
                lemma_flat(x as int, y as int, wi);
            }
            let from = dy as usize * pp as usize + dx as usize;
            let into = x as usize + y as usize * w as usize;
            atlas[into] = px[from];
            proof {
                lemma_copy_step(before, atlas@, start, px@, x0 as int, y0 as int, wi, h as int, ppi, b);
            }
            dx += 1;
        }
        assert(dy * ppi + ppi == (dy + 1) * ppi) by (nonlinear_arith);
        dy += 1;
    }
    assert forall|q: int|
        0 <= q < atlas@.len() && !(x0 <= q % wi < x0 + pp && y0 <= q / wi < y0 + pp)
            implies #[trigger] atlas@[q] == start[q] by {
        assert(!written(q, wi, x0 as int, y0 as int, ppi, ppi * ppi));
    }
}

/// Copying pixel `b` of the block keeps the copy and the frame facts, one pixel further.
proof fn lemma_copy_step(
    before: Seq<Pixel>,
    after: Seq<Pixel>,
    start: Seq<Pixel>,
    px: Seq<Pixel>,
    x0: int,
    y0: int,
    w: int,
    h: int,
    pp: int,
    b: int,
)
    requires
        pp >= 1,
        0 <= b < pp * pp,
        x0 >= 0,
        y0 >= 0,
        x0 + pp <= w,
        y0 + pp <= h,
        before.len() == w * h,
        px.len() == pp * pp,
        0 <= (x0 + b % pp) + (y0 + b / pp) * w < before.len(),
        after == before.update((x0 + b % pp) + (y0 + b / pp) * w, px[b]),
        forall|j: int| 0 <= j < b ==> before[(x0 + j % pp) + (y0 + j / pp) * w] == #[trigger] px[j],
        forall|q: int|
            0 <= q < before.len() && !written(q, w, x0, y0, pp, b) ==> #[trigger] before[q]
                == start[q],
    ensures
        forall|j: int| 0 <= j < b + 1 ==> after[(x0 + j % pp) + (y0 + j / pp) * w] == #[trigger] px[j],
        forall|q: int|
            0 <= q < after.len() && !written(q, w, x0, y0, pp, b + 1) ==> #[trigger] after[q]
                == start[q],
{
    let q0 = (x0 + b % pp) + (y0 + b / pp) * w;
    lemma_split(b, pp);
    lemma_flat(x0 + b % pp, y0 + b / pp, w);
    assert forall|j: int| 0 <= j < b + 1 implies after[(x0 + j % pp) + (y0 + j / pp) * w]
        == #[trigger] px[j] by {
        if j < b {
            lemma_split(j, pp);
            let qj = (x0 + j % pp) + (y0 + j / pp) * w;
            lemma_flat(x0 + j % pp, y0 + j / pp, w);
            assert(qj < w * h) by (nonlinear_arith)
                requires
                    qj == (x0 + j % pp) + (y0 + j / pp) * w,
                    x0 + j % pp < w,
                    y0 + j / pp < h,
                    x0 + j % pp >= 0,
            ;
            assert(before[qj] == px[j]);
            if qj == q0 {
                assert(j == b) by (nonlinear_arith)
                    requires
                        j == pp * (j / pp) + j % pp,
                        b == pp * (b / pp) + b % pp,
                        j / pp == b / pp,
                        j % pp == b % pp,
                ;
            }
        }
    }
    assert forall|q: int|
        0 <= q < after.len() && !written(q, w, x0, y0, pp, b + 1) implies #[trigger] after[q]
        == start[q] by {
        if q == q0 {
            assert((b / pp) * pp + b % pp == b) by (nonlinear_arith)
                requires
                    b == pp * (b / pp) + b % pp,
            ;
            assert(written(q, w, x0, y0, pp, b + 1));
        }
        assert(!written(q, w, x0, y0, pp, b));
    }
}

/// Splits `j` by `pp` into a quotient and a remainder below `pp`.
proof fn lemma_split(j: int, pp: int)
    requires
        j >= 0,
        pp >= 1,
    ensures
        j == pp * (j / pp) + j % pp,
        0 <= j % pp < pp,
        0 <= j / pp,
        j < pp * pp ==> j / pp < pp,
{
    lemma_fundamental_div_mod(j, pp);
    lemma_mod_pos_bound(j, pp);
    assert(0 <= j / pp) by (nonlinear_arith)
        requires
            j == pp * (j / pp) + j % pp,
            j % pp < pp,
            j >= 0,
            pp >= 1,
    ;
    if j < pp * pp {
        assert(j / pp < pp) by (nonlinear_arith)
            requires
                j == pp * (j / pp) + j % pp,
                j % pp >= 0,
                j < pp * pp,
                pp >= 1,
        ;
    }
}

/// Whether the atlas pixel with index `q` lies among the first `b` pixels, in row order, of the
/// `pp`×`pp` square at `(x0, y0)`.
spec fn written(q: int, w: int, x0: int, y0: int, pp: int, b: int) -> bool {
    &&& x0 <= q % w < x0 + pp
    &&& y0 <= q / w < y0 + pp
    &&& (q / w - y0) * pp + (q % w - x0) < b
}

} // verus!
