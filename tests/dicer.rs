use sprite_dicing::dicer::dice;
use sprite_dicing::{DicedTexture, DicedUnit, Pixel, Prefs, SourceSprite, Texture, URect};

fn b() -> Pixel {
    Pixel::new(0, 0, 255, 255)
}
fn g() -> Pixel {
    Pixel::new(0, 255, 0, 255)
}
fn r() -> Pixel {
    Pixel::new(255, 0, 0, 255)
}
/// Clear pixel of the two-by-two fixtures.
fn c() -> Pixel {
    Pixel::new(0, 0, 0, 0)
}

fn tex(width: u32, height: u32, pixels: Vec<Pixel>) -> Texture {
    Texture { width, height, pixels }
}
fn b1x1() -> Texture {
    tex(1, 1, vec![b()])
}
fn r1x1() -> Texture {
    tex(1, 1, vec![r()])
}
fn rgb1x3() -> Texture {
    tex(1, 3, vec![g(), r(), b()])
}
fn rgb3x1() -> Texture {
    tex(3, 1, vec![g(), r(), b()])
}
fn rgb4x4() -> Texture {
    let pixels = vec![
        b(), g(), g(), g(),
        r(), r(), g(), b(),
        r(), g(), b(), r(),
        b(), b(), r(), g(),
    ];
    tex(4, 4, pixels)
}
fn uic4x4() -> Texture {
    let mut pixels = Vec::new();
    for i in 0..16u8 {
        pixels.push(Pixel::new(i, i, i, 255));
    }
    tex(4, 4, pixels)
}
fn bgrc() -> Texture {
    tex(2, 2, vec![b(), g(), r(), c()])
}
fn bcgr() -> Texture {
    tex(2, 2, vec![b(), c(), g(), r()])
}
fn cccc() -> Texture {
    tex(2, 2, vec![c(), c(), c(), c()])
}

fn pref(size: u32, pad: u32, trim: bool) -> Prefs {
    Prefs { unit_size: size, padding: pad, trim_transparent: trim, ..Prefs::default() }
}

fn src(tex: &Texture) -> SourceSprite {
    SourceSprite { id: "test".to_string(), texture: tex.clone() }
}

fn dice1(tex: &Texture, size: u32, pad: u32) -> DicedTexture {
    let pref = pref(size, pad, true);
    dice(&[src(tex)], &pref).unwrap().pop().unwrap()
}

fn is_opaque(tex: &DicedTexture) -> bool {
    tex.units.iter().all(|u| u.pixels.iter().all(|p| p.a > 0))
}

fn has(units: &[DicedUnit], pixel: Pixel, rect: URect) -> bool {
    units.iter().any(|u| u.pixels[0] == pixel && u.rect == rect)
}

#[test]
fn can_dice_with_defaults() {
    assert!(dice(&[src(&b1x1())], &Prefs::default()).is_ok());
}

#[test]
fn errs_when_unit_size_zero() {
    assert!(dice(&[src(&r1x1())], &pref(0, 0, true))
        .is_err_and(|e| e.to_string() == "Unit size can't be zero."));
}

#[test]
fn errs_when_padding_is_above_unit_size() {
    assert!(dice(&[src(&r1x1())], &pref(1, 2, true))
        .is_err_and(|e| e.to_string() == "Unit size can't be above atlas size limit."));
}

#[test]
fn unit_count_equal_double_texture_size_divided_by_unit_size_square() {
    assert_eq!(dice1(&rgb1x3(), 1, 0).units.len(), 3);
    assert_eq!(dice1(&rgb4x4(), 2, 0).units.len(), 4);
    assert_eq!(dice1(&rgb4x4(), 4, 0).units.len(), 1);
}

#[test]
fn unit_count_doesnt_depend_on_padding() {
    let pad_0_count = dice1(&rgb4x4(), 1, 0).units.len();
    let pad_1_count = dice1(&rgb4x4(), 1, 1).units.len();
    assert_eq!(pad_0_count, pad_1_count);
}

#[test]
fn when_unit_size_is_larger_than_texture_single_unit_is_diced() {
    assert_eq!(dice1(&rgb3x1(), 5, 0).units.len(), 1);
    assert_eq!(dice1(&rgb4x4(), 128, 0).units.len(), 1);
}

#[test]
fn transparent_dices_are_ignored_when_trim_enabled() {
    let prf = &pref(1, 0, true);
    assert!(dice(&[src(&cccc())], prf).unwrap()[0].units.is_empty());
    assert!(dice(&[src(&bgrc())], prf).unwrap().iter().all(is_opaque));
    assert!(dice(&[src(&bcgr())], prf).unwrap().iter().all(is_opaque));
}

#[test]
fn transparent_dices_are_preserved_when_trim_disabled() {
    let prf = &pref(1, 0, false);
    assert!(!dice(&[src(&cccc())], prf).unwrap()[0].units.is_empty());
    assert!(!dice(&[src(&bgrc())], prf).unwrap().iter().all(is_opaque));
    assert!(!dice(&[src(&bcgr())], prf).unwrap().iter().all(is_opaque));
}

#[test]
fn content_hash_of_equal_pixels_is_equal() {
    let units = dice1(&bgrc(), 1, 0).units;
    for unit in dice1(&bcgr(), 1, 0).units {
        assert!(units.iter().any(|u| u.hash == unit.hash));
    }
}

#[test]
fn content_hash_of_distinct_pixels_is_not_equal() {
    assert_ne!(dice1(&b1x1(), 1, 0).units[0].hash, dice1(&r1x1(), 1, 0).units[0].hash);
}

#[test]
fn content_hash_ignores_padding() {
    let no_pad = dice1(&rgb4x4(), 1, 0).units;
    for padded in dice1(&rgb4x4(), 1, 1).units {
        assert!(no_pad.iter().any(|u| u.hash == padded.hash))
    }
}

#[test]
fn unit_rects_are_mapped_top_left_to_bottom_right() {
    let units = &dice(&[src(&bgrc())], &pref(1, 0, false)).unwrap()[0].units;
    assert!(has(units, b(), URect::new(0, 0, 1, 1)));
    assert!(has(units, g(), URect::new(1, 0, 1, 1)));
    assert!(has(units, r(), URect::new(0, 1, 1, 1)));
    assert!(has(units, c(), URect::new(1, 1, 1, 1)));
}

#[test]
fn when_no_content_padded_pixels_are_repeated() {
    assert_eq!(
        dice1(&b1x1(), 1, 1).units[0].pixels,
        vec![b(), b(), b(),
             b(), b(), b(),
             b(), b(), b()]);
}

#[test]
fn padded_pixels_are_neighbors() {
    let pixels = dice1(&bgrc(), 1, 1).units.into_iter().map(|u| u.pixels).collect::<Vec<_>>();
    assert!(pixels.contains(&vec![
        b(), b(), g(),
        b(), b(), g(),
        r(), r(), c()]));
}

#[test]
fn diced_texture_contains_identical_units() {
    assert_eq!(16, dice1(&rgb4x4(), 1, 0).units.len());
    assert_eq!(16, dice1(&uic4x4(), 1, 0).units.len());
}

#[test]
fn unique_doesnt_count_identical_units() {
    assert_eq!(3, dice1(&rgb4x4(), 1, 0).unique.len());
    assert_eq!(16, dice1(&uic4x4(), 1, 0).unique.len());
}

#[test]
fn units_scan_columns_then_rows() {
    let units = &dice(&[src(&bgrc())], &pref(1, 0, false)).unwrap()[0].units;
    let rects: Vec<URect> = units.iter().map(|u| u.rect).collect();
    assert_eq!(
        rects,
        vec![
            URect::new(0, 0, 1, 1),
            URect::new(0, 1, 1, 1),
            URect::new(1, 0, 1, 1),
            URect::new(1, 1, 1, 1)
        ]
    );
}

#[test]
fn edge_units_are_cut_to_the_texture() {
    let units = dice1(&rgb3x1(), 2, 0).units;
    assert_eq!(units.len(), 2);
    assert_eq!(units[0].rect, URect::new(0, 0, 2, 1));
    assert_eq!(units[1].rect, URect::new(2, 0, 1, 1));
    // The padded block keeps the full unit size, edge pixels repeated.
    assert_eq!(units[1].pixels, vec![b(), b(), b(), b()]);
}

#[test]
fn small_source_gives_one_unit_covering_it() {
    let units = dice1(&rgb3x1(), 64, 2).units;
    assert_eq!(units.len(), 1);
    assert_eq!(units[0].rect, URect::new(0, 0, 3, 1));
    assert_eq!(units[0].pixels.len(), 68 * 68);
}

#[test]
fn same_block_in_other_sprites_has_same_hash() {
    let a = dice1(&tex(2, 1, vec![r(), b()]), 1, 0);
    let z = dice1(&tex(1, 2, vec![b(), g()]), 1, 0);
    assert_eq!(a.units[1].hash, z.units[0].hash);
    assert_ne!(a.units[0].hash, z.units[1].hash);
}

#[test]
fn diced_textures_keep_ids_and_order() {
    let sources = vec![
        SourceSprite { id: "first".to_string(), texture: b1x1() },
        SourceSprite { id: "second".to_string(), texture: r1x1() },
    ];
    let diced = dice(&sources, &pref(1, 0, true)).unwrap();
    assert_eq!(diced.len(), 2);
    assert_eq!(diced[0].id, "first");
    assert_eq!(diced[0].source, 0);
    assert_eq!(diced[1].id, "second");
    assert_eq!(diced[1].source, 1);
    assert_eq!(diced[1].size.width, 1);
}

#[test]
fn trimmed_count_leaves_out_clear_cells() {
    assert_eq!(dice1(&bgrc(), 1, 0).units.len(), 3);
    let all = dice(&[src(&bgrc())], &pref(1, 0, false)).unwrap();
    assert_eq!(all[0].units.len(), 4);
}

#[test]
fn pixel_components_round_trip() {
    let p = Pixel::from_raw([1, 2, 3, 4]);
    assert_eq!((p.r(), p.g(), p.b(), p.a()), (1, 2, 3, 4));
    assert_eq!(p.to_raw(), [1, 2, 3, 4]);
    assert_eq!(Pixel::new(1, 2, 3, 4), p);
}
