use sprite_dicing::dicer::dice;
use sprite_dicing::packer::{pack, Atlas};
use sprite_dicing::{Pixel, Prefs, SourceSprite, Texture};

fn b() -> Pixel {
    Pixel::new(0, 0, 255, 255)
}
fn g() -> Pixel {
    Pixel::new(0, 255, 0, 255)
}
fn r() -> Pixel {
    Pixel::new(255, 0, 0, 255)
}

fn tex(width: u32, height: u32, pixels: Vec<Pixel>) -> Texture {
    Texture { width, height, pixels }
}

fn rgb4x4() -> Texture {
    let pixels = vec![
        b(), g(), g(), g(),
        r(), r(), g(), b(),
        r(), g(), b(), r(),
        b(), b(), r(), g(),
    ];
    tex(4, 4, pixels)
}

fn pck(src: Vec<Texture>, prefs: &Prefs) -> Vec<Atlas> {
    let sprites = src
        .into_iter()
        .map(|t| SourceSprite { id: "test".to_string(), texture: t })
        .collect::<Vec<_>>();
    pack(dice(&sprites, prefs).unwrap(), prefs).unwrap()
}

fn atlas_pixel(atlas: &Atlas, x: u32, y: u32) -> Pixel {
    atlas.texture.pixels[(x + y * atlas.texture.width) as usize]
}

#[test]
fn can_pack_with_defaults() {
    pck(vec![tex(1, 1, vec![r()]), tex(1, 1, vec![b()])], &Prefs::default());
}

#[test]
#[should_panic(expected = "Atlas size limit can't be zero.")]
fn errs_when_limit_is_zero() {
    let prefs = Prefs { atlas_size_limit: 0, ..Prefs::default() };
    pck(vec![rgb4x4()], &prefs);
}

#[test]
#[should_panic(expected = "Unit size can't be above atlas size limit.")]
fn errs_when_unit_size_above_limit() {
    let prefs = Prefs { unit_size: 2, atlas_size_limit: 1, ..Prefs::default() };
    pck(vec![rgb4x4()], &prefs);
}

#[test]
fn when_empty_input_empty_vec_is_returned() {
    assert_eq!(pck(vec![], &Prefs::default()).len(), 0);
}

#[test]
fn errs_when_no_texture_fits() {
    let prefs = Prefs { unit_size: 1, padding: 1, atlas_size_limit: 2, ..Prefs::default() };
    let sprites = vec![SourceSprite { id: "a".to_string(), texture: tex(1, 1, vec![r()]) }];
    let err = pack(dice(&sprites, &prefs).unwrap(), &prefs).unwrap_err();
    assert_eq!(err.to_string(), "Can't fit any texture; increase atlas size.");
}

#[test]
fn shared_units_are_stored_once() {
    let prefs = Prefs { unit_size: 1, padding: 0, ..Prefs::default() };
    let atlases = pck(vec![rgb4x4(), tex(2, 1, vec![g(), b()])], &prefs);
    assert_eq!(atlases.len(), 1);
    assert_eq!(atlases[0].hashes.len(), 3);
    assert_eq!(atlases[0].packed.len(), 2);
}

#[test]
fn slots_hold_unit_pixels_and_rects_point_inside_padding() {
    let prefs = Prefs { unit_size: 1, padding: 1, ..Prefs::default() };
    let atlases = pck(vec![tex(1, 1, vec![r()])], &prefs);
    let atlas = &atlases[0];
    assert_eq!((atlas.texture.width, atlas.texture.height), (3, 3));
    assert_eq!(atlas.rects[0].x, 1);
    assert_eq!(atlas.rects[0].y, 1);
    for y in 0..3 {
        for x in 0..3 {
            assert_eq!(atlas_pixel(atlas, x, y), r());
        }
    }
}

#[test]
fn non_square_atlas_uses_least_area() {
    // Three distinct units of side 1 fit a 3x1 or 1x3 strip; area 3 beats 2x2.
    let prefs = Prefs { unit_size: 1, padding: 0, ..Prefs::default() };
    let atlases = pck(vec![tex(3, 1, vec![r(), g(), b()])], &prefs);
    let t = &atlases[0].texture;
    assert_eq!(t.width * t.height, 3);
    // Equal areas prefer the closer to square: six units take 2x3 rather than 1x6.
    let six = tex(6, 1, vec![
        Pixel::new(1, 0, 0, 255), Pixel::new(2, 0, 0, 255), Pixel::new(3, 0, 0, 255),
        Pixel::new(4, 0, 0, 255), Pixel::new(5, 0, 0, 255), Pixel::new(6, 0, 0, 255),
    ]);
    let atlases = pck(vec![six], &prefs);
    let t = &atlases[0].texture;
    assert_eq!((t.width, t.height), (2, 3));
}

#[test]
fn square_and_pot_atlases() {
    let square = Prefs { unit_size: 1, padding: 0, atlas_square: true, ..Prefs::default() };
    let t = &pck(vec![tex(3, 1, vec![r(), g(), b()])], &square)[0].texture;
    assert_eq!((t.width, t.height), (2, 2));
    let pot = Prefs { unit_size: 3, padding: 0, atlas_pot: true, ..Prefs::default() };
    let t = &pck(vec![tex(3, 1, vec![r(), g(), b()])], &pot)[0].texture;
    assert_eq!((t.width, t.height), (4, 4));
}

#[test]
fn groups_prefer_textures_sharing_units() {
    // Capacity is one unit per atlas: each texture of one distinct unit needs its own.
    let prefs = Prefs { unit_size: 1, padding: 0, atlas_size_limit: 1, ..Prefs::default() };
    let atlases = pck(
        vec![tex(1, 1, vec![r()]), tex(1, 1, vec![b()]), tex(2, 1, vec![r(), r()])],
        &prefs,
    );
    assert_eq!(atlases.len(), 2);
    assert_eq!(atlases[0].packed.len(), 2);
    assert_eq!(atlases[1].packed.len(), 1);
    assert_eq!(atlases[0].packed[0].units.len(), 1);
    assert_eq!(atlases[0].packed[1].units.len(), 2);
}
