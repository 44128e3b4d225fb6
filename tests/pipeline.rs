use sprite_dicing::{dice, Artifacts, DicedSprite, Pixel, Point, Prefs, SourceSprite, Texture, URect};

fn b() -> Pixel {
    Pixel::new(0, 0, 255, 255)
}
fn g() -> Pixel {
    Pixel::new(0, 255, 0, 255)
}
fn r() -> Pixel {
    Pixel::new(255, 0, 0, 255)
}
fn m() -> Pixel {
    Pixel::new(255, 0, 255, 255)
}
fn t() -> Pixel {
    Pixel::new(0, 0, 0, 0)
}

fn tex(width: u32, height: u32, pixels: Vec<Pixel>) -> Texture {
    Texture { width, height, pixels }
}

fn sources(textures: Vec<Texture>) -> Vec<SourceSprite> {
    textures
        .into_iter()
        .enumerate()
        .map(|(i, texture)| SourceSprite { id: format!("s{i}"), texture })
        .collect()
}

fn unit_prefs(trim: bool) -> Prefs {
    Prefs { unit_size: 1, padding: 0, trim_transparent: trim, ..Prefs::default() }
}

fn run(textures: Vec<Texture>, prefs: &Prefs) -> Artifacts {
    dice(&sources(textures), prefs).unwrap()
}

fn pt(x: u64, y: u64) -> Point {
    Point { x, y }
}

/// Samples, for every quad of the sprite, the atlas under its UV corners and compares it
/// with the source under its vertices.
fn reproduces(sprite: &DicedSprite, atlas: &Texture, source: &Texture) -> bool {
    for q in 0..sprite.vertices.len() / 4 {
        let v = &sprite.vertices[4 * q];
        let v_max = &sprite.vertices[4 * q + 2];
        let uv = &sprite.uvs[4 * q];
        for dy in 0..(v_max.y - v.y) {
            for dx in 0..(v_max.x - v.x) {
                let s = source.pixels[((v.x + dx) + (v.y + dy) * source.width as u64) as usize];
                let a = atlas.pixels[((uv.x + dx) + (uv.y + dy) * atlas.width as u64) as usize];
                if s != a {
                    return false;
                }
            }
        }
    }
    true
}

#[test]
fn solo_blue_pixel() {
    let arts = run(vec![tex(1, 1, vec![b()])], &unit_prefs(false));
    assert_eq!(arts.sprites.len(), 1);
    let sprite = &arts.sprites[0];
    assert_eq!(sprite.vertices, vec![pt(0, 0), pt(0, 1), pt(1, 1), pt(1, 0)]);
    assert_eq!(sprite.indices, vec![0, 1, 2, 2, 3, 0]);
    assert_eq!(sprite.rect, URect::new(0, 0, 1, 1));
    assert_eq!(arts.atlases.len(), 1);
    assert_eq!(arts.atlases[0].pixels, vec![b()]);
}

#[test]
fn two_distinct_pixels() {
    let two = || vec![tex(1, 1, vec![r()]), tex(1, 1, vec![b()])];
    let arts = run(two(), &Prefs::default());
    assert_eq!(arts.atlases.len(), 1);
    assert_eq!(arts.sprites.len(), 2);
    assert!(arts.sprites.iter().all(|s| s.vertices.len() == 4));
    let limit2 = Prefs { atlas_size_limit: 2, ..unit_prefs(true) };
    assert_eq!(run(two(), &limit2).atlases.len(), 1);
    let limit1 = Prefs { atlas_size_limit: 1, ..unit_prefs(true) };
    assert_eq!(run(two(), &limit1).atlases.len(), 2);
}

#[test]
fn trimmed_sprite_keeps_only_opaque_units() {
    let arts = run(vec![tex(2, 2, vec![b(), t(), g(), t()])], &unit_prefs(true));
    let sprite = &arts.sprites[0];
    assert_eq!(sprite.vertices.len(), 8);
    assert_eq!(&sprite.vertices[0..4], &[pt(0, 0), pt(0, 1), pt(1, 1), pt(1, 0)]);
    assert_eq!(&sprite.vertices[4..8], &[pt(0, 1), pt(0, 2), pt(1, 2), pt(1, 1)]);
    assert_eq!(sprite.rect, URect::new(0, 0, 1, 2));
}

#[test]
fn shared_pixels_share_one_atlas() {
    let arts = run(
        vec![tex(2, 2, vec![b(), g(), r(), t()]), tex(2, 2, vec![b(), t(), g(), r()])],
        &unit_prefs(true),
    );
    assert_eq!(arts.atlases.len(), 1);
    let opaque = arts.atlases[0].pixels.iter().filter(|p| p.a > 0).count();
    assert_eq!(opaque, 3);
}

#[test]
fn repeated_and_distinct_pixels_count_unique_units() {
    let rgb = vec![
        b(), g(), g(), g(),
        r(), r(), g(), b(),
        r(), g(), b(), r(),
        b(), b(), r(), g(),
    ];
    let mut palette = Vec::new();
    for i in 0..16u8 {
        palette.push(Pixel::new(i, i, i, 255));
    }
    let arts = run(vec![tex(4, 4, rgb), tex(4, 4, palette)], &unit_prefs(true));
    assert_eq!(arts.atlases.len(), 1);
    let atlas = &arts.atlases[0];
    assert!(atlas.width as usize * atlas.height as usize >= 19);
    let opaque = atlas.pixels.iter().filter(|p| p.a > 0).count();
    assert_eq!(opaque, 19);
    assert!(arts.sprites.iter().all(|s| s.vertices.len() == 64));
}

#[test]
fn clear_sprite_is_dropped_when_trimming() {
    let clear = || tex(2, 2, vec![t(), t(), t(), t()]);
    let arts = run(vec![clear(), tex(1, 1, vec![b()])], &unit_prefs(true));
    assert_eq!(arts.sprites.len(), 1);
    assert_eq!(arts.sprites[0].id, "s1");
    let kept = run(vec![clear()], &unit_prefs(false));
    assert_eq!(kept.sprites.len(), 1);
    assert_eq!(kept.sprites[0].rect, URect::new(0, 0, 2, 2));
}

#[test]
fn untrimmed_rect_covers_source() {
    let arts = run(vec![tex(2, 2, vec![t(), t(), t(), m()])], &unit_prefs(false));
    assert_eq!(arts.sprites[0].rect, URect::new(0, 0, 2, 2));
    let trimmed = run(vec![tex(2, 2, vec![t(), t(), t(), m()])], &unit_prefs(true));
    assert_eq!(trimmed.sprites[0].rect, URect::new(1, 1, 1, 1));
    assert_eq!(trimmed.sprites[0].vertices[0], pt(1, 1));
}

#[test]
fn meshes_reproduce_sources() {
    let rgb = vec![
        b(), g(), g(), g(),
        r(), r(), g(), b(),
        r(), g(), b(), r(),
        b(), b(), r(), g(),
    ];
    let sources_tex = vec![tex(4, 4, rgb.clone()), tex(2, 2, vec![b(), t(), g(), r()])];
    for (size, pad) in [(1, 0), (2, 0), (2, 2), (3, 1)] {
        let prefs = Prefs { unit_size: size, padding: pad, ..Prefs::default() };
        let arts = run(sources_tex.clone(), &prefs);
        for sprite in &arts.sprites {
            let source = &sources_tex[sprite.source];
            assert!(reproduces(sprite, &arts.atlases[sprite.atlas_index], source));
        }
    }
}

#[test]
fn sprites_keep_source_ids() {
    let arts = run(
        vec![tex(1, 1, vec![r()]), tex(1, 1, vec![b()]), tex(1, 1, vec![t()])],
        &unit_prefs(true),
    );
    let mut ids: Vec<&str> = arts.sprites.iter().map(|s| s.id.as_str()).collect();
    ids.sort();
    assert_eq!(ids, vec!["s0", "s1"]);
    for s in &arts.sprites {
        assert_eq!(s.id, format!("s{}", s.source));
    }
}

#[test]
fn quads_have_six_indices_each() {
    let arts = run(vec![tex(2, 2, vec![b(), g(), r(), m()])], &unit_prefs(false));
    let sprite = &arts.sprites[0];
    assert_eq!(sprite.vertices.len(), 16);
    assert_eq!(sprite.uvs.len(), 16);
    assert_eq!(sprite.indices.len() * 2, sprite.vertices.len() * 3);
    assert_eq!(&sprite.indices[6..12], &[4, 5, 6, 6, 7, 4]);
}

#[test]
fn pipeline_reports_prefs_errors() {
    let one = || vec![tex(1, 1, vec![b()])];
    let zero = Prefs { unit_size: 0, ..Prefs::default() };
    assert_eq!(dice(&sources(one()), &zero).unwrap_err().to_string(), "Unit size can't be zero.");
    let wide = Prefs { unit_size: 1, padding: 2, ..Prefs::default() };
    assert_eq!(
        dice(&sources(one()), &wide).unwrap_err().to_string(),
        "Unit size can't be above atlas size limit."
    );
    let no_limit = Prefs { atlas_size_limit: 0, ..Prefs::default() };
    assert_eq!(
        dice(&sources(one()), &no_limit).unwrap_err().to_string(),
        "Atlas size limit can't be zero."
    );
    let small = Prefs { unit_size: 4, padding: 0, atlas_size_limit: 2, ..Prefs::default() };
    assert_eq!(
        dice(&sources(one()), &small).unwrap_err().to_string(),
        "Unit size can't be above atlas size limit."
    );
}

#[test]
fn atlas_sides_respect_prefs() {
    let textures = || {
        let mut pixels = Vec::new();
        for i in 0..10u8 {
            pixels.push(Pixel::new(i, 0, 0, 255));
        }
        vec![tex(10, 1, pixels)]
    };
    let square = Prefs { atlas_square: true, ..unit_prefs(true) };
    let a = &run(textures(), &square).atlases[0];
    assert_eq!(a.width, a.height);
    let pot = Prefs { atlas_pot: true, ..unit_prefs(true) };
    let a = &run(textures(), &pot).atlases[0];
    assert_eq!((a.width, a.height), (4, 4));
    let singles = (0..10u8).map(|i| tex(1, 1, vec![Pixel::new(i, 0, 0, 255)])).collect();
    let limited = Prefs { atlas_size_limit: 3, ..unit_prefs(true) };
    let arts = run(singles, &limited);
    assert_eq!(arts.atlases.len(), 2);
    assert!(arts.atlases.iter().all(|a| a.width <= 3 && a.height <= 3));
}
