use sprite_dicing::{eval_sprite_id, AtlasFormat, FsPrefs};

#[test]
fn dir_evaluates_sprite_id_from_path() {
    assert_eq!(eval_sprite_id("/foo/bar", "/foo/bar/img.png", "/"), "img");
    assert_eq!(eval_sprite_id("/foo", "/foo/bar/img.png", "/"), "bar/img");
    assert_eq!(eval_sprite_id("/", "/foo/bar/img.png", "/"), "foo/bar/img");
}

#[test]
fn fs_evaluates_sprite_id_from_path() {
    assert_eq!(eval_sprite_id("/foo/bar", "/foo/bar/img.png", "/"), "img");
    assert_eq!(eval_sprite_id("/foo", "/foo/bar/img.png", "/"), "bar/img");
    assert_eq!(eval_sprite_id("/", "/foo/bar/img.png", "/"), "foo/bar/img");
}

#[test]
fn sprite_id_joins_nested_components_with_separator() {
    assert_eq!(eval_sprite_id("/foo", "/foo/bar/img.png", "."), "bar.img");
    assert_eq!(eval_sprite_id("root", "root/a/b/c.tar.gz", "::"), "a::b::c.tar");
}

#[test]
fn sprite_id_keeps_hidden_names_and_names_without_extension() {
    assert_eq!(eval_sprite_id("/d", "/d/.hidden", "/"), ".hidden");
    assert_eq!(eval_sprite_id("/d", "/d/plain", "/"), "plain");
    assert_eq!(eval_sprite_id("/d//", "/d//x.png/", "/"), "x");
}

#[test]
fn sprite_id_is_empty_when_root_covers_path() {
    assert_eq!(eval_sprite_id("/foo/bar", "/foo/bar", "/"), "");
    assert_eq!(eval_sprite_id("/a/b/c", "/a/b", "/"), "");
}

#[test]
fn atlas_format_extensions() {
    assert_eq!(AtlasFormat::Png.extension(), "png");
    assert_eq!(AtlasFormat::Jpeg.extension(), "jpeg");
    assert_eq!(AtlasFormat::Webp.extension(), "webp");
    assert_eq!(AtlasFormat::Tga.extension(), "tga");
    assert_eq!(AtlasFormat::Tiff.extension(), "tiff");
}

#[test]
fn fs_prefs_defaults() {
    let prefs = FsPrefs::default();
    assert!(prefs.out.is_none());
    assert!(!prefs.recursive);
    assert_eq!(prefs.separator, "/");
    assert_eq!(prefs.atlas_format, AtlasFormat::Png);
}
