use sprite_dicing::{decode_texture, encode_texture, texture_from_rgba, texture_to_rgba};
use sprite_dicing::{AtlasFormat, Pixel, Texture};

fn sample() -> Texture {
    Texture {
        width: 2,
        height: 2,
        pixels: vec![
            Pixel::new(255, 0, 0, 255),
            Pixel::new(0, 255, 0, 128),
            Pixel::new(0, 0, 255, 0),
            Pixel::new(9, 8, 7, 6),
        ],
    }
}

#[test]
fn rgba_samples_round_trip() {
    let tex = sample();
    let samples = texture_to_rgba(&tex);
    assert_eq!(samples, vec![255, 0, 0, 255, 0, 255, 0, 128, 0, 0, 255, 0, 9, 8, 7, 6]);
    let back = texture_from_rgba(2, 2, &samples);
    assert_eq!(back.pixels, tex.pixels);
    assert_eq!((back.width, back.height), (2, 2));
}

#[test]
fn png_encoding_round_trips() {
    let tex = sample();
    let bytes = encode_texture(&tex, AtlasFormat::Png).unwrap();
    assert_eq!(&bytes[1..4], b"PNG");
    let back = decode_texture(&bytes, "png").unwrap();
    assert_eq!((back.width, back.height), (2, 2));
    assert_eq!(back.pixels, tex.pixels);
}

#[test]
fn tga_encoding_round_trips() {
    let tex = sample();
    let bytes = encode_texture(&tex, AtlasFormat::Tga).unwrap();
    let back = decode_texture(&bytes, "tga").unwrap();
    assert_eq!(back.pixels, tex.pixels);
}

#[test]
fn unknown_extension_is_rejected() {
    let err = decode_texture(&[1, 2, 3], "nope").unwrap_err();
    assert_eq!(err.to_string(), "Failed to resolve texture format.");
}

#[test]
fn undecodable_bytes_give_image_error() {
    let err = decode_texture(&[1, 2, 3], "png").unwrap_err();
    assert!(matches!(err, sprite_dicing::Error::Image(_)));
    assert!(!err.to_string().is_empty());
}

#[test]
fn extensions_resolve_in_any_letter_case() {
    let bytes = encode_texture(&sample(), AtlasFormat::Png).unwrap();
    assert_eq!(decode_texture(&bytes, "PNG").unwrap().pixels, sample().pixels);
    assert_eq!(decode_texture(&bytes, "ApNg").unwrap().pixels, sample().pixels);
    let err = decode_texture(&bytes, "pngx").unwrap_err();
    assert_eq!(err.to_string(), "Failed to resolve texture format.");
}

#[test]
fn encoding_is_deterministic() {
    let a = encode_texture(&sample(), AtlasFormat::Png).unwrap();
    let b = encode_texture(&sample(), AtlasFormat::Png).unwrap();
    assert_eq!(a, b);
}
