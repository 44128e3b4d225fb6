//! Splits sprite textures into square units, keeps the units with distinct content in atlas
//! textures and builds, for each sprite, a mesh of one quad per unit mapped onto its atlas.
//! Positions are kept in pixel space; scaling to world units is left to the caller.
pub mod builder;
pub mod codec;
pub mod dicer;
pub mod files;
pub mod laws;
pub mod models;
pub mod packer;

pub use builder::DicedSprite;
pub use codec::{decode_texture, encode_texture, texture_from_rgba, texture_to_rgba};
pub use files::{eval_sprite_id, AtlasFormat, FsPrefs};
pub use models::{
    DicedTexture, DicedUnit, Error, IRect, Pixel, Point, Prefs, SourceSprite, Texture, URect,
    USize,
};
pub use packer::Atlas;

use builder::{build, built_from, emitted};
use dicer::{dice_ok, diced_from, lemma_diced_shape, sources_wf};
use models::{PADDING_ABOVE_UNIT, UNIT_ABOVE_LIMIT, UNIT_SIZE_ZERO, LIMIT_ZERO, CANT_FIT};
use packer::{baked, capacity, covers, pack, pack_groups, shaped};
use vstd::prelude::*;

verus! {

/// Final products of a dicing operation.
#[derive(Debug, Clone)]
pub struct Artifacts {
    /// Atlas textures holding the distinct units of the diced sprites.
    pub atlases: Vec<Texture>,
    /// One mesh per source sprite that kept a unit, mapped onto its atlas.
    pub sprites: Vec<DicedSprite>,
}

/// Sources that the pipeline accepts: well-formed textures whose meshes can be indexed.
pub open spec fn sources_ok(src: Seq<SourceSprite>) -> bool {
    &&& sources_wf(src)
    &&& forall|i: int| 0 <= i < src.len() ==> 4 * (#[trigger] src[i]).texture.pixels@.len() + 4 <= usize::MAX
}

/// `arts` is what dicing `src` into `diced`, packing that into `atlases` and building the
/// meshes gives.
pub open spec fn pipeline(
    src: Seq<SourceSprite>,
    prefs: &Prefs,
    diced: Seq<DicedTexture>,
    atlases: Seq<Atlas>,
    arts: Artifacts,
) -> bool {
    &&& diced.len() == src.len()
    &&& forall|i: int| 0 <= i < src.len() ==> diced_from(#[trigger] diced[i], src[i], i, prefs)
    &&& pack_groups(diced, capacity(prefs)) == Some(
        atlases.map_values(|a: Atlas| (a.hashes@, a.packed@)),
    )
    &&& forall|k: int| 0 <= k < atlases.len() ==> baked(#[trigger] &atlases[k], prefs)
    &&& forall|k: int| 0 <= k < atlases.len() ==> covers(#[trigger] &atlases[k])
    &&& arts.atlases@ == atlases.map_values(|a: Atlas| a.texture)
    &&& arts.sprites@.len() == emitted(atlases, atlases.len()).len()
    &&& forall|k: int|
        0 <= k < arts.sprites@.len() ==> {
            let (i, p) = #[trigger] emitted(atlases, atlases.len())[k];
            built_from(arts.sprites@[k], &atlases[i], i, atlases[i].packed@[p], prefs.trim_transparent)
        }
}

/// `arts` is a product of the pipeline on `src`.
pub open spec fn produced(src: Seq<SourceSprite>, prefs: &Prefs, arts: Artifacts) -> bool {
    exists|d: Seq<DicedTexture>, a: Seq<Atlas>| #[trigger] pipeline(src, prefs, d, a, arts)
}

/// Dicing `src` gives textures of which some group admits none.
pub open spec fn cant_fit(src: Seq<SourceSprite>, prefs: &Prefs) -> bool {
    exists|d: Seq<DicedTexture>|
        d.len() == src.len() && (forall|i: int|
            0 <= i < d.len() ==> diced_from(#[trigger] d[i], src[i], i, prefs)) && #[trigger] pack_groups(
            d,
            capacity(prefs),
        ) is None
}

/// Splits the sprites' textures into units, keeps the distinct ones in atlases and builds
/// a mesh per sprite that samples its atlas.
pub fn dice(sprites: &[SourceSprite], prefs: &Prefs) -> (r: Result<Artifacts, Error>)
    requires
        sources_ok(sprites@),
        prefs.fits_machine(),
    ensures
        prefs.unit_size == 0 ==> r == Err::<Artifacts, Error>(Error::Spec(UNIT_SIZE_ZERO)),
        prefs.unit_size != 0 && prefs.padding > prefs.unit_size ==> r == Err::<Artifacts, Error>(
            Error::Spec(PADDING_ABOVE_UNIT),
        ),
        1 <= prefs.unit_size && prefs.padding <= prefs.unit_size && prefs.atlas_size_limit == 0
            ==> r == Err::<Artifacts, Error>(Error::Spec(LIMIT_ZERO)),
        prefs.padding <= prefs.unit_size && prefs.atlas_size_limit != 0 && prefs.unit_size
            > prefs.atlas_size_limit ==> r == Err::<Artifacts, Error>(Error::Spec(UNIT_ABOVE_LIMIT)),
        dice_ok(prefs) && prefs.unit_size <= prefs.atlas_size_limit && !cant_fit(sprites@, prefs)
            ==> r is Ok,
        r matches Ok(arts) ==> produced(sprites@, prefs, arts),
        r is Err ==> (r == Err::<Artifacts, Error>(Error::Spec(UNIT_SIZE_ZERO)) || r == Err::<
            Artifacts,
            Error,
        >(Error::Spec(PADDING_ABOVE_UNIT)) || r == Err::<Artifacts, Error>(Error::Spec(LIMIT_ZERO))
            || r == Err::<Artifacts, Error>(Error::Spec(UNIT_ABOVE_LIMIT)) || (r == Err::<
            Artifacts,
            Error,
        >(Error::Spec(CANT_FIT)) && cant_fit(sprites@, prefs))),
{
    let diced = match dicer::dice(sprites, prefs) {
        Ok(d) => d,
        Err(e) => {
            return Err(e);
        },
    };
    let ghost d = diced@;
    proof {
        assert forall|i: int| 0 <= i < diced@.len() implies shaped(#[trigger] diced@[i], prefs) by {
            lemma_diced_shape(diced@[i], sprites@[i], i, prefs);
        }
    }
    let atlases = match pack(diced, prefs) {
        Ok(a) => a,
        Err(e) => {
            proof {
                if e == Error::Spec(CANT_FIT) {
                    assert(pack_groups(d, capacity(prefs)) is None);
                    assert(cant_fit(sprites@, prefs));
                }
            }
            return Err(e);
        },
    };
    let sprites_out = build(&atlases, prefs);
    let ghost av = atlases@;
    let mut rest = atlases;
    let mut textures: Vec<Texture> = Vec::new();
    let mut k: usize = 0;
    while rest.len() > 0
        invariant
            textures@.len() + rest@.len() == av.len(),
            rest@ == av.skip(textures@.len() as int),
            textures@ == av.take(textures@.len() as int).map_values(|a: Atlas| a.texture),
        decreases rest@.len(),
    {
        let ghost n = textures@.len() as int;
        let a = rest.remove(0);
        textures.push(a.texture);
        assert(av.take(n + 1) =~= av.take(n).push(a));
        assert(rest@ =~= av.skip(n + 1));
        assert(textures@ =~= av.take(n + 1).map_values(|a: Atlas| a.texture));
    }
    assert(av.take(av.len() as int) =~= av);
    let arts = Artifacts { atlases: textures, sprites: sprites_out };
    assert(pipeline(sprites@, prefs, d, av, arts));
    assert(produced(sprites@, prefs, arts));
    Ok(arts)
}

} // verus!
