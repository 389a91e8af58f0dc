use vstd::prelude::*;
use crate::compositor::surface::Surface;
use crate::util::import::from_ppm;
use crate::util::import::ppm_decodes;
use crate::util::import::ppm_error;
use crate::util::import::PpmError;
use crate::util::tokens::tokens_of;

verus! {

/// A texture that maps (u, v) coordinates onto an image.
#[derive(Clone, Debug)]
pub struct ImageTexture {
    pub image: Surface,
}

impl ImageTexture {
    /// The texture whose image is the PPM text `ppm`.
    pub fn load(ppm: &[u8]) -> (r: Result<ImageTexture, PpmError>)
        ensures
            match r {
                Ok(tex) => ppm_decodes(ppm@, tex.image),
                Err(e) => ppm_error(tokens_of(ppm@)) == Some(e),
            },
    {
        match from_ppm(ppm) {
            Ok(image) => Ok(ImageTexture { image: image }),
            Err(e) => Err(e),
        }
    }
}

/// A skybox: six image textures, for the left, right, down, up, front and
/// back faces of a cube with y pointing up.
#[derive(Debug)]
pub struct CubeMap {
    pub faces: Vec<ImageTexture>,
}

/// The six face texts of a cube map in loading order.
pub open spec fn face_texts(
    x: Seq<u8>,
    x_neg: Seq<u8>,
    y: Seq<u8>,
    y_neg: Seq<u8>,
    z: Seq<u8>,
    z_neg: Seq<u8>,
) -> Seq<Seq<u8>> {
    seq![x, x_neg, y, y_neg, z, z_neg]
}

impl CubeMap {
    /// Loads the six faces from their PPM texts, in the order left, right,
    /// down, up, front, back. Fails with the error of the first face, in that
    /// order, that cannot be read.
    pub fn load(x: &[u8], x_neg: &[u8], y: &[u8], y_neg: &[u8], z: &[u8], z_neg: &[u8]) -> (r: Result<
        CubeMap,
        PpmError,
    >)
        ensures
            ({
                let texts = face_texts(x@, x_neg@, y@, y_neg@, z@, z_neg@);
                match r {
                    Ok(cube) => {
                        &&& cube.faces@.len() == 6
                        &&& forall|i: int| 0 <= i < 6 ==> ppm_decodes(texts[i], #[trigger] cube.faces@[i].image)
                    },
                    Err(e) => exists|i: int|
                        0 <= i < 6 && ppm_error(tokens_of(#[trigger] texts[i])) == Some(e) && forall|j: int|
                            0 <= j < i ==> ppm_error(tokens_of(texts[j])) is None,
                }
            }),
    {
        let ghost texts = face_texts(x@, x_neg@, y@, y_neg@, z@, z_neg@);
        let inputs: Vec<&[u8]> = vec![x, x_neg, y, y_neg, z, z_neg];
        assert(inputs@.len() == 6);
        assert(forall|j: int| 0 <= j < 6 ==> #[trigger] inputs@[j]@ == texts[j]);
        let mut faces: Vec<ImageTexture> = Vec::with_capacity(6);
        let mut i: usize = 0;
        while i < 6
            invariant
                i <= 6,
                inputs@.len() == 6,
                texts == face_texts(x@, x_neg@, y@, y_neg@, z@, z_neg@),
                forall|j: int| 0 <= j < 6 ==> #[trigger] inputs@[j]@ == texts[j],
                faces@.len() == i,
                forall|j: int| 0 <= j < i ==> ppm_decodes(texts[j], #[trigger] faces@[j].image),
                forall|j: int| 0 <= j < i ==> ppm_error(tokens_of(#[trigger] texts[j])) is None,
            decreases 6 - i,
        {
            match ImageTexture::load(inputs[i]) {
                Ok(t) => {
                    proof {
                        reveal(ppm_decodes);
                    }
                    faces.push(t);
                },
                Err(e) => {
                    assert(ppm_error(tokens_of(texts[i as int])) == Some(e));
                    assert(exists|k: int|
                        0 <= k < 6 && ppm_error(tokens_of(#[trigger] texts[k])) == Some(e) && forall|j: int|
                            0 <= j < k ==> ppm_error(tokens_of(texts[j])) is None);
                    return Err(e);
                },
            }
            i = i + 1;
        }
        Ok(CubeMap { faces: faces })
    }
}

/// A texture that maps (u, v) onto the red and green channels; its colors
/// are computed in floating point by the program around this library.
#[derive(Clone, Copy)]
pub struct UVTexture;

} // verus!
