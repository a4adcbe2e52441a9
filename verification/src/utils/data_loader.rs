use vstd::prelude::*;

verus! {

/// Which half of the digit images to load.
#[derive(Clone, Copy, PartialEq, Eq, Structural, Debug)]
pub enum DataType {
    Train,
    Test,
}

impl DataType {
    /// The directory of this half under the data directory.
    pub fn get_path(&self) -> (s: String)
        ensures
            s@ == match self {
                DataType::Train => "train"@,
                DataType::Test => "test"@,
            },
    {
        broadcast use vstd::string::to_string_from_display_ensures_for_str;
        match self {
            DataType::Train => "train".to_string(),
            DataType::Test => "test".to_string(),
        }
    }
}

/// The grey levels, one byte per pixel row by row, of the image that `bytes`
/// encode, or `None` where they encode no image `image` can read.
pub uninterp spec fn png_luma(bytes: Seq<u8>) -> Option<Seq<u8>>;

/// Calls `image::load_from_memory` on `bytes` (which guesses the format from
/// the bytes and decodes them) and then `to_luma8` and `into_raw` on the
/// image. The contract claims only that the result is the decoder's, named
/// `png_luma`; which byte strings decode, and to what, is left to `image`.
#[verifier::external_body]
fn decode_luma(bytes: &[u8]) -> (r: Option<Vec<u8>>)
    ensures
        r is None <==> png_luma(bytes@) is None,
        r matches Some(v) ==> png_luma(bytes@) == Some(v@),
{
    match image::load_from_memory(bytes) {
        Ok(img) => Some(img.to_luma8().into_raw()),
        Err(_) => None,
    }
}

/// The grey levels of the black-and-white image in `bytes`, one byte per
/// pixel, or `None` where the bytes are no image.
pub fn load_bw_png(bytes: &[u8]) -> (r: Option<Vec<u8>>)
    ensures
        r is None <==> png_luma(bytes@) is None,
        r matches Some(v) ==> png_luma(bytes@) == Some(v@),
{
    decode_luma(bytes)
}

} // verus!
