pub mod plaintext;
pub mod rle;
pub mod apgcode;
pub mod rle_law;
