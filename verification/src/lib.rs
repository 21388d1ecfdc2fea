pub mod bytes_util;
pub mod crypto;
pub mod index;
pub mod layout;
pub mod steganography;
pub mod stego_blob;
pub mod volume;
pub mod errors;

pub use errors::BlobError;
pub use index::{FileMetadata, MetadataMap};
pub use layout::VolumeType;
pub use steganography::jpeg_comment::JpegCommentCarrier;
pub use steganography::mp4_free_box::Mp4FreeBoxCarrier;
pub use steganography::pdf_eof::PdfEofCarrier;
pub use steganography::png_chunk::PngChunkCarrier;
pub use steganography::StegoCarrier;
pub use stego_blob::{add_file_stego, get_file_stego, init_stego_blob, unlock_stego_blob};
pub use volume::{
    add_file, compact_blob, get_file, init_blob, remove_file, remove_folder, rename_file,
    unlock_blob, unlock_with_keys,
};
