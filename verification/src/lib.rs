pub mod stream;
pub mod zlib;
pub mod layout;
pub mod errors;
pub mod table;
pub mod transform;

pub use stream::{read_u64, write_u64};
pub use layout::{HEADER_SIZE, SECTION_SIZE, MAX_SECTION_COUNT, MAX_FILE_SIZE};
pub use errors::PakError;
pub use table::{Section, decode_sections, encode_table};
pub use transform::{pack, unpack};
