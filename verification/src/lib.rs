//! Sheet numbering for a directory of drawing files: which files count as
//! drawings, which numbers their names hold, and how the content of each
//! file changes when its sheet label is filled in.
//!
//! Nothing here touches a disk. A caller lists the directory, hands over
//! names and bytes, and writes back what it is given.

pub mod chars;
pub mod codec;
pub mod label;
pub mod names;
pub mod numbers;
pub mod rewrite;
pub mod rows;
pub mod text;

pub use codec::{decode_content, encode_content, Decoded, MAX_CODEC_LEN};
pub use label::{sheet_label, sheet_labels};
pub use names::{has_dxf_extension, is_dxf_file, list_dxf_files};
pub use numbers::{extract_numbers, extract_numbers_from_names};
pub use rewrite::{rewrite_content, Rewritten};
pub use text::{replace_in_line, rewrite_text};
