//! Library side of a tool that copies the files of several source folders
//! into a target folder, each distinct content copied at most once and
//! never when the target already holds it.  Contents are identified by their SHA-256 digest written in
//! lower-case hexadecimal; paths are handled as UTF-8 byte strings.

pub mod digest;
pub mod paths;
pub mod file_index;
pub mod files_map;
pub mod progress;
pub mod source_list;
