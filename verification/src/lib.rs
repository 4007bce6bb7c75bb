//! Extracts Garry's Mod addons from `.gma` archives.
//!
//! The library reads nothing and writes nothing itself. It decides: what the bytes of an archive
//! say, where each entry goes, what is to be done next, and what an outcome means. A program does
//! what it is told and hands back how it went.
//!
//! - [`command`] and [`conf`]: what the program is asked to do.
//! - [`extract`]: an extraction from beginning to end.
//! - [`reader`], [`header`] and [`index`]: the format of an archive.
//! - [`names`] and [`path`]: where entries go.
//! - [`addon_json`]: the file that tells of the addon itself.
//! - [`copy`]: copying the contents of one entry; [`sequential`], [`parallel`] with [`queue`], and
//!   [`pool`]: copying those of all of them.
//! - [`error`], [`size`] and [`text`]: what people get to read.
//!
//! What holds of the library as a whole stands in [`whole_laws`], [`archive_laws`], [`disk_laws`],
//! [`engine_laws`], [`progress_laws`], [`format_laws`], [`place_laws`], [`path_laws`] and
//! [`copy_laws`], and beside the state machines that it is about. What its parts come to, told by
//! their inputs alone, stands in [`step_laws`] and [`decision_laws`] of the steps of an extraction,
//! in [`head_laws`] of the start of an archive, in [`name_laws`] and [`spelling_laws`] of names and
//! paths, in [`option_laws`] of arguments, and in [`json_laws`] and [`message_laws`] of texts.

pub mod addon_json;
pub mod archive_laws;
pub mod command;
pub mod conf;
pub mod copy;
pub mod copy_laws;
pub mod decision_laws;
pub mod disk_laws;
pub mod engine_laws;
pub mod error;
pub mod extract;
pub mod format_laws;
pub mod head_laws;
pub mod header;
pub mod index;
pub mod json_laws;
pub mod message_laws;
pub mod name_laws;
pub mod names;
pub mod option_laws;
pub mod parallel;
pub mod path;
pub mod path_laws;
pub mod place_laws;
pub mod pool;
pub mod progress_laws;
pub mod queue;
pub mod reader;
pub mod sequential;
pub mod size;
pub mod spelling_laws;
pub mod step_laws;
pub mod text;
pub mod whole_laws;
