//! Verified core of the MSPM0 Lua IDE: firmware image parsing and the ROM
//! bootloader packet format, Lua source preparation, static OLED call
//! analysis, target (chip / board / API) metadata checking and the project
//! context text, the console's filtering of device output and run status,
//! and the code editor: text logic, buffer with undo history, the
//! single-line field, open tabs and file names.

pub mod bsl;
pub mod text;
pub mod compile;
pub mod fontpack;
pub mod metadata;
pub mod profile_names;
pub mod context;
pub mod console;
pub mod ports;
pub mod editing;
pub mod tabs;
pub mod project_files;
pub mod edit_buffer;
pub mod line_buffer;
pub mod registry;
pub mod workflow;
