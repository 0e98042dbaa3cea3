//! What the user has configured.

use vstd::prelude::*;
use crate::identity::same_text;

verus! {

/// The format in which the tasks are saved.
#[derive(Debug, PartialEq, Eq, Clone, Copy, Structural)]
pub enum SaveFileFormat {
    Json,
    Binary,
}

/// The configuration of the program.
#[derive(Debug, PartialEq, Eq, Clone, Copy, Structural)]
pub struct MyndConfig {
    pub save_file_format: SaveFileFormat,
}

impl Default for MyndConfig {
    /// Without a configuration the tasks are saved as bytes.
    fn default() -> (config: MyndConfig)
        ensures
            config == (MyndConfig { save_file_format: SaveFileFormat::Binary }),
    {
        Self { save_file_format: SaveFileFormat::Binary }
    }
}

/// The format that a file with this extension is read in: `json` and `bin`
/// are the two that are known.
pub open spec fn format_of_extension(extension: Seq<char>) -> Option<SaveFileFormat> {
    if extension == "json"@ {
        Some(SaveFileFormat::Json)
    } else if extension == "bin"@ {
        Some(SaveFileFormat::Binary)
    } else {
        None
    }
}

impl SaveFileFormat {
    /// The format that a file with this extension is read in, if the
    /// extension is known.
    pub fn from_extension(extension: &str) -> (format: Option<SaveFileFormat>)
        ensures
            format == format_of_extension(extension@),
    {
        if same_text(extension, "json") {
            Some(SaveFileFormat::Json)
        } else if same_text(extension, "bin") {
            Some(SaveFileFormat::Binary)
        } else {
            None
        }
    }

    /// The name of the file in which tasks are saved in this format.
    pub fn file_name(&self) -> (name: &'static str)
        ensures
            name@ == match *self {
                SaveFileFormat::Json => "todo.json"@,
                SaveFileFormat::Binary => "todo.bin"@,
            },
    {
        match self {
            SaveFileFormat::Json => "todo.json",
            SaveFileFormat::Binary => "todo.bin",
        }
    }
}

} // verus!
