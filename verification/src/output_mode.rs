//! What is written, by the extension of the output file.

use crate::video_input::{equal_ignoring_case, extension_of, same_letters};
use vstd::prelude::*;
use vstd::string::*;

verus! {

/// The formats that a file name can ask for.
#[derive(Clone, Copy, Debug, PartialEq, Eq, Structural)]
pub enum OutputMode {
    Png,
    Webp,
    Mp4,
    Webm,
    Svg,
    Css,
}

/// The format of an extension, whatever its case.
pub open spec fn mode_of(ext: Seq<char>) -> Option<OutputMode> {
    if same_letters(ext, "png"@) {
        Some(OutputMode::Png)
    } else if same_letters(ext, "webp"@) {
        Some(OutputMode::Webp)
    } else if same_letters(ext, "mp4"@) {
        Some(OutputMode::Mp4)
    } else if same_letters(ext, "webm"@) {
        Some(OutputMode::Webm)
    } else if same_letters(ext, "svg"@) {
        Some(OutputMode::Svg)
    } else if same_letters(ext, "css"@) {
        Some(OutputMode::Css)
    } else {
        None
    }
}

impl OutputMode {
    /// The format that the extension of a path names, none where there is no such one.
    pub fn from_path(path: &str) -> (r: Option<OutputMode>)
        ensures
            r == match crate::video_input::path_extension(path@) {
                Some(ext) => mode_of(ext),
                None => None,
            },
    {
        let ext: String = match extension_of(path) {
            Some(e) => e,
            None => {
                return None;
            },
        };
        let e: &str = ext.as_str();
        if equal_ignoring_case(e, "png") {
            Some(OutputMode::Png)
        } else if equal_ignoring_case(e, "webp") {
            Some(OutputMode::Webp)
        } else if equal_ignoring_case(e, "mp4") {
            Some(OutputMode::Mp4)
        } else if equal_ignoring_case(e, "webm") {
            Some(OutputMode::Webm)
        } else if equal_ignoring_case(e, "svg") {
            Some(OutputMode::Svg)
        } else if equal_ignoring_case(e, "css") {
            Some(OutputMode::Css)
        } else {
            None
        }
    }

    pub open spec fn name_text(self) -> Seq<char> {
        match self {
            OutputMode::Png => "Png"@,
            OutputMode::Webp => "Webp"@,
            OutputMode::Mp4 => "Mp4"@,
            OutputMode::Webm => "Webm"@,
            OutputMode::Svg => "Svg"@,
            OutputMode::Css => "Css"@,
        }
    }

    /// The name of the format in messages.
    pub fn name(self) -> (r: &'static str)
        ensures
            r@ == self.name_text(),
    {
        match self {
            OutputMode::Png => "Png",
            OutputMode::Webp => "Webp",
            OutputMode::Mp4 => "Mp4",
            OutputMode::Webm => "Webm",
            OutputMode::Svg => "Svg",
            OutputMode::Css => "Css",
        }
    }
}

} // verus!
