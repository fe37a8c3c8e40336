//! What the build of a site decides of each entry of a directory.
use vstd::prelude::*;
use crate::text::str_eq;

verus! {

/// What is done with an entry of the source directory.
#[derive(Debug)]
pub enum BuildAction {
    /// It is a directory: its entries are built in turn.
    ScanDirectory,
    /// It is copied as it is.
    Copy,
    /// It is left alone: the copy is up to date.
    Skip,
    /// It is not part of the site.
    Ignore,
    /// It is compiled; `extension` says from what.
    Compile { extension: String },
}

/// What a `BuildAction` is.
pub enum BuildActionView {
    ScanDirectory,
    Copy,
    Skip,
    Ignore,
    Compile { extension: Seq<char> },
}

impl View for BuildAction {
    type V = BuildActionView;

    open spec fn view(&self) -> BuildActionView {
        match *self {
            BuildAction::ScanDirectory => BuildActionView::ScanDirectory,
            BuildAction::Copy => BuildActionView::Copy,
            BuildAction::Skip => BuildActionView::Skip,
            BuildAction::Ignore => BuildActionView::Ignore,
            BuildAction::Compile { extension } => BuildActionView::Compile { extension: extension@ },
        }
    }
}

/// What is known of a file when two files are compared: when it was last
/// modified, and how long it is.
#[derive(Debug, Clone, Copy, PartialEq, Eq, Structural)]
pub struct FileStamp {
    pub seconds: u64,
    pub nanoseconds: u32,
    pub length: u64,
}

/// Whether an entry of this name belongs to the site: its name is known, and
/// starts neither with a dot nor with an underscore.
pub open spec fn is_built(name: Option<Seq<char>>) -> bool {
    match name {
        Some(name) => !(name.len() > 0 && (name[0] == '.' || name[0] == '_')),
        None => false,
    }
}

/// Whether an extension is one that is compiled.
pub open spec fn is_compiled(extension: Seq<char>) -> bool {
    extension == "tlr"@ || extension == "sass"@
}

/// What is done with an entry: entries that do not belong to the site are
/// ignored, directories are scanned, templates and style sheets are compiled,
/// and any other file is copied unless its copy is up to date.
pub open spec fn planned(
    name: Option<Seq<char>>,
    is_directory: bool,
    extension: Option<Seq<char>>,
    up_to_date: bool,
) -> BuildActionView {
    if !is_built(name) {
        BuildActionView::Ignore
    } else if is_directory {
        BuildActionView::ScanDirectory
    } else if extension is Some && is_compiled(extension->0) {
        BuildActionView::Compile { extension: extension->0 }
    } else if up_to_date {
        BuildActionView::Skip
    } else {
        BuildActionView::Copy
    }
}

/// An optional string slice as an optional sequence of characters.
pub open spec fn name_view(name: Option<&str>) -> Option<Seq<char>> {
    match name {
        Some(name) => Some(name@),
        None => None,
    }
}

/// Whether an entry of this name belongs to the site.
pub fn build_path(name: Option<&str>) -> (built: bool)
    ensures
        built == is_built(name_view(name)),
{
    match name {
        Some(name) => {
            if name.unicode_len() == 0 {
                return true;
            }
            let first = name.get_char(0);
            !(first == '.' || first == '_')
        },
        None => false,
    }
}

/// Decides what is done with an entry of the source directory.
pub fn action_for(
    name: Option<&str>,
    is_directory: bool,
    extension: Option<&str>,
    up_to_date: bool,
) -> (action: BuildAction)
    ensures
        action@ == planned(name_view(name), is_directory, name_view(extension), up_to_date),
{
    if !build_path(name) {
        return BuildAction::Ignore;
    }
    if is_directory {
        return BuildAction::ScanDirectory;
    }
    match extension {
        Some(extension) => {
            if str_eq(extension, "tlr") || str_eq(extension, "sass") {
                return BuildAction::Compile { extension: extension.to_owned() };
            }
        },
        None => {},
    }
    if up_to_date {
        BuildAction::Skip
    } else {
        BuildAction::Copy
    }
}

/// The extension of what a source of the given extension compiles to.
pub open spec fn compiled_extension(extension: Seq<char>) -> Option<Seq<char>> {
    if extension == "tlr"@ {
        Some("html"@)
    } else if extension == "sass"@ {
        Some("css"@)
    } else {
        None
    }
}

/// Tells the extension of what a source of the given extension compiles to.
pub fn output_extension(extension: &str) -> (r: Option<&'static str>)
    ensures
        name_view(r) == compiled_extension(extension@),
{
    if str_eq(extension, "tlr") {
        Some("html")
    } else if str_eq(extension, "sass") {
        Some("css")
    } else {
        None
    }
}

/// Whether a file and its copy are taken for the same: both exist, and agree
/// in the time of their last modification and in their length.
pub open spec fn same_stamps(a: Option<FileStamp>, b: Option<FileStamp>) -> bool {
    a is Some && b is Some && a->0 == b->0
}

/// Whether a file and its copy are taken for the same.
pub fn same_attributes(a: Option<FileStamp>, b: Option<FileStamp>) -> (same: bool)
    ensures
        same == same_stamps(a, b),
{
    match (a, b) {
        (Some(a), Some(b)) => a.seconds == b.seconds && a.nanoseconds == b.nanoseconds && a.length
            == b.length,
        _ => false,
    }
}

/// The colour of a line of the build's summary.
#[derive(Debug, Clone, Copy, PartialEq, Eq, Structural)]
pub enum SummaryColor {
    Yellow,
    Green,
    Red,
}

/// The colour that an entry is reported in: yellow where it was ignored,
/// else green where all went well and red where it did not.
pub open spec fn color_of(action: BuildActionView, succeeded: bool) -> SummaryColor {
    if action is Ignore {
        SummaryColor::Yellow
    } else if succeeded {
        SummaryColor::Green
    } else {
        SummaryColor::Red
    }
}

/// Picks the colour that an entry is reported in.
pub fn summary_color(action: &BuildAction, succeeded: bool) -> (color: SummaryColor)
    ensures
        color == color_of(action@, succeeded),
{
    match action {
        BuildAction::Ignore => SummaryColor::Yellow,
        _ => if succeeded {
            SummaryColor::Green
        } else {
            SummaryColor::Red
        },
    }
}

} // verus!
