//! Output formats, and which one a file name asks for.

use vstd::prelude::*;
use vstd::string::StringExecFns;

verus! {

/// Output format.
#[derive(Debug, Clone, Copy, PartialEq, Eq, Structural, Default)]
pub enum Format {
    /// The canonical representation.
    #[default]
    Json,
    /// A `flowchart TD`, renderable by GitHub and most editors with no toolchain.
    Mermaid,
}

/// The characters of an optional string slice.
pub open spec fn opt_str_view(o: Option<&str>) -> Option<Seq<char>> {
    match o {
        Some(s) => Some(s@),
        None => None,
    }
}

/// `.mmd`, `.mermaid` and `.md` ask for Mermaid; anything else, or no extension,
/// for JSON.
pub open spec fn format_for(ext: Option<Seq<char>>) -> Format {
    match ext {
        Some(e) => if e == "mmd"@ || e == "mermaid"@ || e == "md"@ {
            Format::Mermaid
        } else {
            Format::Json
        },
        None => Format::Json,
    }
}

fn same_text(a: &str, b: &str) -> (r: bool)
    ensures
        r == (a@ == b@),
{
    String::from_str(a) == String::from_str(b)
}

impl Format {
    /// The format a file extension asks for, defaulting to [`Format::Json`].
    pub fn from_extension(ext: Option<&str>) -> (r: Format)
        ensures
            r == format_for(opt_str_view(ext)),
    {
        match ext {
            Some(e) => {
                if same_text(e, "mmd") || same_text(e, "mermaid") || same_text(e, "md") {
                    Format::Mermaid
                } else {
                    Format::Json
                }
            },
            None => Format::Json,
        }
    }
}

} // verus!
