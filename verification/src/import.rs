//! Import dispatch: which importer a drawing file goes to, by its extension.
use vstd::prelude::*;

verus! {

/// Errors of drawing import.
#[derive(Debug)]
pub enum ImportError {
    /// The file could not be read.
    Io(std::io::Error),
    /// The SVG document could not be parsed.
    Svg(String),
    /// The file's format has no importer.
    UnsupportedFormat(String),
}

/// A layer of an imported drawing.
#[derive(Clone, Debug)]
pub struct ImportedLayer {
    pub name: String,
    pub visible: bool,
}

/// The layers an SVG import reports: one visible layer named `default`.
pub fn default_layers() -> (layers: Vec<ImportedLayer>)
    ensures
        layers.len() == 1,
        layers[0].name@ == "default"@,
        layers[0].visible,
{
    let mut layers: Vec<ImportedLayer> = Vec::new();
    layers.push(ImportedLayer { name: String::from_str("default"), visible: true });
    layers
}

/// A drawing format that has an importer.
#[derive(Clone, Copy, PartialEq, Eq, Debug)]
pub enum ImportFormat {
    Svg,
}

/// The extension of a path as `std::path::Path::extension` finds it (the part
/// of the file name after its last dot, none for names without one or that
/// begin with their only dot).
pub uninterp spec fn spec_path_extension(path: Seq<char>) -> Option<Seq<char>>;

/// The lowercase form of a string as `str::to_lowercase` maps it (Unicode
/// lowercase mapping, character by character with context).
pub uninterp spec fn spec_to_lowercase(s: Seq<char>) -> Seq<char>;

/// Calls `std::path::Path::extension` on the path and turns the extension,
/// which for a path made from a `&str` is always valid UTF-8, into a `String`.
/// Claims only that the result is the named extension of the path.
#[verifier::external_body]
fn path_extension(path: &str) -> (ext: Option<String>)
    ensures
        ext.deep_view() == spec_path_extension(path@),
{
    std::path::Path::new(path).extension().and_then(|e| e.to_str()).map(|e| e.to_string())
}

/// Calls `str::to_lowercase`. Claims only that the result is the named
/// lowercase form of the argument.
#[verifier::external_body]
fn to_lowercase(s: &str) -> (res: String)
    ensures
        res@ == spec_to_lowercase(s@),
{
    s.to_lowercase()
}

/// The message of the import error for DXF files.
pub open spec fn dxf_message() -> Seq<char> {
    "DXF import scheduled for Phase 1.1 — use SVG export from Corel"@
}

/// Decides the importer for a lowercase extension: SVG files are imported,
/// DXF files are refused with a pointer to SVG export, any other extension is
/// refused as unsupported, naming the extension.
pub fn format_for_extension(ext: &str) -> (res: Result<ImportFormat, ImportError>)
    ensures
        ext@ == "svg"@ ==> res == Ok::<ImportFormat, ImportError>(ImportFormat::Svg),
        ext@ == "dxf"@ ==> (res matches Err(ImportError::UnsupportedFormat(m)) && m@ == dxf_message()),
        ext@ != "svg"@ && ext@ != "dxf"@ ==> (res matches Err(ImportError::UnsupportedFormat(m)) && m@ == ext@),
{
    proof {
        reveal_strlit("svg");
        reveal_strlit("dxf");
        reveal_strlit("DXF import scheduled for Phase 1.1 — use SVG export from Corel");
        assert("dxf"@ != "svg"@) by {
            assert("dxf"@[0] != "svg"@[0]);
        }
    }
    if crate::text::str_equal(ext, "svg") {
        Ok(ImportFormat::Svg)
    } else if crate::text::str_equal(ext, "dxf") {
        let m = String::from_str("DXF import scheduled for Phase 1.1 — use SVG export from Corel");
        assert(m@ == dxf_message());
        Err(ImportError::UnsupportedFormat(m))
    } else {
        Err(ImportError::UnsupportedFormat(String::from_str(ext)))
    }
}

/// The extension that selects the importer, lowercased: the empty string
/// when there is none.
pub open spec fn selecting_extension(ext: Option<Seq<char>>) -> Seq<char> {
    match ext {
        Some(e) => spec_to_lowercase(e),
        None => ""@,
    }
}

/// The lowercase extension that selects the importer for a path.
pub open spec fn import_extension(path: Seq<char>) -> Seq<char> {
    selecting_extension(spec_path_extension(path))
}

/// Decides the importer from a file's extension, if it has one that is valid
/// UTF-8: the extension, lowercased, or the empty string when there is none,
/// goes to `format_for_extension`.
pub fn import_format_for_extension(ext: Option<&str>) -> (res: Result<ImportFormat, ImportError>)
    ensures
        ({
            let sel = selecting_extension(
                match ext {
                    Some(e) => Some(e@),
                    None => None,
                },
            );
            &&& sel == "svg"@ ==> res == Ok::<ImportFormat, ImportError>(ImportFormat::Svg)
            &&& sel == "dxf"@ ==> (res matches Err(ImportError::UnsupportedFormat(m)) && m@ == dxf_message())
            &&& sel != "svg"@ && sel != "dxf"@ ==> (res matches Err(ImportError::UnsupportedFormat(m))
                && m@ == sel)
        }),
{
    match ext {
        Some(e) => {
            let lower = to_lowercase(e);
            format_for_extension(lower.as_str())
        },
        None => {
            proof {
                reveal_strlit("");
            }
            format_for_extension("")
        },
    }
}

/// Decides the importer for a drawing file from its path: the extension,
/// lowercased, or the empty string when the path has none, goes to
/// `format_for_extension`.
pub fn import_format(path: &str) -> (res: Result<ImportFormat, ImportError>)
    ensures
        import_extension(path@) == "svg"@ ==> res == Ok::<ImportFormat, ImportError>(ImportFormat::Svg),
        import_extension(path@) == "dxf"@ ==> (res matches Err(ImportError::UnsupportedFormat(m)) && m@ == dxf_message()),
        import_extension(path@) != "svg"@ && import_extension(path@) != "dxf"@ ==> (res matches Err(
            ImportError::UnsupportedFormat(m),
        ) && m@ == import_extension(path@)),
{
    let ext = path_extension(path);
    match ext {
        Some(e) => import_format_for_extension(Some(e.as_str())),
        None => import_format_for_extension(None),
    }
}

} // verus!
