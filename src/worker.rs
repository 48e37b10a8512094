use vstd::prelude::*;
use vstd::string::StringExecFns;
use crate::index::index_of;
use crate::table::lemma_as_map_keys;

verus! {

/// The extension of the path `p` (the part of its file name after the last
/// dot), as `std::path::Path::extension` reads it.
pub uninterp spec fn extension_of(p: Seq<char>) -> Option<Seq<char>>;

/// `s` in lower case, as `str::to_lowercase` gives it.
pub uninterp spec fn lower_of(s: Seq<char>) -> Seq<char>;

/// Relies on `std::path::Path::extension`; the path comes from a `str`, so
/// the extension is valid Unicode and converts without loss.
#[verifier::external_body]
fn path_extension(path: &str) -> (r: Option<String>)
    ensures
        match r {
            Some(e) => extension_of(path@) == Some(e@),
            None => extension_of(path@) is None,
        },
{
    std::path::Path::new(path).extension().map(|e| e.to_string_lossy().into_owned())
}

/// Relies on `str::to_lowercase`.
#[verifier::external_body]
pub(crate) fn to_lowercase(s: &str) -> (r: String)
    ensures
        r@ == lower_of(s@),
{
    s.to_lowercase()
}

/// The families of files that an extraction collaborator can read.
#[derive(Debug, Clone, Copy, PartialEq, Eq, Structural)]
pub enum Format {
    Pdf,
    Text,
    Xml,
    Html,
    Code,
}

/// What a worker does with a discovered file.
#[derive(Debug, Clone, Copy, PartialEq, Eq, Structural)]
pub enum FileAction {
    /// Larger than the ceiling: skipped, which is no error.
    TooLarge,
    /// No extension, or one that no collaborator reads: skipped.
    UnknownExtension,
    /// Handed to the collaborator of this format.
    Extract(Format),
}

/// The format that a lower-case extension names.
pub open spec fn format_for(ext: Seq<char>) -> Option<Format> {
    if ext == "pdf"@ {
        Some(Format::Pdf)
    } else if ext == "txt"@ {
        Some(Format::Text)
    } else if ext == "xml"@ || ext == "xhtml"@ {
        Some(Format::Xml)
    } else if ext == "html"@ || ext == "htm"@ {
        Some(Format::Html)
    } else if ext == "rs"@ || ext == "py"@ || ext == "js"@ || ext == "ts"@ || ext == "java"@
        || ext == "cpp"@ || ext == "c"@ || ext == "h"@ || ext == "go"@ || ext == "php"@
        || ext == "rb"@ || ext == "swift"@ || ext == "kt"@ {
        Some(Format::Code)
    } else {
        None
    }
}

/// The worker's rule for the file at `path`, of `size` bytes when that is
/// known, under the ceiling `max_size`. A file whose size cannot be read is
/// still handed on.
pub open spec fn screen(path: Seq<char>, size: Option<u64>, max_size: u64) -> FileAction {
    if size is Some && size->0 > max_size {
        FileAction::TooLarge
    } else {
        match extension_of(path) {
            None => FileAction::UnknownExtension,
            Some(e) => match format_for(lower_of(e)) {
                None => FileAction::UnknownExtension,
                Some(f) => FileAction::Extract(f),
            },
        }
    }
}

fn is_word(s: &String, w: &str) -> (r: bool)
    ensures
        r == (s@ == w@),
{
    *s == String::from_str(w)
}

/// The format that a lower-case extension names.
pub fn format_for_extension(ext: &String) -> (r: Option<Format>)
    ensures
        r == format_for(ext@),
{
    if is_word(ext, "pdf") {
        Some(Format::Pdf)
    } else if is_word(ext, "txt") {
        Some(Format::Text)
    } else if is_word(ext, "xml") || is_word(ext, "xhtml") {
        Some(Format::Xml)
    } else if is_word(ext, "html") || is_word(ext, "htm") {
        Some(Format::Html)
    } else if is_word(ext, "rs") || is_word(ext, "py") || is_word(ext, "js") || is_word(ext, "ts")
        || is_word(ext, "java") || is_word(ext, "cpp") || is_word(ext, "c") || is_word(ext, "h")
        || is_word(ext, "go") || is_word(ext, "php") || is_word(ext, "rb") || is_word(
        ext,
        "swift",
    ) || is_word(ext, "kt") {
        Some(Format::Code)
    } else {
        None
    }
}

/// Decides what a worker does with the file at `path`: skip it when it is
/// larger than `max_size` bytes, else pick the collaborator by its
/// extension, compared without regard to case.
pub fn screen_file(path: &str, size: Option<u64>, max_size: u64) -> (r: FileAction)
    ensures
        r == screen(path@, size, max_size),
{
    if let Some(s) = size {
        if s > max_size {
            return FileAction::TooLarge;
        }
    }
    match path_extension(path) {
        None => FileAction::UnknownExtension,
        Some(e) => {
            let lower = to_lowercase(e.as_str());
            match format_for_extension(&lower) {
                None => FileAction::UnknownExtension,
                Some(f) => FileAction::Extract(f),
            }
        },
    }
}

/// A file larger than the ceiling never becomes a key of the index: when
/// every document that reaches the aggregator is one that the worker's rule
/// handed on, with `size_of` giving each file's size as the worker read it,
/// no path in the resulting index has a size above `max_size`, whatever the
/// documents hold.
pub proof fn lemma_oversized_never_indexed(
    docs: Seq<(Seq<char>, Seq<char>)>,
    size_of: spec_fn(Seq<char>) -> Option<u64>,
    max_size: u64,
)
    requires
        forall|i: int|
            0 <= i < docs.len() ==> screen(
                (#[trigger] docs[i]).0,
                size_of(docs[i].0),
                max_size,
            ) is Extract,
    ensures
        forall|p: Seq<char>| #[trigger]
            index_of(docs).contains_key(p) ==> !(size_of(p) is Some && size_of(p)->0 > max_size),
{
    let e = docs.map_values(|d: (Seq<char>, Seq<char>)| crate::index::document_view(d));
    assert forall|p: Seq<char>| #[trigger] index_of(docs).contains_key(p) implies !(size_of(
        p,
    ) is Some && size_of(p)->0 > max_size) by {
        lemma_as_map_keys(e, p);
        let i = choose|i: int| 0 <= i < e.len() && e[i].0 == p;
        assert(docs[i].0 == p);
    }
}

} // verus!
