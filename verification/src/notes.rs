//! Small helpers at the edge of note handling: error text for the UI and
//! the title an imported audio file seeds.
use vstd::prelude::*;
use crate::text::{chars_of, string_of, trim, trim_chars};

verus! {

/// Any displayable error as the message string the UI shows: exactly what
/// its `Display` implementation writes.
pub fn err<E: std::fmt::Display>(e: E) -> (r: String)
    ensures
        vstd::string::to_string_from_display_ensures::<E>(&e, r),
{
    e.to_string()
}

#[verifier::external_type_specification]
#[verifier::external_body]
pub struct ExPath(std::path::Path);

/// Calls `Path::file_stem`, converting the stem it returns to text (`None`
/// when there is no stem or it is not UTF-8). Trusted: a stem is never
/// empty, as std documents it: the whole file name, or, for a name with a
/// `.` after its first character, the part before its last `.`. Which
/// stem a path has follows the platform's path rules (separators differ
/// between systems), so it is not stated as a function of the path.
#[verifier::external_body]
fn file_stem_text(path: &std::path::Path) -> (r: Option<&str>)
    ensures
        r matches Some(s) ==> s@.len() > 0,
{
    path.file_stem().and_then(|s| s.to_str())
}

/// `Imported audio`.
pub open spec fn default_title() -> Seq<char> {
    "Imported audio"@
}

/// The title a file stem seeds: the stem trimmed, or `Imported audio` when
/// there is no stem or it is blank.
pub open spec fn title_of_stem(stem: Option<Seq<char>>) -> Seq<char> {
    match stem {
        Some(s) => if trim(s).len() > 0 {
            trim(s)
        } else {
            default_title()
        },
        None => default_title(),
    }
}

/// The title a file stem seeds: the stem trimmed, or `Imported audio` when
/// there is none or it is blank.
pub fn title_from_stem(stem: Option<&str>) -> (r: String)
    ensures
        r@ == title_of_stem(
            match stem {
                Some(s) => Some(s@),
                None => None,
            },
        ),
{
    match stem {
        Some(s) => {
            let t = trim_chars(&chars_of(s));
            if t.len() > 0 {
                string_of(&t)
            } else {
                string_of(&chars_of("Imported audio"))
            }
        },
        None => string_of(&chars_of("Imported audio")),
    }
}

/// Seed a note title from an imported audio file's name: the file stem
/// (no extension), trimmed, or `Imported audio` when the path has no usable
/// stem.
pub fn title_from_filename(path: &std::path::Path) -> (r: String)
    ensures
        exists|stem: Option<Seq<char>>| r@ == title_of_stem(stem),
{
    let stem = file_stem_text(path);
    let r = title_from_stem(stem);
    assert(r@ == title_of_stem(
        match stem {
            Some(s) => Some(s@),
            None => None,
        },
    ));
    r
}

} // verus!
