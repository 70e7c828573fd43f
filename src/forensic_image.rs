use vstd::prelude::*;

use crate::text::{lower_of, lowercase, same_text};

verus! {

/// What `std::path::Path::extension` gives for the path `p`, as text: the
/// part of the file name after its last dot, if there is one.
pub uninterp spec fn path_extension(p: Seq<char>) -> Option<Seq<char>>;

/// Relies on `std::path::Path::extension`: the extension of the path's file
/// name, which depends on the path text alone (taken only when it is text).
#[verifier::external_body]
fn extension_of(path: &str) -> (r: Option<String>)
    ensures
        r matches Some(e) ==> path_extension(path@) == Some(e@),
        r is None ==> path_extension(path@) is None,
{
    std::path::Path::new(path).extension().and_then(|e| e.to_str()).map(|e| e.to_string())
}

/// The path's extension, in lower case, is `ext`.
pub open spec fn has_extension(path: Seq<char>, ext: Seq<char>) -> bool {
    path_extension(path) matches Some(e) && lower_of(e) == ext
}

fn extension_is(path: &str, ext: &str) -> (r: bool)
    ensures
        r == has_extension(path@, ext@),
{
    match extension_of(path) {
        Some(e) => {
            let lower = lowercase(e.as_str());
            same_text(lower.as_str(), ext)
        },
        None => false,
    }
}

/// Whether the path names a forensic image: an E01 or VMDK file.
pub fn is_forensic_image(path: &str) -> (r: bool)
    ensures
        r == (has_extension(path@, "e01"@) || has_extension(path@, "vmdk"@)),
{
    is_e01_file(path) || is_vmdk_file(path)
}

/// Whether the path's extension is `e01`, in any case.
pub fn is_e01_file(path: &str) -> (r: bool)
    ensures
        r == has_extension(path@, "e01"@),
{
    extension_is(path, "e01")
}

/// Whether the path's extension is `vmdk`, in any case.
pub fn is_vmdk_file(path: &str) -> (r: bool)
    ensures
        r == has_extension(path@, "vmdk"@),
{
    extension_is(path, "vmdk")
}

/// The name of the image format of the path, if it is a forensic image.
pub fn get_format_name(path: &str) -> (r: Option<&'static str>)
    ensures
        has_extension(path@, "e01"@) ==> (r matches Some(n) && n@ == "E01/EWF"@),
        !has_extension(path@, "e01"@) && has_extension(path@, "vmdk"@) ==> (r matches Some(n)
            && n@ == "VMDK"@),
        !has_extension(path@, "e01"@) && !has_extension(path@, "vmdk"@) ==> r is None,
{
    if is_e01_file(path) {
        Some("E01/EWF")
    } else if is_vmdk_file(path) {
        Some("VMDK")
    } else {
        None
    }
}

} // verus!
