//! Extension tests on the paths of a file-manager selection.
use vstd::prelude::*;
use vstd::string::StringSliceAdditionalSpecFns;

verus! {

/// The extension of `path` as `std::path::Path::extension` finds it (what follows the last `.`
/// of the file name, when the name has a `.` past its first byte), as UTF-8 bytes; `None`
/// when there is none.
pub uninterp spec fn path_extension_of(path: Seq<u8>) -> Option<Seq<u8>>;

/// The extension of `path` through `std::path::Path::extension` and `OsStr::to_str`. Claims:
/// the result is the named function of the path's bytes.
#[verifier::external_body]
fn path_extension(path: &str) -> (r: Option<Vec<u8>>)
    ensures
        match r {
            Some(v) => path_extension_of(path.spec_bytes()) == Some(v@),
            None => path_extension_of(path.spec_bytes()) is None,
        },
{
    match std::path::Path::new(path).extension() {
        Some(e) => match e.to_str() {
            Some(s) => Some(s.as_bytes().to_vec()),
            None => None,
        },
        None => None,
    }
}

/// `b` with an ASCII capital lowered.
pub open spec fn lower_ascii(b: u8) -> u8 {
    if 65 <= b <= 90 { (b + 32) as u8 } else { b }
}

/// `a` and `b` match ignoring ASCII case.
pub open spec fn eq_ignoring_ascii_case(a: Seq<u8>, b: Seq<u8>) -> bool {
    a.len() == b.len() && forall|i: int| 0 <= i < a.len() ==> #[trigger] lower_ascii(a[i]) == lower_ascii(b[i])
}

/// `path` has the extension `ext`, ignoring ASCII case.
pub open spec fn has_ext(path: Seq<u8>, ext: Seq<u8>) -> bool {
    match path_extension_of(path) {
        Some(e) => eq_ignoring_ascii_case(e, ext),
        None => false,
    }
}

fn same_ignoring_case(a: &[u8], b: &[u8]) -> (r: bool)
    ensures
        r == eq_ignoring_ascii_case(a@, b@),
{
    if a.len() != b.len() {
        return false;
    }
    let mut i: usize = 0;
    while i < a.len()
        invariant
            a@.len() == b@.len(),
            i <= a@.len(),
            forall|j: int| 0 <= j < i ==> #[trigger] lower_ascii(a@[j]) == lower_ascii(b@[j]),
        decreases a@.len() - i,
    {
        let x = if a[i] >= 65 && a[i] <= 90 { a[i] + 32 } else { a[i] };
        let y = if b[i] >= 65 && b[i] <= 90 { b[i] + 32 } else { b[i] };
        if x != y {
            assert(lower_ascii(a@[i as int]) != lower_ascii(b@[i as int]));
            return false;
        }
        i = i + 1;
    }
    true
}

fn path_has_ext(path: &str, ext: &str) -> (r: bool)
    ensures
        r == has_ext(path.spec_bytes(), ext.spec_bytes()),
{
    match path_extension(path) {
        Some(e) => same_ignoring_case(e.as_slice(), ext.as_bytes()),
        None => false,
    }
}

/// Whether some path of `paths` has the extension `ext`, ignoring ASCII case.
pub fn any_has_ext(paths: &[&str], ext: &str) -> (r: bool)
    ensures
        r == exists|i: int| 0 <= i < paths@.len() && #[trigger] has_ext(paths@[i].spec_bytes(), ext.spec_bytes()),
{
    let mut i: usize = 0;
    while i < paths.len()
        invariant
            i <= paths@.len(),
            forall|j: int| 0 <= j < i ==> !#[trigger] has_ext(paths@[j].spec_bytes(), ext.spec_bytes()),
        decreases paths@.len() - i,
    {
        if path_has_ext(paths[i], ext) {
            return true;
        }
        i = i + 1;
    }
    false
}

/// Whether `paths` is not empty and every path has the extension `ext`, ignoring ASCII case.
pub fn all_have_ext(paths: &[&str], ext: &str) -> (r: bool)
    ensures
        r == (paths@.len() > 0 && forall|i: int| 0 <= i < paths@.len() ==> #[trigger] has_ext(paths@[i].spec_bytes(), ext.spec_bytes())),
{
    if paths.len() == 0 {
        return false;
    }
    let mut i: usize = 0;
    while i < paths.len()
        invariant
            i <= paths@.len(),
            forall|j: int| 0 <= j < i ==> #[trigger] has_ext(paths@[j].spec_bytes(), ext.spec_bytes()),
        decreases paths@.len() - i,
    {
        if !path_has_ext(paths[i], ext) {
            return false;
        }
        i = i + 1;
    }
    true
}

} // verus!
