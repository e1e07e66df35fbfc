use vstd::prelude::*;
use vstd::string::*;

verus! {

/// The path that `base` joined with the single component `name` denotes:
/// a separator is inserted unless `base` is empty or already ends in one.
pub open spec fn join_spec(base: Seq<char>, name: Seq<char>) -> Seq<char> {
    if base.len() == 0 || base.last() == '/' {
        base + name
    } else {
        base + seq!['/'] + name
    }
}

/// Joins a directory path and one path component (a name that holds no
/// separator and is not absolute).
pub fn join_path(base: &str, name: &str) -> (r: String)
    ensures
        r@ == join_spec(base@, name@),
{
    let n = base.unicode_len();
    let mut r = String::from_str(base);
    if n > 0 && base.get_char(n - 1) != '/' {
        let sep = "/";
        proof {
            reveal_strlit("/");
        }
        r.append(sep);
    }
    r.append(name);
    r
}

/// What `std::path::Path::file_name` yields for a path, as text: its final
/// normal component, or the empty string where there is none (`/`, `..`).
pub uninterp spec fn file_name_of(path: Seq<char>) -> Seq<char>;

/// Relies on `std::path::Path::file_name`: the final component of the path,
/// a function of the path text alone.
#[verifier::external_body]
pub(crate) fn file_name(path: &str) -> (r: String)
    ensures
        r@ == file_name_of(path@),
{
    std::path::Path::new(path).file_name().unwrap_or_default().to_string_lossy().to_string()
}

} // verus!
