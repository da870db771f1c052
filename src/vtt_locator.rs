//! Which subtitle file belongs to a media file: the media path with its
//! extension replaced by `vtt` is preferred, then the media file name with
//! `.vtt` appended.

use vstd::prelude::*;

verus! {

/// Why no subtitle file was found.
#[derive(Clone, Copy, Debug, PartialEq, Eq, Structural)]
pub enum VttPathError {
    /// The media path has no file name.
    InvalidPath,
    /// Neither place holds a subtitle file.
    VttNotFound,
}

impl VttPathError {
    /// The variant's name, for display.
    pub fn to_string(&self) -> (r: String)
        ensures
            *self == VttPathError::InvalidPath ==> r@ == "InvalidPath"@,
            *self == VttPathError::VttNotFound ==> r@ == "VttNotFound"@,
    {
        match self {
            VttPathError::InvalidPath => String::from_str("InvalidPath"),
            VttPathError::VttNotFound => String::from_str("VttNotFound"),
        }
    }
}

/// `path` with its extension set to `ext`, by the target's path syntax.
pub uninterp spec fn path_with_extension(path: Seq<char>, ext: Seq<char>) -> Seq<char>;

/// The last component of `path`, if it names a file, by the target's path syntax.
pub uninterp spec fn path_file_name(path: Seq<char>) -> Option<Seq<char>>;

/// `path` with its last component replaced by `name`, by the target's path syntax.
pub uninterp spec fn path_with_file_name(path: Seq<char>, name: Seq<char>) -> Seq<char>;

/// Relies on `Path::with_extension`: `path` with its extension replaced by
/// `ext`, or `ext` added where it has none. Paths built from `&str` stay
/// valid UTF-8, so the lossy conversion loses nothing. The call panics on
/// an extension that holds a path separator, which `requires` leaves out.
#[verifier::external_body]
fn with_extension(path: &str, ext: &str) -> (r: String)
    requires
        forall|i: int| 0 <= i < ext@.len() ==> ext@[i] != '/' && ext@[i] != '\\',
    ensures
        r@ == path_with_extension(path@, ext@),
{
    std::path::Path::new(path).with_extension(ext).to_string_lossy().into_owned()
}

/// Relies on `Path::file_name`: the final component of `path`, if there is
/// one (`None` where the path ends in `..`).
#[verifier::external_body]
fn file_name(path: &str) -> (r: Option<String>)
    ensures
        r is None <==> path_file_name(path@) is None,
        r matches Some(n) ==> path_file_name(path@) == Some(n@),
{
    std::path::Path::new(path).file_name().map(|n| n.to_string_lossy().into_owned())
}

/// Relies on `Path::with_file_name`: `path` with its last component replaced
/// by `name`.
#[verifier::external_body]
fn with_file_name(path: &str, name: &str) -> (r: String)
    ensures
        r@ == path_with_file_name(path@, name@),
{
    std::path::Path::new(path).with_file_name(name).to_string_lossy().into_owned()
}

/// The two places where the subtitle file of a media file may be.
pub struct VttCandidates {
    /// The media path with its extension replaced by `vtt`.
    pub replaced: String,
    /// The media path with `.vtt` appended to its file name; `None` where
    /// the path has no file name.
    pub appended: Option<String>,
}

impl VttCandidates {
    /// The candidates for the media file at `video_path`.
    pub fn for_video(video_path: &str) -> (r: VttCandidates)
        ensures
            r.replaced@ == path_with_extension(video_path@, "vtt"@),
            r.appended is None <==> path_file_name(video_path@) is None,
            r.appended matches Some(a) ==> a@ == path_with_file_name(
                video_path@,
                path_file_name(video_path@)->0 + ".vtt"@,
            ),
    {
        proof {
            reveal_strlit("vtt");
        }
        let replaced = with_extension(video_path, "vtt");
        let appended = match file_name(video_path) {
            None => None,
            Some(name) => {
                let mut name = name;
                name.append(".vtt");
                Some(with_file_name(video_path, name.as_str()))
            },
        };
        VttCandidates { replaced, appended }
    }
}

/// Picks the subtitle file among `candidates`, given which of them exist:
/// a media path without a file name has none; otherwise the replaced
/// extension comes first, then the appended one.
pub fn locate(candidates: &VttCandidates, replaced_exists: bool, appended_exists: bool) -> (r: Result<
    String,
    VttPathError,
>)
    ensures
        candidates.appended is None ==> r == Err::<String, VttPathError>(VttPathError::InvalidPath),
        candidates.appended is Some && replaced_exists ==> (r matches Ok(p) && p@
            == candidates.replaced@),
        candidates.appended is Some && !replaced_exists && appended_exists ==> (r matches Ok(p)
            && p@ == candidates.appended->0@),
        candidates.appended is Some && !replaced_exists && !appended_exists ==> r == Err::<
            String,
            VttPathError,
        >(VttPathError::VttNotFound),
{
    match &candidates.appended {
        None => Err(VttPathError::InvalidPath),
        Some(a) => if replaced_exists {
            Ok(candidates.replaced.clone())
        } else if appended_exists {
            Ok(a.clone())
        } else {
            Err(VttPathError::VttNotFound)
        },
    }
}

} // verus!
