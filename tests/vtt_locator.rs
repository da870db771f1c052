use webvtt::vtt_locator::{locate, VttCandidates, VttPathError};

#[test]
fn candidates_for_media_path() {
    let c = VttCandidates::for_video("dir/test.mp4");
    assert_eq!(c.replaced, String::from("dir/test.vtt"));
    assert_eq!(c.appended, Some(String::from("dir/test.mp4.vtt")));
}

#[test]
fn candidates_without_extension() {
    let c = VttCandidates::for_video("dir/movie");
    assert_eq!(c.replaced, String::from("dir/movie.vtt"));
    assert_eq!(c.appended, Some(String::from("dir/movie.vtt")));
}

#[test]
fn candidates_without_file_name() {
    let c = VttCandidates::for_video("dir/..");
    assert_eq!(c.appended, None);
    assert_eq!(locate(&c, false, false), Err(VttPathError::InvalidPath));
    assert_eq!(locate(&c, true, false), Err(VttPathError::InvalidPath));
}

#[test]
fn root_path_has_no_subtitle() {
    let c = VttCandidates::for_video("/");
    assert_eq!(c.appended, None);
    assert_eq!(locate(&c, true, true), Err(VttPathError::InvalidPath));
}

#[test]
fn doesnt_find_if_no_file() {
    let c = VttCandidates::for_video("test.mp4");
    assert_eq!(locate(&c, false, false), Err(VttPathError::VttNotFound));
}

#[test]
fn finds_replaced_extension() {
    let c = VttCandidates::for_video("test.mp4");
    assert_eq!(locate(&c, true, false), Ok(String::from("test.vtt")));
}

#[test]
fn finds_appended_extension() {
    let c = VttCandidates::for_video("test.mp4");
    assert_eq!(locate(&c, false, true), Ok(String::from("test.mp4.vtt")));
}

#[test]
fn prefers_replaced_extension() {
    let c = VttCandidates::for_video("test.mp4");
    assert_eq!(locate(&c, true, true), Ok(String::from("test.vtt")));
}

#[test]
fn error_names() {
    assert_eq!(VttPathError::InvalidPath.to_string(), String::from("InvalidPath"));
    assert_eq!(VttPathError::VttNotFound.to_string(), String::from("VttNotFound"));
}
