use subtra_core::paths::{has_extension_ignore_case, sibling_with_suffix};

#[test]
fn derives_checkpoint_and_output_names() {
    assert_eq!(
        sibling_with_suffix("video.mkv", "_partial_translation_pt_br"),
        "video_partial_translation_pt_br"
    );
    assert_eq!(sibling_with_suffix("orig.srt", "_pt_br.srt"), "orig_pt_br.srt");
    assert_eq!(sibling_with_suffix("movie.mkv", ".srt"), "movie.srt");
    assert_eq!(sibling_with_suffix("movie.mkv", "_temp_en.srt"), "movie_temp_en.srt");
}

#[test]
fn sibling_names_stay_in_the_directory() {
    assert_eq!(sibling_with_suffix("a/b/movie.srt", "_pt_br.srt"), "a/b/movie_pt_br.srt");
    assert_eq!(sibling_with_suffix("/abs/path/x.y.z", "_en.srt"), "/abs/path/x.y_en.srt");
}

#[test]
fn stem_of_dotless_and_hidden_names() {
    assert_eq!(sibling_with_suffix("plain", "_x"), "plain_x");
    assert_eq!(sibling_with_suffix(".hidden", "_x"), ".hidden_x");
}

#[test]
fn extension_check_ignores_ascii_case() {
    assert!(has_extension_ignore_case("movie.srt", "srt"));
    assert!(has_extension_ignore_case("movie.SRT", "srt"));
    assert!(has_extension_ignore_case("a/b.c/movie.Srt", "srt"));
    assert!(!has_extension_ignore_case("movie.mkv", "srt"));
    assert!(!has_extension_ignore_case("movie", "srt"));
    assert!(!has_extension_ignore_case(".srt", "srt"));
}
