use subtra_core::video::{best_english_stream, ffmpeg_extract_args, Stream, Tags};

fn stream(language: Option<&str>, title: Option<&str>) -> Stream {
    Stream {
        tags: Tags {
            language: language.map(|s| s.to_string()),
            title: title.map(|s| s.to_string()),
        },
    }
}

#[test]
fn builds_expected_ffmpeg_args() {
    let (out, args) = ffmpeg_extract_args("foo.mkv", 3);
    assert_eq!(out, "foo_en.srt");
    let expected = ["-i", "foo.mkv", "-map", "0:s:3", "-c:s", "srt", "foo_en.srt"]
        .iter()
        .map(|s| s.to_string())
        .collect::<Vec<_>>();
    assert_eq!(args, expected);
}

#[test]
fn extract_args_keep_the_directory() {
    let (out, args) = ffmpeg_extract_args("shows/ep1.mkv", 0);
    assert_eq!(out, "shows/ep1_en.srt");
    assert_eq!(args[1], "shows/ep1.mkv");
    assert_eq!(args[3], "0:s:0");
    assert_eq!(args[6], "shows/ep1_en.srt");
}

#[test]
fn picks_cc_stream_over_plain() {
    let streams = vec![
        stream(Some("eng"), Some("English")),
        stream(Some("eng"), Some("English CC")),
    ];
    assert_eq!(best_english_stream(&streams), Some(1));
}

#[test]
fn keeps_earliest_stream_of_equal_score() {
    let streams = vec![
        stream(Some("eng"), Some("English SDH")),
        stream(Some("eng"), Some("Captions")),
        stream(Some("eng"), Some("Subtitles")),
    ];
    assert_eq!(best_english_stream(&streams), Some(0));
}

#[test]
fn skips_other_languages() {
    let streams = vec![
        stream(Some("por"), Some("Portuguese CC")),
        stream(Some("ENG"), None),
        stream(None, Some("English CC")),
    ];
    assert_eq!(best_english_stream(&streams), Some(1));
}

#[test]
fn no_english_stream_gives_none() {
    let streams = vec![stream(Some("fra"), None), stream(None, None)];
    assert_eq!(best_english_stream(&streams), None);
    assert_eq!(best_english_stream(&Vec::new()), None);
}

#[test]
fn prefers_sub_marker_over_plain_title() {
    let streams = vec![
        stream(Some("eng"), Some("English")),
        stream(Some("eng"), Some("English subtitles")),
    ];
    assert_eq!(best_english_stream(&streams), Some(1));
}
