use subtra_core::checkpoint::resume_point;
use subtra_core::srt::SrtBlock;

fn block(index: u32, start_ms: u64, end_ms: u64, line: &str) -> SrtBlock {
    SrtBlock { index, start_ms, end_ms, text: vec![line.to_string()] }
}

#[test]
fn resumes_from_partial() {
    let blocks = vec![block(1, 0, 1000, "a"), block(2, 1000, 2000, "b")];
    let mut translated = blocks.clone();
    translated[0].text = vec!["pt:a".to_string()];
    let (idx, history) = resume_point(&blocks, &translated);
    assert_eq!(idx, 1);
    assert_eq!(history, vec!["a".to_string()]);
    assert_eq!(translated[0].text, vec!["pt:a".to_string()]);
}

#[test]
fn resume_starts_at_zero_when_nothing_differs() {
    let blocks = vec![block(1, 0, 1000, "a"), block(2, 1000, 2000, "b")];
    let loaded = blocks.clone();
    let (idx, history) = resume_point(&blocks, &loaded);
    assert_eq!(idx, 0);
    assert!(history.is_empty());
}

#[test]
fn resume_reaches_end_when_everything_differs() {
    let blocks = vec![block(1, 0, 1000, "a"), block(2, 1000, 2000, "b")];
    let mut loaded = blocks.clone();
    loaded[0].text = vec!["pt:a".to_string()];
    loaded[1].text = vec!["pt:b".to_string()];
    let (idx, history) = resume_point(&blocks, &loaded);
    assert_eq!(idx, 2);
    assert_eq!(history, vec!["a".to_string(), "b".to_string()]);
}

#[test]
fn resume_context_is_a_window_of_four() {
    let mut blocks = Vec::new();
    for i in 0..6u32 {
        blocks.push(block(i + 1, 0, 1000, &format!("s{}", i)));
    }
    let mut loaded = blocks.clone();
    for i in 0..6usize {
        loaded[i].text = vec![format!("t{}", i)];
    }
    let (idx, history) = resume_point(&blocks, &loaded);
    assert_eq!(idx, 6);
    assert_eq!(
        history,
        vec!["s2".to_string(), "s3".to_string(), "s4".to_string(), "s5".to_string()]
    );
}

#[test]
fn resume_joins_multiline_context() {
    let mut blocks = vec![block(1, 0, 1000, "x")];
    blocks[0].text = vec!["one".to_string(), "two".to_string()];
    let mut loaded = blocks.clone();
    loaded[0].text = vec!["other".to_string()];
    let (idx, history) = resume_point(&blocks, &loaded);
    assert_eq!(idx, 1);
    assert_eq!(history, vec!["one\ntwo".to_string()]);
}
