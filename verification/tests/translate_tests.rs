use std::cell::RefCell;
use subtra_core::srt::{parse, SrtBlock};
use subtra_core::translate::{
    estimate_remaining, format_eta, glossary_sample, needs_retry, percent_complete,
    process_blocks, with_language, IndexedLine, ProviderError, RunState, Translator,
};

fn block(index: u32, start_ms: u64, end_ms: u64, line: &str) -> SrtBlock {
    SrtBlock { index, start_ms, end_ms, text: vec![line.to_string()] }
}

/// A provider that prefixes every line and always succeeds.
struct PrefixTr;

impl Translator for PrefixTr {
    fn translate_batch(
        &self,
        _summary: &str,
        _prev: &Vec<String>,
        lines: &Vec<IndexedLine>,
        _target_locale: &str,
    ) -> Result<Vec<IndexedLine>, ProviderError> {
        Ok(lines
            .iter()
            .map(|l| IndexedLine { index: l.index, text: format!("pt:{}", l.text) })
            .collect())
    }

    fn build_glossary(&self, _sample: &Vec<String>) -> Result<String, ProviderError> {
        Ok("sum".to_string())
    }
}

#[test]
fn estimates_remaining_time() {
    let ms = estimate_remaining(1000, 2000, 65, 50);
    assert_eq!(ms, 3000);
}

#[test]
fn estimates_single_batch() {
    assert_eq!(estimate_remaining(1000, 1000, 50, 50), 1000);
    assert_eq!(estimate_remaining(0, 0, 1, 50), 0);
}

#[test]
fn reports_percent_complete() {
    assert_eq!(percent_complete(0, 3), 0);
    assert_eq!(percent_complete(1, 3), 33);
    assert_eq!(percent_complete(2, 3), 66);
    assert_eq!(percent_complete(3, 3), 100);
}

#[test]
fn formats_eta() {
    assert_eq!(format_eta(110_000), "1 minute 50 seconds");
    assert_eq!(format_eta(45_000), "45 seconds");
}

#[test]
fn formats_eta_singular() {
    assert_eq!(format_eta(61_000), "1 minute 1 second");
    assert_eq!(format_eta(1_000), "1 second");
    assert_eq!(format_eta(120_000), "2 minutes 0 seconds");
}

#[test]
fn retry_on_wrong_count_or_echo() {
    let orig = vec![
        IndexedLine { index: 1, text: "a".to_string() },
        IndexedLine { index: 2, text: "b".to_string() },
    ];
    let short = vec![IndexedLine { index: 1, text: "x".to_string() }];
    assert!(needs_retry(&orig, &short));
    let echoed = vec![
        IndexedLine { index: 1, text: "x".to_string() },
        IndexedLine { index: 2, text: "b".to_string() },
    ];
    assert!(needs_retry(&orig, &echoed));
    let good = vec![
        IndexedLine { index: 1, text: "x".to_string() },
        IndexedLine { index: 2, text: "y".to_string() },
    ];
    assert!(!needs_retry(&orig, &good));
}

#[test]
fn samples_at_most_fifteen_lines() {
    let mut blocks = Vec::new();
    for i in 0..10u32 {
        let mut b = block(i + 1, 0, 1, "");
        b.text = vec![format!("line {} a", i), format!("line {} b", i)];
        blocks.push(b);
    }
    let sample = glossary_sample(&blocks);
    assert_eq!(sample.len(), 15);
    assert_eq!(sample[0], "line 0 a");
    assert_eq!(sample[1], "line 0 b");
    assert_eq!(sample[14], "line 7 a");
    let small = glossary_sample(&blocks[0..2].to_vec());
    assert_eq!(small, vec!["line 0 a", "line 0 b", "line 1 a", "line 1 b"]);
}

#[test]
fn replaces_language_placeholder() {
    assert_eq!(
        with_language("Translate into $LANGUAGE.", "Brazilian Portuguese"),
        "Translate into Brazilian Portuguese."
    );
    assert_eq!(with_language("$LANGUAGE/$LANGUAGE", "x"), "x/x");
    assert_eq!(with_language("no placeholder", "x"), "no placeholder");
}

#[test]
fn flushes_in_block_order_despite_completion_order() {
    let mut blocks = Vec::new();
    for i in 0..150u32 {
        blocks.push(block(i + 1, i as u64 * 1000, i as u64 * 1000 + 900, &format!("src {}", i)));
    }
    let mut st = RunState::new(blocks.clone(), &blocks, 0, 50);
    assert_eq!(st.jobs.len(), 3);
    assert_eq!(st.jobs[0].start, 0);
    assert_eq!(st.jobs[1].start, 50);
    assert_eq!(st.jobs[2].start, 100);

    let answer = |st: &RunState, k: usize| -> Vec<IndexedLine> {
        st.jobs[k]
            .lines
            .iter()
            .map(|l| IndexedLine { index: l.index, text: format!("pt:{}", l.text) })
            .collect()
    };

    // The last batch finishes first: accepted, but nothing may flush yet.
    let a2 = answer(&st, 2);
    assert!(st.accept(2, Ok(a2), 10).is_none());
    assert!(st.try_flush().is_none());
    assert_eq!(st.next, 0);

    // The first batch arrives: exactly it flushes.
    let a0 = answer(&st, 0);
    assert!(st.accept(0, Ok(a0), 20).is_none());
    let ev = st.try_flush().expect("first batch must flush");
    assert_eq!((ev.start, ev.end), (0, 50));
    assert_eq!(ev.elapsed_ms, 20);
    // No earlier batch duration yet, so no estimate.
    assert_eq!(ev.estimate_ms, None);
    assert!(st.try_flush().is_none());
    assert_eq!(st.next, 50);

    // The middle batch completes the run; both remaining batches flush in order.
    let a1 = answer(&st, 1);
    assert!(st.accept(1, Ok(a1), 30).is_none());
    let ev1 = st.try_flush().expect("second batch must flush");
    assert_eq!((ev1.start, ev1.end), (50, 100));
    // Average of the last two durations times the one remaining batch.
    assert_eq!(ev1.estimate_ms, Some(25));
    let ev2 = st.try_flush().expect("third batch must flush");
    assert_eq!((ev2.start, ev2.end), (100, 150));
    // Nothing remains, so no estimate.
    assert_eq!(ev2.estimate_ms, None);
    assert!(st.try_flush().is_none());
    assert_eq!(st.next, 150);

    for i in 0..150usize {
        assert_eq!(st.blocks[i].text, vec![format!("pt:src {}", i)]);
        assert_eq!(st.blocks[i].index, i as u32 + 1);
    }
}

#[test]
fn translates_existing_srt() {
    let content = "1\n00:00:00,000 --> 00:00:01,000\nhello\n\n2\n00:00:01,000 --> 00:00:02,000\nworld\n";
    let blocks = parse(content).unwrap();
    let out_blocks = process_blocks(&PrefixTr, &blocks, blocks.clone(), 0, 50, "pt-BR").unwrap();
    let translated = subtra_core::srt::format(&out_blocks);
    assert!(translated.contains("pt:hello"));
    assert!(translated.contains("pt:world"));
    assert_eq!(out_blocks[0].index, 1);
    assert_eq!(out_blocks[1].index, 2);
    assert_eq!(out_blocks[0].start_ms, 0);
    assert_eq!(out_blocks[1].start_ms, 1000);
    assert_eq!(out_blocks[1].end_ms, 2000);
    assert_eq!(
        subtra_core::paths::sibling_with_suffix("orig.srt", "_pt_br.srt"),
        "orig_pt_br.srt"
    );
}

/// Fails the first call, succeeds afterwards.
struct FlakyTr {
    attempts: RefCell<u32>,
}

impl Translator for FlakyTr {
    fn translate_batch(
        &self,
        _summary: &str,
        _prev: &Vec<String>,
        lines: &Vec<IndexedLine>,
        _target_locale: &str,
    ) -> Result<Vec<IndexedLine>, ProviderError> {
        let mut n = self.attempts.borrow_mut();
        if *n == 0 {
            *n += 1;
            Err(ProviderError { message: "boom".to_string() })
        } else {
            Ok(lines
                .iter()
                .map(|l| IndexedLine { index: l.index, text: format!("pt:{}", l.text) })
                .collect())
        }
    }

    fn build_glossary(&self, _sample: &Vec<String>) -> Result<String, ProviderError> {
        Ok("sum".to_string())
    }
}

#[test]
fn retries_failed_batch() {
    let content = "1\n00:00:00,000 --> 00:00:01,000\nhello\n\n";
    let blocks = parse(content).unwrap();
    let tr = FlakyTr { attempts: RefCell::new(0) };
    let out = process_blocks(&tr, &blocks, blocks.clone(), 0, 50, "pt-BR").unwrap();
    let translated = subtra_core::srt::format(&out);
    assert!(translated.contains("pt:hello"));
}

/// Echoes its input once, then translates.
struct LazyTr {
    attempts: RefCell<u32>,
}

impl Translator for LazyTr {
    fn translate_batch(
        &self,
        _summary: &str,
        _prev: &Vec<String>,
        lines: &Vec<IndexedLine>,
        _target_locale: &str,
    ) -> Result<Vec<IndexedLine>, ProviderError> {
        let mut n = self.attempts.borrow_mut();
        if *n == 0 {
            *n += 1;
            Ok(lines.iter().map(|l| IndexedLine { index: l.index, text: l.text.clone() }).collect())
        } else {
            Ok(lines
                .iter()
                .map(|l| IndexedLine { index: l.index, text: format!("pt:{}", l.text) })
                .collect())
        }
    }

    fn build_glossary(&self, _sample: &Vec<String>) -> Result<String, ProviderError> {
        Ok("sum".to_string())
    }
}

#[test]
fn retries_untranslated_lines() {
    let content = "1\n00:00:00,000 --> 00:00:01,000\nhi\n\n";
    let blocks = parse(content).unwrap();
    let tr = LazyTr { attempts: RefCell::new(0) };
    let out = process_blocks(&tr, &blocks, blocks.clone(), 0, 50, "pt-BR").unwrap();
    let translated = subtra_core::srt::format(&out);
    assert!(translated.contains("pt:hi"));
    assert_eq!(*tr.attempts.borrow(), 1);
}

/// Cannot even build a glossary.
struct NoGlossaryTr;

impl Translator for NoGlossaryTr {
    fn translate_batch(
        &self,
        _summary: &str,
        _prev: &Vec<String>,
        _lines: &Vec<IndexedLine>,
        _target_locale: &str,
    ) -> Result<Vec<IndexedLine>, ProviderError> {
        Err(ProviderError { message: "unused".to_string() })
    }

    fn build_glossary(&self, _sample: &Vec<String>) -> Result<String, ProviderError> {
        Err(ProviderError { message: "no glossary".to_string() })
    }
}

#[test]
fn glossary_failure_aborts_run() {
    let blocks = vec![block(1, 0, 1000, "hello")];
    let err = process_blocks(&NoGlossaryTr, &blocks, blocks.clone(), 0, 50, "pt-BR").unwrap_err();
    assert_eq!(err.message, "no glossary");
}

#[test]
fn resumed_run_skips_translated_prefix() {
    let source = vec![block(1, 0, 1000, "a"), block(2, 1000, 2000, "b")];
    let mut working = source.clone();
    working[0].text = vec!["done:a".to_string()];
    let out = process_blocks(&PrefixTr, &source, working, 1, 50, "pt-BR").unwrap();
    assert_eq!(out[0].text, vec!["done:a".to_string()]);
    assert_eq!(out[1].text, vec!["pt:b".to_string()]);
}
