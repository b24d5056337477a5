use std::cell::Cell;
use std::io::Error;
use term_snip::{RecordingTerm, TermCall, TermSnip, TermWrap};

fn line(text: &str) -> TermCall {
    TermCall::WriteLine(text.to_string())
}

fn history_of<T: TermWrap>(snip: &TermSnip<T>) -> Vec<String> {
    snip.history().iter().cloned().collect()
}

fn strings(items: &[&str]) -> Vec<String> {
    items.iter().map(|s| s.to_string()).collect()
}

fn writes(calls: &[TermCall]) -> usize {
    calls.iter().filter(|c| matches!(c, TermCall::WriteLine(_))).count()
}

fn clears(calls: &[TermCall]) -> Vec<usize> {
    let mut found = Vec::new();
    for call in calls {
        if let TermCall::ClearLastLines(n) = call {
            found.push(*n);
        }
    }
    found
}

/// A terminal that loses one column with every line it writes.
struct Shrinking {
    cols: Cell<u16>,
    written: Vec<String>,
}

impl TermWrap for Shrinking {
    fn write_line(&mut self, s: &str) -> Result<(), Error> {
        self.written.push(s.to_string());
        self.cols.set(self.cols.get() - 1);
        Ok(())
    }

    fn clear_last_lines(&mut self, _n: usize) -> Result<(), Error> {
        Ok(())
    }

    fn size(&self) -> (u16, u16) {
        (24, self.cols.get())
    }
}

#[test]
fn test_simple_one_line() {
    let mut term_snip = TermSnip::new(RecordingTerm::new(20, 20), 5);

    term_snip.write_line("test").unwrap();

    assert_eq!(term_snip.term().calls(), &vec![line("test")]);
}

#[test]
fn test_six_lines_with_limit_5() {
    let mut term_snip = TermSnip::new(RecordingTerm::new(20, 20), 5);

    // write six lines
    for _n in 0..6 {
        term_snip.write_line("test").unwrap();
    }

    // five lines are written and fill the window; the sixth clears the
    // window once and writes all five of its lines again
    let calls = term_snip.term().calls();
    assert_eq!(writes(calls), 10);
    assert_eq!(clears(calls), vec![5]);
}

#[test]
fn test_long_line_split() {
    // the terminal is 6 columns wide
    let mut term_snip = TermSnip::new(RecordingTerm::new(20, 6), 5);

    // the text is 17 chars long, which gives three lines
    let testline = "Lorem ipsum dolor";
    term_snip.write_line(testline).unwrap();

    let calls = term_snip.term().calls();
    assert_eq!(writes(calls), 3);
    assert_eq!(calls.len(), 3);
}

#[test]
fn five_lines_fill_the_window() {
    let mut snip = TermSnip::new(RecordingTerm::new(20, 20), 5);
    for text in ["1", "2", "3", "4", "5"] {
        snip.write_line(text).unwrap();
    }
    assert_eq!(
        snip.term().calls(),
        &vec![line("1"), line("2"), line("3"), line("4"), line("5")]
    );
    assert_eq!(history_of(&snip), strings(&["1", "2", "3", "4", "5"]));
}

#[test]
fn sixth_line_repaints_the_window() {
    let mut snip = TermSnip::new(RecordingTerm::new(20, 20), 5);
    for text in ["1", "2", "3", "4", "5", "6"] {
        snip.write_line(text).unwrap();
    }
    let calls = snip.term().calls();
    assert_eq!(
        calls,
        &vec![
            line("1"),
            line("2"),
            line("3"),
            line("4"),
            line("5"),
            TermCall::ClearLastLines(5),
            line("2"),
            line("3"),
            line("4"),
            line("5"),
            line("6"),
        ]
    );
    assert_eq!(writes(calls), 10);
    assert_eq!(history_of(&snip), strings(&["2", "3", "4", "5", "6"]));
    assert_eq!(snip.term().screen(), &strings(&["2", "3", "4", "5", "6"]));
}

#[test]
fn long_line_is_cut_by_position() {
    let mut snip = TermSnip::new(RecordingTerm::new(20, 6), 5);
    snip.write_line("Lorem ipsum dolor").unwrap();
    assert_eq!(
        snip.term().calls(),
        &vec![line("Lorem "), line("ipsum "), line("dolor")]
    );
    assert_eq!(history_of(&snip), strings(&["Lorem ", "ipsum ", "dolor"]));
}

#[test]
fn clear_on_empty_window() {
    let mut snip = TermSnip::new(RecordingTerm::new(20, 20), 5);
    assert!(snip.clear_lines().is_ok());
    assert_eq!(snip.term().calls(), &vec![TermCall::ClearLastLines(0)]);
    assert!(snip.history().is_empty());
}

#[test]
fn clear_removes_what_was_written() {
    let mut snip = TermSnip::new(RecordingTerm::new(20, 20), 5);
    for text in ["a", "b", "c"] {
        snip.write_line(text).unwrap();
    }
    snip.clear_lines().unwrap();
    assert_eq!(
        snip.term().calls(),
        &vec![line("a"), line("b"), line("c"), TermCall::ClearLastLines(3)]
    );
    assert!(snip.history().is_empty());
    assert!(snip.term().screen().is_empty());

    // the session goes on from an empty window
    snip.write_line("d").unwrap();
    assert_eq!(history_of(&snip), strings(&["d"]));
    assert_eq!(snip.term().screen(), &strings(&["d"]));
}

#[test]
fn fill_pads_short_line() {
    let mut snip = TermSnip::with_fill(RecordingTerm::new(20, 10), 5, true);
    snip.write_line("hi").unwrap();
    assert_eq!(snip.term().calls(), &vec![line("hi        ")]);
    assert_eq!(history_of(&snip), strings(&["hi        "]));
    assert!(snip.fill());
}

#[test]
fn fill_pads_only_the_last_chunk() {
    let mut snip = TermSnip::with_fill(RecordingTerm::new(20, 4), 5, true);
    snip.write_line("abcdefghij").unwrap();
    assert_eq!(
        snip.term().calls(),
        &vec![line("abcd"), line("efgh"), line("ij  ")]
    );
}

#[test]
fn without_fill_lines_stay_short() {
    let mut snip = TermSnip::new(RecordingTerm::new(20, 10), 5);
    snip.write_line("hi").unwrap();
    assert_eq!(snip.term().calls(), &vec![line("hi")]);
    assert!(!snip.fill());
}

#[test]
fn line_as_wide_as_terminal_splits() {
    let mut snip = TermSnip::new(RecordingTerm::new(20, 4), 5);
    snip.write_line("abcd").unwrap();
    assert_eq!(snip.term().calls(), &vec![line("abcd"), line("")]);
    assert_eq!(history_of(&snip), strings(&["abcd", ""]));
}

#[test]
fn line_one_short_of_terminal_stays_whole() {
    let mut snip = TermSnip::new(RecordingTerm::new(20, 5), 5);
    snip.write_line("abcd").unwrap();
    assert_eq!(snip.term().calls(), &vec![line("abcd")]);
}

#[test]
fn chunks_push_through_a_full_window() {
    let mut snip = TermSnip::new(RecordingTerm::new(20, 3), 2);
    snip.write_line("abcdefgh").unwrap();
    assert_eq!(
        snip.term().calls(),
        &vec![
            line("abc"),
            line("def"),
            TermCall::ClearLastLines(2),
            line("def"),
            line("gh"),
        ]
    );
    assert_eq!(history_of(&snip), strings(&["def", "gh"]));
    assert_eq!(snip.term().screen(), &strings(&["def", "gh"]));
}

#[test]
fn zero_limit_keeps_nothing() {
    let mut snip = TermSnip::new(RecordingTerm::new(20, 20), 0);
    snip.write_line("a").unwrap();
    snip.write_line("b").unwrap();
    assert_eq!(
        snip.term().calls(),
        &vec![TermCall::ClearLastLines(0), TermCall::ClearLastLines(0)]
    );
    assert!(snip.history().is_empty());
    assert!(snip.term().screen().is_empty());
    assert_eq!(snip.limit(), 0);
}

#[test]
fn limit_of_one_shows_the_newest_line() {
    let mut snip = TermSnip::new(RecordingTerm::new(20, 20), 1);
    snip.write_line("a").unwrap();
    snip.write_line("b").unwrap();
    assert_eq!(
        snip.term().calls(),
        &vec![line("a"), TermCall::ClearLastLines(1), line("b")]
    );
    assert_eq!(history_of(&snip), strings(&["b"]));
    assert_eq!(snip.term().screen(), &strings(&["b"]));
}

#[test]
fn zero_width_keeps_text_whole() {
    let mut snip = TermSnip::with_fill(RecordingTerm::new(20, 0), 5, true);
    snip.write_line("abc").unwrap();
    assert_eq!(snip.term().calls(), &vec![line("abc")]);
}

#[test]
fn write_wrapped_takes_the_width_given() {
    let mut snip = TermSnip::new(RecordingTerm::new(20, 80), 5);
    snip.write_wrapped("abcdef", 4).unwrap();
    assert_eq!(snip.term().calls(), &vec![line("abcd"), line("ef")]);
}

#[test]
fn term_write_line_does_not_wrap() {
    let mut snip = TermSnip::new(RecordingTerm::new(20, 2), 5);
    snip.term_write_line("abcdef").unwrap();
    assert_eq!(snip.term().calls(), &vec![line("abcdef")]);
    assert_eq!(history_of(&snip), strings(&["abcdef"]));
}

#[test]
fn characters_are_counted_not_bytes() {
    let mut snip = TermSnip::new(RecordingTerm::new(20, 2), 5);
    snip.write_line("äöüß€").unwrap();
    assert_eq!(
        snip.term().calls(),
        &vec![line("äö"), line("üß"), line("€")]
    );
}

#[test]
fn history_never_exceeds_limit() {
    for limit in 0..4usize {
        let mut snip = TermSnip::new(RecordingTerm::new(20, 3), limit);
        for text in ["a", "bcdefgh", "", "ijk", "lmnopqrstuvw", "x"] {
            snip.write_line(text).unwrap();
            assert!(snip.history().len() <= limit);
        }
        snip.clear_lines().unwrap();
        assert!(snip.history().len() <= limit);
    }
}

#[test]
fn window_holds_the_newest_lines() {
    let mut snip = TermSnip::new(RecordingTerm::new(20, 20), 3);
    let texts = ["a", "b", "c", "d", "e", "f", "g"];
    for (n, text) in texts.iter().enumerate() {
        snip.write_line(text).unwrap();
        let from = (n + 1).saturating_sub(3);
        assert_eq!(history_of(&snip), strings(&texts[from..n + 1]));
    }
}

#[test]
fn screen_ends_with_history() {
    let mut snip = TermSnip::with_fill(RecordingTerm::new(20, 4), 3, true);
    let texts = ["one", "two words", "", "3", "abcdefghijklmnop", "last"];
    for (n, text) in texts.iter().enumerate() {
        snip.write_line(text).unwrap();
        if n == 3 {
            snip.clear_lines().unwrap();
        }
        let history = history_of(&snip);
        let screen = snip.term().screen();
        assert!(history.len() <= screen.len());
        assert_eq!(&screen[screen.len() - history.len()..], &history[..]);
    }
}

#[test]
fn width_is_asked_at_every_write() {
    let term = Shrinking { cols: Cell::new(4), written: Vec::new() };
    let mut snip = TermSnip::new(term, 10);
    // four columns: "abc" fits
    snip.write_line("abc").unwrap();
    // three columns by now: "abc" is as wide as the terminal
    snip.write_line("abc").unwrap();
    assert_eq!(snip.term().written, strings(&["abc", "abc", ""]));
}

#[test]
fn into_term_gives_the_terminal_back() {
    let mut snip = TermSnip::new(RecordingTerm::new(20, 20), 5);
    snip.write_line("a").unwrap();
    let term = snip.into_term();
    assert_eq!(term.calls(), &vec![line("a")]);
    assert_eq!(term.size(), (20, 20));
}
