use std::io::{Error, ErrorKind};
use term_snip::termwrap::Channel;
use term_snip::{RecordingTerm, TermCall};

#[test]
fn channel_hands_calls_to_its_terminal() {
    let mut chan = Channel::new(RecordingTerm::new(24, 80));
    chan.write_line("a").unwrap();
    chan.clear_last_lines(1).unwrap();
    chan.write_line("b").unwrap();
    assert_eq!(
        chan.term().calls(),
        &vec![
            TermCall::WriteLine("a".to_string()),
            TermCall::ClearLastLines(1),
            TermCall::WriteLine("b".to_string()),
        ]
    );
    assert_eq!(chan.term().screen(), &vec!["b".to_string()]);
}

#[test]
fn channel_gives_the_size_of_its_terminal() {
    let mut chan = Channel::new(RecordingTerm::new(24, 80));
    assert_eq!(chan.size(), (24, 80));
    assert!(chan.term().calls().is_empty());
}

#[test]
fn channel_returns_errors_as_they_come() {
    let term = RecordingTerm::new(24, 80).failing_at(0, Error::new(ErrorKind::WriteZero, "full"));
    let mut chan = Channel::new(term);
    let error = chan.clear_last_lines(3).unwrap_err();
    assert_eq!(error.kind(), ErrorKind::WriteZero);
    assert_eq!(error.to_string(), "full");
    assert!(chan.write_line("a").is_ok());
}

#[test]
fn channel_gives_its_terminal_back() {
    let mut chan = Channel::new(RecordingTerm::new(24, 80));
    chan.write_line("a").unwrap();
    let term = chan.into_term();
    assert_eq!(term.calls().len(), 1);
}
