//! A terminal that exists in memory only. It keeps every call it receives
//! and the lines that a real terminal would show, and it can be told to fail
//! at a chosen call.
use crate::termwrap::{lemma_after_one, shown, Call, TermCall, TermEvent, TermModel, TermWrap};
use crate::wrap::texts;
use std::io::Error;
use vstd::prelude::*;

verus! {

/// The calls that a list of recorded calls holds, as mathematical values.
pub open spec fn calls_of(calls: Seq<TermCall>) -> Seq<Call> {
    Seq::new(calls.len(), |i: int| calls[i]@)
}

/// A recording terminal as a mathematical value.
pub struct RecordingView {
    /// The size, the calls received and the screen.
    pub model: TermModel,
    /// The number of the call that is going to fail, counted from zero, and
    /// the error that it is going to return.
    pub fault: Option<(usize, Error)>,
}

impl RecordingView {
    /// The result that the next call is going to return.
    pub open spec fn next_result(self) -> Result<(), Error> {
        match self.fault {
            Some((at, error)) if at == self.model.calls.len() => Err(error),
            _ => Ok(()),
        }
    }

    /// The value after `call` has been received: the call is recorded, the
    /// screen shows what the call has done, and a fault that has struck is
    /// gone.
    pub open spec fn after(self, call: Call) -> RecordingView {
        RecordingView {
            model: self.model.after(TermEvent::Issued { call, result: self.next_result() }),
            fault: if self.next_result() is Err {
                None
            } else {
                self.fault
            },
        }
    }
}

/// A terminal in memory.
pub struct RecordingTerm {
    rows: u16,
    cols: u16,
    calls: Vec<TermCall>,
    lines: Vec<String>,
    fault: Option<(usize, Error)>,
}

impl View for RecordingTerm {
    type V = RecordingView;

    closed spec fn view(&self) -> RecordingView {
        RecordingView {
            model: TermModel {
                rows: self.rows,
                cols: self.cols,
                calls: calls_of(self.calls@),
                screen: texts(self.lines@),
            },
            fault: self.fault,
        }
    }
}

impl RecordingTerm {
    /// An empty terminal of the given size that never fails.
    pub fn new(rows: u16, cols: u16) -> (term: Self)
        ensures
            term@ == (RecordingView {
                model: TermModel { rows, cols, calls: Seq::empty(), screen: Seq::empty() },
                fault: None,
            }),
    {
        let term = RecordingTerm { rows, cols, calls: Vec::new(), lines: Vec::new(), fault: None };
        assert(calls_of(term.calls@) =~= Seq::<Call>::empty());
        assert(texts(term.lines@) =~= Seq::<Seq<char>>::empty());
        term
    }

    /// The same terminal, set to fail with `error` at call number `at`,
    /// counted from zero over all the calls it receives. Once that call has
    /// failed the terminal works again.
    pub fn failing_at(self, at: usize, error: Error) -> (term: Self)
        ensures
            term@ == (RecordingView { fault: Some((at, error)), ..self@ }),
    {
        let mut term = self;
        term.fault = Some((at, error));
        term
    }

    /// Every call received so far, oldest first.
    pub fn calls(&self) -> (calls: &Vec<TermCall>)
        ensures
            calls_of(calls@) == self@.model.calls,
    {
        &self.calls
    }

    /// The lines on the screen, top to bottom.
    pub fn screen(&self) -> (lines: &Vec<String>)
        ensures
            texts(lines@) == self@.model.screen,
    {
        &self.lines
    }

    /// Records `call` and says how it ends: with the planted error if this is
    /// the call that was to fail, and well otherwise.
    fn receive(&mut self, call: TermCall) -> (result: Result<(), Error>)
        ensures
            result == old(self)@.next_result(),
            final(self)@ == (RecordingView {
                model: TermModel {
                    calls: old(self)@.model.calls.push(call@),
                    ..old(self)@.model
                },
                fault: if result is Err {
                    None
                } else {
                    old(self)@.fault
                },
            }),
    {
        let index = self.calls.len();
        self.calls.push(call);
        assert(calls_of(self.calls@) =~= old(self)@.model.calls.push(call@));
        let struck = match &self.fault {
            Some((at, _)) => *at == index,
            None => false,
        };
        if struck {
            match self.fault.take() {
                Some((_, error)) => Err(error),
                None => Ok(()),
            }
        } else {
            Ok(())
        }
    }
}

impl TermWrap for RecordingTerm {
    open spec fn model(&self) -> Option<TermModel> {
        Some(self@.model)
    }

    fn write_line(&mut self, s: &str) -> (result: Result<(), Error>)
        ensures
            result == old(self)@.next_result(),
            final(self)@ == old(self)@.after(Call::WriteLine(s@)),
    {
        let result = self.receive(TermCall::WriteLine(s.to_owned()));
        if result.is_ok() {
            self.lines.push(s.to_owned());
            assert(texts(self.lines@) =~= old(self)@.model.screen.push(s@));
        }
        proof {
            lemma_after_one(
                old(self)@.model,
                TermEvent::Issued { call: Call::WriteLine(s@), result },
            );
        }
        result
    }

    fn clear_last_lines(&mut self, n: usize) -> (result: Result<(), Error>)
        ensures
            result == old(self)@.next_result(),
            final(self)@ == old(self)@.after(Call::ClearLastLines(n as nat)),
    {
        let result = self.receive(TermCall::ClearLastLines(n));
        if result.is_ok() {
            let height = self.lines.len();
            if n <= height {
                self.lines.truncate(height - n);
            } else {
                self.lines.clear();
            }
            assert(texts(self.lines@) =~= shown(
                old(self)@.model.screen,
                TermEvent::Issued { call: Call::ClearLastLines(n as nat), result },
            ));
        }
        proof {
            lemma_after_one(
                old(self)@.model,
                TermEvent::Issued { call: Call::ClearLastLines(n as nat), result },
            );
        }
        result
    }

    fn size(&self) -> (size: (u16, u16))
        ensures
            size == (self@.model.rows, self@.model.cols),
    {
        (self.rows, self.cols)
    }
}

} // verus!
