//! The terminal as the session sees it: three operations, a model of what a
//! terminal shows, and a record of the exchanges that a session has had with
//! its terminal.
use std::io::Error;
use vstd::prelude::*;

verus! {

/// `std::io::Error`, the error of a terminal operation that failed. Nothing
/// is known of what is inside: the library only hands it on to the caller.
#[verifier::external_type_specification]
#[verifier::external_body]
pub struct ExError(std::io::Error);

/// A request to a terminal that changes what it shows.
#[derive(Debug, PartialEq, Eq)]
pub enum TermCall {
    WriteLine(String),
    ClearLastLines(usize),
}

/// A [`TermCall`] as a mathematical value.
pub enum Call {
    WriteLine(Seq<char>),
    ClearLastLines(nat),
}

impl View for TermCall {
    type V = Call;

    open spec fn view(&self) -> Call {
        match self {
            TermCall::WriteLine(s) => Call::WriteLine(s@),
            TermCall::ClearLastLines(n) => Call::ClearLastLines(*n as nat),
        }
    }
}

/// One exchange with a terminal: a question about its size with the answer,
/// or a call with the result that came back.
pub enum TermEvent {
    Size { rows: u16, cols: u16 },
    Issued { call: Call, result: Result<(), Error> },
}

/// What a terminal shows after `event`, if it showed `screen` before. A call
/// that succeeded did what it was asked to: a written line stands below the
/// others, and a clear took the last `n` lines away, or all of them if there
/// were fewer. A call that failed, and a question about the size, changed
/// nothing.
pub open spec fn shown(screen: Seq<Seq<char>>, event: TermEvent) -> Seq<Seq<char>> {
    match event {
        TermEvent::Issued { call: Call::WriteLine(text), result: Ok(_) } => screen.push(text),
        TermEvent::Issued { call: Call::ClearLastLines(n), result: Ok(_) } => {
            if n <= screen.len() {
                screen.take(screen.len() - n)
            } else {
                Seq::empty()
            }
        },
        _ => screen,
    }
}

/// A terminal of a fixed size as a mathematical value.
pub struct TermModel {
    pub rows: u16,
    pub cols: u16,
    /// Every call received, oldest first, failed ones included.
    pub calls: Seq<Call>,
    /// The lines on the screen, top to bottom.
    pub screen: Seq<Seq<char>>,
}

impl TermModel {
    /// The terminal after one exchange.
    pub open spec fn after(self, event: TermEvent) -> TermModel {
        match event {
            TermEvent::Size { .. } => self,
            TermEvent::Issued { call, .. } => TermModel {
                calls: self.calls.push(call),
                screen: shown(self.screen, event),
                ..self
            },
        }
    }

    /// The terminal after some exchanges, oldest first.
    pub open spec fn after_all(self, events: Seq<TermEvent>) -> TermModel
        decreases events.len(),
    {
        if events.len() == 0 {
            self
        } else {
            self.after_all(events.drop_last()).after(events.last())
        }
    }
}

/// The calls among `events`, oldest first.
pub open spec fn calls_in(events: Seq<TermEvent>) -> Seq<Call>
    decreases events.len(),
{
    if events.len() == 0 {
        Seq::empty()
    } else {
        match events.last() {
            TermEvent::Size { .. } => calls_in(events.drop_last()),
            TermEvent::Issued { call, .. } => calls_in(events.drop_last()).push(call),
        }
    }
}

/// `size` is the size of the terminal, where the terminal has a model.
pub open spec fn sized(model: Option<TermModel>, size: (u16, u16)) -> bool {
    model matches Some(m) ==> size == (m.rows, m.cols)
}

/// The terminal has had the exchanges of `events`, and no others, on its way
/// from `before` to `after`, where it has a model. A terminal without a
/// model stays without one.
pub open spec fn followed(
    before: Option<TermModel>,
    events: Seq<TermEvent>,
    after: Option<TermModel>,
) -> bool {
    match before {
        Some(m) => after == Some(m.after_all(events)),
        None => after is None,
    }
}

/// What a session needs from a terminal.
///
/// `write_line` writes `s` and a line break at the cursor. `clear_last_lines`
/// erases the last `n` lines and leaves the cursor where the first of them
/// began; with `n == 0` it does nothing. `size` gives the rows and columns of
/// the terminal as they are at the moment of the call. Whether an operation
/// succeeds is up to the terminal.
///
/// A terminal may have a model. It then answers for it: each call is
/// recorded in the model and changes the screen of the model as [`shown`]
/// says, and the size is that of the model. A terminal that only implements
/// the three operations has no model and promises nothing.
pub trait TermWrap {
    /// The model of this terminal, if it has one.
    open spec fn model(&self) -> Option<TermModel> {
        None
    }

    fn write_line(&mut self, s: &str) -> (result: Result<(), Error>)
        ensures
            followed(
                old(self).model(),
                seq![TermEvent::Issued { call: Call::WriteLine(s@), result }],
                final(self).model(),
            ),
    ;

    fn clear_last_lines(&mut self, n: usize) -> (result: Result<(), Error>)
        ensures
            followed(
                old(self).model(),
                seq![TermEvent::Issued { call: Call::ClearLastLines(n as nat), result }],
                final(self).model(),
            ),
    ;

    fn size(&self) -> (size: (u16, u16))
        ensures
            sized(self.model(), size),
    ;
}

/// A terminal together with the record of every exchange made through this
/// value, oldest first. The record exists in proofs only.
pub struct Channel<T: TermWrap> {
    term: T,
    trace: Ghost<Seq<TermEvent>>,
}

impl<T: TermWrap> Channel<T> {
    /// The exchanges made so far.
    pub closed spec fn trace(&self) -> Seq<TermEvent> {
        self.trace@
    }

    /// The terminal as it is now.
    pub closed spec fn terminal(&self) -> T {
        self.term
    }

    /// Takes over `term`, with nothing recorded yet.
    pub fn new(term: T) -> (chan: Self)
        ensures
            chan.terminal() == term,
            chan.trace() == Seq::<TermEvent>::empty(),
    {
        Channel { term, trace: Ghost(Seq::empty()) }
    }

    /// The terminal behind this channel.
    pub fn term(&self) -> (term: &T)
        ensures
            *term == self.terminal(),
    {
        &self.term
    }

    /// Gives the terminal back.
    pub fn into_term(self) -> (term: T)
        ensures
            term == self.terminal(),
    {
        self.term
    }

    /// Asks the terminal for its size and records the answer.
    pub fn size(&mut self) -> (size: (u16, u16))
        ensures
            final(self).trace() == old(self).trace().push(
                TermEvent::Size { rows: size.0, cols: size.1 },
            ),
            final(self).terminal() == old(self).terminal(),
            sized(old(self).terminal().model(), size),
    {
        let size = self.term.size();
        proof {
            self.trace@ = self.trace@.push(TermEvent::Size { rows: size.0, cols: size.1 });
        }
        size
    }

    /// Has the terminal write `s` as a line and records the call with its
    /// result, which is returned as it came.
    pub fn write_line(&mut self, s: &str) -> (result: Result<(), Error>)
        ensures
            final(self).trace() == old(self).trace().push(
                TermEvent::Issued { call: Call::WriteLine(s@), result },
            ),
            followed(
                old(self).terminal().model(),
                seq![TermEvent::Issued { call: Call::WriteLine(s@), result }],
                final(self).terminal().model(),
            ),
    {
        let result = self.term.write_line(s);
        proof {
            self.trace@ = self.trace@.push(
                TermEvent::Issued { call: Call::WriteLine(s@), result },
            );
        }
        result
    }

    /// Has the terminal clear its last `n` lines and records the call with
    /// its result, which is returned as it came.
    pub fn clear_last_lines(&mut self, n: usize) -> (result: Result<(), Error>)
        ensures
            final(self).trace() == old(self).trace().push(
                TermEvent::Issued { call: Call::ClearLastLines(n as nat), result },
            ),
            followed(
                old(self).terminal().model(),
                seq![TermEvent::Issued { call: Call::ClearLastLines(n as nat), result }],
                final(self).terminal().model(),
            ),
    {
        let result = self.term.clear_last_lines(n);
        proof {
            self.trace@ = self.trace@.push(
                TermEvent::Issued { call: Call::ClearLastLines(n as nat), result },
            );
        }
        result
    }
}

/// Exchanges leave the size of a terminal as it is, and the terminal has
/// received the calls among them after those it had received before.
pub proof fn lemma_calls_received(model: TermModel, events: Seq<TermEvent>)
    ensures
        model.after_all(events).rows == model.rows,
        model.after_all(events).cols == model.cols,
        model.after_all(events).calls == model.calls + calls_in(events),
    decreases events.len(),
{
    if events.len() == 0 {
        assert(model.calls + calls_in(events) =~= model.calls);
    } else {
        lemma_calls_received(model, events.drop_last());
        assert(model.after_all(events).calls =~= model.calls + calls_in(events));
    }
}

/// One more exchange at the end of a list is one more step.
pub proof fn lemma_after_push(model: TermModel, events: Seq<TermEvent>, event: TermEvent)
    ensures
        model.after_all(events.push(event)) == model.after_all(events).after(event),
{
    assert(events.push(event).drop_last() =~= events);
}

/// One exchange is a list of one.
pub proof fn lemma_after_one(model: TermModel, event: TermEvent)
    ensures
        model.after_all(seq![event]) == model.after(event),
{
    assert(seq![event].drop_last() =~= Seq::<TermEvent>::empty());
    assert(model.after_all(Seq::empty()) == model);
}

/// Exchanges one after the other are the exchanges of the joined list.
pub proof fn lemma_after_both(model: TermModel, first: Seq<TermEvent>, next: Seq<TermEvent>)
    ensures
        model.after_all(first + next) == model.after_all(first).after_all(next),
    decreases next.len(),
{
    if next.len() == 0 {
        assert(first + next =~= first);
    } else {
        assert((first + next).drop_last() =~= first + next.drop_last());
        lemma_after_both(model, first, next.drop_last());
    }
}

/// What followed one after the other followed as a whole.
pub proof fn lemma_followed_both(
    before: Option<TermModel>,
    first: Seq<TermEvent>,
    between: Option<TermModel>,
    next: Seq<TermEvent>,
    after: Option<TermModel>,
)
    requires
        followed(before, first, between),
        followed(between, next, after),
    ensures
        followed(before, first + next, after),
{
    if before is Some {
        lemma_after_both(before->0, first, next);
    }
}

} // verus!
