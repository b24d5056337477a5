//! The session: a bounded window of lines and the terminal that shows them.
use crate::termwrap::{
    followed, lemma_after_one, lemma_after_push, lemma_followed_both, sized, Call, Channel,
    TermEvent, TermModel, TermWrap,
};
use crate::wrap::{texts, wrap, wrapped};
use std::collections::VecDeque;
use std::io::Error;
use vstd::prelude::*;

verus! {

/// A session as a mathematical value.
pub struct SnipView {
    /// How many lines may be visible at once.
    pub limit: nat,
    /// Whether short lines are padded to the width of the terminal.
    pub fill: bool,
    /// The lines that the session holds as visible, oldest first.
    pub history: Seq<Seq<char>>,
    /// Every exchange that the session has had with its terminal.
    pub trace: Seq<TermEvent>,
    /// The terminal as it is now, if it has a model.
    pub model: Option<TermModel>,
}

/// A call that a write makes, with the history that the session holds while
/// the call is made.
pub struct Step {
    pub call: Call,
    pub history: Seq<Seq<char>>,
}

/// The history after one more chunk: the chunk is appended, and if the window
/// was full already, its oldest line is dropped.
pub open spec fn push_history(history: Seq<Seq<char>>, limit: nat, chunk: Seq<char>) -> Seq<
    Seq<char>,
> {
    if history.len() < limit {
        history.push(chunk)
    } else {
        history.push(chunk).drop_first()
    }
}

/// One `WriteLine` for each line of `window`, in order.
pub open spec fn repaint(window: Seq<Seq<char>>) -> Seq<Call> {
    Seq::new(window.len(), |i: int| Call::WriteLine(window[i]))
}

/// The calls that bring one more chunk to the terminal. While the window has
/// room the chunk is simply written. Once it is full, the lines of the old
/// window are cleared from the screen, as many as the new window holds, and
/// the new window is written in their place.
pub open spec fn push_calls(history: Seq<Seq<char>>, limit: nat, chunk: Seq<char>) -> Seq<Call> {
    if history.len() < limit {
        seq![Call::WriteLine(chunk)]
    } else {
        let window = push_history(history, limit, chunk);
        seq![Call::ClearLastLines(window.len())] + repaint(window)
    }
}

/// The calls of [`push_calls`], each with the history that already holds the
/// chunk.
pub open spec fn push_steps(history: Seq<Seq<char>>, limit: nat, chunk: Seq<char>) -> Seq<Step> {
    let calls = push_calls(history, limit, chunk);
    let after = push_history(history, limit, chunk);
    Seq::new(calls.len(), |i: int| Step { call: calls[i], history: after })
}

/// The history after the chunks have been pushed one by one.
pub open spec fn history_after(history: Seq<Seq<char>>, limit: nat, chunks: Seq<Seq<char>>) -> Seq<
    Seq<char>,
>
    decreases chunks.len(),
{
    if chunks.len() == 0 {
        history
    } else {
        push_history(history_after(history, limit, chunks.drop_last()), limit, chunks.last())
    }
}

/// The steps of pushing the chunks one by one.
pub open spec fn write_steps(history: Seq<Seq<char>>, limit: nat, chunks: Seq<Seq<char>>) -> Seq<
    Step,
>
    decreases chunks.len(),
{
    if chunks.len() == 0 {
        Seq::empty()
    } else {
        write_steps(history, limit, chunks.drop_last()) + push_steps(
            history_after(history, limit, chunks.drop_last()),
            limit,
            chunks.last(),
        )
    }
}

/// `issued` records that the calls of `steps` were made in order until one
/// failed or all were done, `result` is what the last of them returned, and
/// `history` is the history of the step that was reached.
pub open spec fn carried_out(
    steps: Seq<Step>,
    issued: Seq<TermEvent>,
    result: Result<(), Error>,
    history: Seq<Seq<char>>,
) -> bool {
    &&& 0 < issued.len() <= steps.len()
    &&& forall|i: int|
        0 <= i < issued.len() ==> (#[trigger] issued[i]) is Issued && issued[i]->call
            == steps[i].call
    &&& forall|i: int| 0 <= i < issued.len() - 1 ==> (#[trigger] issued[i])->result is Ok
    &&& issued.last()->result == result
    &&& result is Ok ==> issued.len() == steps.len()
    &&& history == steps[issued.len() - 1].history
}

/// `event` records that `call` was made and succeeded.
pub open spec fn recorded_ok(event: TermEvent, call: Call) -> bool {
    &&& event is Issued
    &&& event->call == call
    &&& event->result is Ok
}

/// `issued` records that every call of `steps` was made, in order, and
/// succeeded.
pub open spec fn all_ok(steps: Seq<Step>, issued: Seq<TermEvent>) -> bool {
    &&& issued.len() == steps.len()
    &&& forall|i: int| 0 <= i < issued.len() ==> recorded_ok(#[trigger] issued[i], steps[i].call)
}

/// What a write of `text` does to a session: it asks the terminal for its
/// size, cuts `text` for the columns in the answer, and pushes the chunks one
/// by one until a call fails or all are done. The answer is the size of the
/// terminal, where the terminal has a model.
pub open spec fn wrote(
    pre: SnipView,
    text: Seq<char>,
    post: SnipView,
    result: Result<(), Error>,
) -> bool {
    let asked = post.since(pre);
    &&& asked.len() > 0
    &&& asked[0] is Size
    &&& sized(pre.model, (asked[0]->rows, asked[0]->cols))
    &&& carried_out(
        write_steps(pre.history, pre.limit, wrapped(text, asked[0]->cols as nat, pre.fill)),
        asked.skip(1),
        result,
        post.history,
    )
}

/// What a clear does to a session: one call that clears as many lines as
/// the window holds. The window is empty afterwards if the call succeeded,
/// and unchanged if it failed.
pub open spec fn cleared(pre: SnipView, post: SnipView, result: Result<(), Error>) -> bool {
    &&& post.since(pre) == seq![
        TermEvent::Issued { call: Call::ClearLastLines(pre.history.len()), result },
    ]
    &&& post.history == if result is Ok {
        Seq::<Seq<char>>::empty()
    } else {
        pre.history
    }
}

/// The last lines of `screen` are exactly `history`.
pub open spec fn visible(screen: Seq<Seq<char>>, history: Seq<Seq<char>>) -> bool {
    &&& history.len() <= screen.len()
    &&& screen.skip(screen.len() - history.len()) == history
}

impl SnipView {
    /// The window holds no more lines than the limit allows.
    pub open spec fn wf(self) -> bool {
        self.history.len() <= self.limit
    }

    /// The window is what the terminal shows at the bottom of its screen.
    /// This speaks of a terminal that has a model; of another, nothing is
    /// known.
    pub open spec fn in_sync(self) -> bool {
        self.model matches Some(m) ==> visible(m.screen, self.history)
    }

    /// `self` is a later state of the session `pre`: the settings are the
    /// same, the exchanges of `pre` come first among those of `self`, and
    /// the terminal has had the exchanges since then and no others.
    pub open spec fn continues(self, pre: SnipView) -> bool {
        &&& self.limit == pre.limit
        &&& self.fill == pre.fill
        &&& pre.trace.len() <= self.trace.len()
        &&& self.trace.take(pre.trace.len() as int) == pre.trace
        &&& followed(pre.model, self.since(pre), self.model)
    }

    /// The exchanges that `self` has had since it was `pre`.
    pub open spec fn since(self, pre: SnipView) -> Seq<TermEvent> {
        self.trace.skip(pre.trace.len() as int)
    }
}

/// A session that keeps at most `limit` lines visible on its terminal.
pub struct TermSnip<T: TermWrap> {
    chan: Channel<T>,
    limit: usize,
    fill: bool,
    lines: VecDeque<String>,
}

impl<T: TermWrap> View for TermSnip<T> {
    type V = SnipView;

    closed spec fn view(&self) -> SnipView {
        SnipView {
            limit: self.limit as nat,
            fill: self.fill,
            history: texts(self.lines@),
            trace: self.chan.trace(),
            model: self.chan.terminal().model(),
        }
    }
}

impl<T: TermWrap> TermSnip<T> {
    /// The terminal of the session as it is now.
    pub closed spec fn terminal(&self) -> T {
        self.chan.terminal()
    }

    /// A session on `term` that shows at most `limit` lines and leaves short
    /// lines as they are.
    ///
    /// With a limit of zero no line stays visible: every write clears nothing
    /// and paints nothing.
    pub fn new(term: T, limit: usize) -> (snip: Self)
        ensures
            snip@ == (SnipView {
                limit: limit as nat,
                fill: false,
                history: Seq::empty(),
                trace: Seq::empty(),
                model: term.model(),
            }),
            snip.terminal() == term,
            snip@.wf(),
            snip@.in_sync(),
    {
        Self::with_fill(term, limit, false)
    }

    /// A session on `term` that shows at most `limit` lines and, when `fill`
    /// is set, pads short lines to the width of the terminal.
    pub fn with_fill(term: T, limit: usize, fill: bool) -> (snip: Self)
        ensures
            snip@ == (SnipView {
                limit: limit as nat,
                fill,
                history: Seq::empty(),
                trace: Seq::empty(),
                model: term.model(),
            }),
            snip.terminal() == term,
            snip@.wf(),
            snip@.in_sync(),
    {
        let snip = TermSnip { chan: Channel::new(term), limit, fill, lines: VecDeque::new() };
        assert(texts(snip.lines@) =~= Seq::<Seq<char>>::empty());
        assert(snip@.in_sync()) by {
            if snip@.model is Some {
                let shown = snip@.model->0.screen;
                assert(shown.skip(shown.len() as int) =~= snip@.history);
            }
        }
        snip
    }

    /// Takes `text` into the window as one line and brings the terminal up to
    /// date: a plain write while the window has room, else a clear of the old
    /// window and a repaint of the new one. The first call that fails ends
    /// the work, and its error is returned; the window holds `text` by then.
    pub fn term_write_line(&mut self, text: &str) -> (result: Result<(), Error>)
        ensures
            old(self)@.wf() ==> final(self)@.wf(),
            final(self)@.continues(old(self)@),
            carried_out(
                push_steps(old(self)@.history, old(self)@.limit, text@),
                final(self)@.since(old(self)@),
                result,
                final(self)@.history,
            ),
            result is Ok && old(self)@.in_sync() ==> final(self)@.in_sync(),
    {
        let ghost pre = self@;
        let ghost window = push_history(pre.history, pre.limit, text@);
        let ghost steps = push_steps(pre.history, pre.limit, text@);
        self.lines.push_back(text.to_owned());
        if self.lines.len() <= self.limit {
            let result = self.chan.write_line(text);
            proof {
                assert(self@.history =~= window);
                lemma_one_more(pre, self@);
                assert(self@.since(pre).last() == self@.since(pre)[0]);
                if result is Ok {
                    lemma_push_keeps_sync(pre, text@, self@);
                }
            }
            return result;
        }
        self.lines.pop_front();
        assert(self@.history =~= window);
        let cleared = self.chan.clear_last_lines(self.lines.len());
        proof {
            lemma_one_more(pre, self@);
            assert(self@.since(pre).last() == self@.since(pre)[0]);
        }
        if let Err(e) = cleared {
            return Err(e);
        }
        let mut i: usize = 0;
        while i < self.lines.len()
            invariant
                pre == old(self)@,
                i <= self.lines@.len(),
                pre.wf() ==> self@.wf(),
                self@.history == window,
                window == push_history(pre.history, pre.limit, text@),
                steps == push_steps(pre.history, pre.limit, text@),
                steps.len() == 1 + window.len(),
                self@.continues(pre),
                all_ok(steps.take(1 + i), self@.since(pre)),
            decreases self.lines@.len() - i,
        {
            let ghost mid = self@;
            let written = self.chan.write_line(self.lines[i].as_str());
            proof {
                lemma_one_more(mid, self@);
                lemma_continues_step(pre, mid, self@);
                lemma_join(
                    steps.take(1 + i),
                    mid.since(pre),
                    steps.subrange(1 + i, 2 + i),
                    self@.since(mid),
                    written,
                    window,
                );
                assert(steps.take(1 + i) + steps.subrange(1 + i, 2 + i) =~= steps.take(2 + i));
            }
            if let Err(e) = written {
                proof {
                    lemma_failed_early(steps.take(2 + i), steps, self@.since(pre), written, window);
                }
                return Err(e);
            }
            i = i + 1;
        }
        proof {
            let issued = self@.since(pre);
            assert(steps.take(1 + i) =~= steps);
            assert(recorded_ok(issued.last(), steps[steps.len() - 1].call));
            lemma_ok_is_unit(issued.last()->result);
            lemma_push_keeps_sync(pre, text@, self@);
        }
        Ok(())
    }

    /// Writes `text` to the terminal, cut into chunks where it is as wide as
    /// the terminal or wider, and keeps the window to the newest lines. The
    /// width is asked of the terminal anew at each call. The first call that
    /// fails ends the work, and its error is returned.
    pub fn write_line(&mut self, text: &str) -> (result: Result<(), Error>)
        ensures
            old(self)@.wf() ==> final(self)@.wf(),
            final(self)@.continues(old(self)@),
            wrote(old(self)@, text@, final(self)@, result),
            result is Ok && old(self)@.in_sync() ==> final(self)@.in_sync(),
    {
        let ghost pre = self@;
        let size = self.chan.size();
        let ghost mid = self@;
        proof {
            lemma_asked(pre, mid, TermEvent::Size { rows: size.0, cols: size.1 });
        }
        let result = self.write_wrapped(text, size.1 as usize);
        proof {
            lemma_continues_step(pre, mid, self@);
            assert(self@.since(pre).skip(1) =~= self@.since(mid));
        }
        result
    }

    /// Writes `text` as [`TermSnip::write_line`] does, for a terminal that is
    /// `width` columns wide, without asking the terminal for its size.
    pub fn write_wrapped(&mut self, text: &str, width: usize) -> (result: Result<(), Error>)
        ensures
            old(self)@.wf() ==> final(self)@.wf(),
            final(self)@.continues(old(self)@),
            carried_out(
                write_steps(
                    old(self)@.history,
                    old(self)@.limit,
                    wrapped(text@, width as nat, old(self)@.fill),
                ),
                final(self)@.since(old(self)@),
                result,
                final(self)@.history,
            ),
            result is Ok && old(self)@.in_sync() ==> final(self)@.in_sync(),
    {
        let ghost pre = self@;
        let chunks = wrap(text, width, self.fill);
        let ghost parts = wrapped(text@, width as nat, pre.fill);
        let ghost steps = write_steps(pre.history, pre.limit, parts);
        proof {
            lemma_continues_self(pre);
            assert(parts.take(0) =~= Seq::<Seq<char>>::empty());
        }
        let mut i: usize = 0;
        while i < chunks.len()
            invariant
                pre == old(self)@,
                pre.wf() ==> self@.wf(),
                self@.continues(pre),
                i <= chunks.len(),
                texts(chunks@) == parts,
                parts == wrapped(text@, width as nat, pre.fill),
                steps == write_steps(pre.history, pre.limit, parts),
                all_ok(
                    write_steps(pre.history, pre.limit, parts.take(i as int)),
                    self@.since(pre),
                ),
                self@.history == history_after(pre.history, pre.limit, parts.take(i as int)),
                pre.in_sync() ==> self@.in_sync(),
            decreases chunks.len() - i,
        {
            let ghost mid = self@;
            let ghost done = write_steps(pre.history, pre.limit, parts.take(i as int));
            let pushed = self.term_write_line(chunks[i].as_str());
            proof {
                assert(chunks[i as int]@ == parts[i as int]);
                lemma_continues_step(pre, mid, self@);
                lemma_steps_snoc(pre.history, pre.limit, parts, i as int);
                lemma_join(
                    done,
                    mid.since(pre),
                    push_steps(mid.history, pre.limit, parts[i as int]),
                    self@.since(mid),
                    pushed,
                    self@.history,
                );
            }
            if let Err(e) = pushed {
                proof {
                    lemma_steps_prefix(pre.history, pre.limit, parts, i + 1);
                    lemma_failed_early(
                        write_steps(pre.history, pre.limit, parts.take(i + 1)),
                        steps,
                        self@.since(pre),
                        pushed,
                        self@.history,
                    );
                }
                return Err(e);
            }
            i = i + 1;
        }
        proof {
            assert(parts.take(i as int) =~= parts);
            let issued = self@.since(pre);
            lemma_last_history(pre.history, pre.limit, parts);
            assert(recorded_ok(issued.last(), steps[steps.len() - 1].call));
            lemma_ok_is_unit(issued.last()->result);
        }
        Ok(())
    }

    /// Clears from the terminal the lines that the session holds as visible
    /// and forgets them. If the terminal fails, the window is kept as it was
    /// and the error is returned.
    pub fn clear_lines(&mut self) -> (result: Result<(), Error>)
        ensures
            final(self)@.continues(old(self)@),
            cleared(old(self)@, final(self)@, result),
            result is Ok ==> final(self)@.in_sync(),
            old(self)@.wf() ==> final(self)@.wf(),
    {
        let ghost pre = self@;
        let result = self.chan.clear_last_lines(self.lines.len());
        if result.is_ok() {
            self.lines.clear();
        }
        proof {
            lemma_one_more(pre, self@);
            if result is Ok {
                assert(self@.history =~= Seq::<Seq<char>>::empty());
                if self@.model is Some {
                    let shown = self@.model->0.screen;
                    assert(shown.skip(shown.len() as int) =~= self@.history);
                }
            }
        }
        result
    }

    /// The terminal of this session.
    pub fn term(&self) -> (term: &T)
        ensures
            *term == self.terminal(),
            term.model() == self@.model,
    {
        self.chan.term()
    }

    /// Ends the session and gives the terminal back.
    pub fn into_term(self) -> (term: T)
        ensures
            term == self.terminal(),
            term.model() == self@.model,
    {
        self.chan.into_term()
    }

    /// The lines that the session holds as visible, oldest first.
    pub fn history(&self) -> (lines: &VecDeque<String>)
        ensures
            texts(lines@) == self@.history,
    {
        &self.lines
    }

    /// The most lines that the session keeps visible.
    pub fn limit(&self) -> (limit: usize)
        ensures
            limit == self@.limit,
    {
        self.limit
    }

    /// Whether short lines are padded to the width of the terminal.
    pub fn fill(&self) -> (fill: bool)
        ensures
            fill == self@.fill,
    {
        self.fill
    }
}

/// A session is a later state of itself, with no exchange since.
proof fn lemma_continues_self(pre: SnipView)
    ensures
        pre.continues(pre),
        pre.since(pre) == Seq::<TermEvent>::empty(),
{
    assert(pre.trace.take(pre.trace.len() as int) =~= pre.trace);
    assert(pre.since(pre) =~= Seq::<TermEvent>::empty());
}

/// A state that has had one more exchange through the channel is a later
/// state, with that exchange since.
proof fn lemma_one_more(pre: SnipView, post: SnipView)
    requires
        post.limit == pre.limit,
        post.fill == pre.fill,
        post.trace.len() == pre.trace.len() + 1,
        post.trace == pre.trace.push(post.trace.last()),
        followed(pre.model, seq![post.trace.last()], post.model),
    ensures
        post.continues(pre),
        post.since(pre) == seq![post.trace.last()],
{
    assert(post.trace.take(pre.trace.len() as int) =~= pre.trace);
    assert(post.since(pre) =~= seq![post.trace.last()]);
}

/// A state after a question about the size is a later state, with that
/// question since.
proof fn lemma_asked(pre: SnipView, post: SnipView, event: TermEvent)
    requires
        event is Size,
        post.limit == pre.limit,
        post.fill == pre.fill,
        post.history == pre.history,
        post.trace == pre.trace.push(event),
        post.model == pre.model,
    ensures
        post.continues(pre),
        post.since(pre) == seq![event],
        pre.in_sync() ==> post.in_sync(),
{
    if pre.model is Some {
        lemma_after_one(pre.model->0, event);
    }
    assert(post.trace.last() == event);
    lemma_one_more(pre, post);
}

/// A later state of a later state is a later state, and the exchanges add
/// up.
pub proof fn lemma_continues_step(pre: SnipView, mid: SnipView, post: SnipView)
    requires
        mid.continues(pre),
        post.continues(mid),
    ensures
        post.continues(pre),
        post.since(pre) == mid.since(pre) + post.since(mid),
{
    assert(post.trace.take(pre.trace.len() as int) =~= post.trace.take(
        mid.trace.len() as int,
    ).take(pre.trace.len() as int));
    assert(post.since(pre) =~= mid.since(pre) + post.since(mid));
    lemma_followed_both(pre.model, mid.since(pre), mid.model, post.since(mid), post.model);
}

/// A push whose calls all succeed keeps the window at the bottom of the
/// screen: if the terminal showed `history` last, it shows the new window
/// last after the calls of the push.
pub proof fn lemma_push_keeps_visible(
    model: TermModel,
    history: Seq<Seq<char>>,
    limit: nat,
    chunk: Seq<char>,
    issued: Seq<TermEvent>,
)
    requires
        visible(model.screen, history),
        all_ok(push_steps(history, limit, chunk), issued),
    ensures
        visible(model.after_all(issued).screen, push_history(history, limit, chunk)),
{
    let window = push_history(history, limit, chunk);
    let steps = push_steps(history, limit, chunk);
    if history.len() < limit {
        assert(issued =~= seq![issued[0]]);
        lemma_after_one(model, issued[0]);
        assert(recorded_ok(issued[0], steps[0].call));
        let shown = model.after_all(issued).screen;
        assert(shown.skip(shown.len() - window.len()) =~= window);
    } else {
        lemma_repainted(model, history, limit, chunk, issued, window.len() as int);
        assert(issued.take(1 + window.len() as int) =~= issued);
        assert(window.take(window.len() as int) =~= window);
        let base = model.screen.take(model.screen.len() - window.len());
        assert((base + window).skip((base + window).len() - window.len()) =~= window);
    }
}

/// In a repaint whose calls all succeed, the screen after the clear and the
/// first `k` writes is what stood above the old window and then the first
/// `k` lines of the new one.
proof fn lemma_repainted(
    model: TermModel,
    history: Seq<Seq<char>>,
    limit: nat,
    chunk: Seq<char>,
    issued: Seq<TermEvent>,
    k: int,
)
    requires
        history.len() >= limit,
        visible(model.screen, history),
        all_ok(push_steps(history, limit, chunk), issued),
        0 <= k <= push_history(history, limit, chunk).len(),
    ensures
        model.after_all(issued.take(1 + k)).screen == model.screen.take(
            model.screen.len() - push_history(history, limit, chunk).len(),
        ) + push_history(history, limit, chunk).take(k),
    decreases k,
{
    let window = push_history(history, limit, chunk);
    let steps = push_steps(history, limit, chunk);
    let base = model.screen.take(model.screen.len() - window.len());
    if k == 0 {
        assert(issued.take(1) =~= seq![issued[0]]);
        lemma_after_one(model, issued[0]);
        assert(recorded_ok(issued[0], steps[0].call));
        assert(base + window.take(0) =~= base);
    } else {
        let j = k - 1;
        lemma_repainted(model, history, limit, chunk, issued, j);
        assert(issued.take(1 + k) =~= issued.take(1 + j).push(issued[k]));
        lemma_after_push(model, issued.take(1 + j), issued[k]);
        assert(recorded_ok(issued[k], steps[k].call));
        assert((base + window.take(j)).push(window[j]) =~= base + window.take(k));
    }
}

/// A push that succeeds keeps the session in step with its terminal.
proof fn lemma_push_keeps_sync(pre: SnipView, chunk: Seq<char>, post: SnipView)
    requires
        post.continues(pre),
        all_ok(push_steps(pre.history, pre.limit, chunk), post.since(pre)),
        post.history == push_history(pre.history, pre.limit, chunk),
    ensures
        pre.in_sync() ==> post.in_sync(),
{
    if pre.in_sync() && pre.model is Some {
        lemma_push_keeps_visible(pre.model->0, pre.history, pre.limit, chunk, post.since(pre));
    }
}

/// The last step of pushing some chunks holds the history after all of them.
proof fn lemma_last_history(history: Seq<Seq<char>>, limit: nat, chunks: Seq<Seq<char>>)
    requires
        chunks.len() > 0,
    ensures
        write_steps(history, limit, chunks).len() > 0,
        write_steps(history, limit, chunks).last().history == history_after(
            history,
            limit,
            chunks,
        ),
{
}

/// Pushing the first `k + 1` chunks is pushing the first `k` and then the
/// next one.
proof fn lemma_steps_snoc(history: Seq<Seq<char>>, limit: nat, chunks: Seq<Seq<char>>, k: int)
    requires
        0 <= k < chunks.len(),
    ensures
        write_steps(history, limit, chunks.take(k + 1)) == write_steps(
            history,
            limit,
            chunks.take(k),
        ) + push_steps(history_after(history, limit, chunks.take(k)), limit, chunks[k]),
        history_after(history, limit, chunks.take(k + 1)) == push_history(
            history_after(history, limit, chunks.take(k)),
            limit,
            chunks[k],
        ),
{
    assert(chunks.take(k + 1).drop_last() =~= chunks.take(k));
}

/// The steps for the first `k` chunks come first among the steps for all.
proof fn lemma_steps_prefix(history: Seq<Seq<char>>, limit: nat, chunks: Seq<Seq<char>>, k: int)
    requires
        0 <= k <= chunks.len(),
    ensures
        write_steps(history, limit, chunks.take(k)).is_prefix_of(
            write_steps(history, limit, chunks),
        ),
    decreases chunks.len(),
{
    if k == chunks.len() {
        assert(chunks.take(k) =~= chunks);
    } else {
        assert(chunks.drop_last().take(k) =~= chunks.take(k));
        lemma_steps_prefix(history, limit, chunks.drop_last(), k);
    }
}

/// The record of a finished part and the record of the part that follows
/// make the record of both.
proof fn lemma_join(
    first: Seq<Step>,
    first_issued: Seq<TermEvent>,
    next: Seq<Step>,
    next_issued: Seq<TermEvent>,
    result: Result<(), Error>,
    history: Seq<Seq<char>>,
)
    requires
        all_ok(first, first_issued),
        carried_out(next, next_issued, result, history),
    ensures
        carried_out(first + next, first_issued + next_issued, result, history),
        result is Ok ==> all_ok(first + next, first_issued + next_issued),
{
    let steps = first + next;
    let issued = first_issued + next_issued;
    assert forall|i: int| 0 <= i < issued.len() implies (#[trigger] issued[i]) is Issued
        && issued[i]->call == steps[i].call && (i < issued.len() - 1 ==> issued[i]->result is Ok)
        && (result is Ok ==> issued[i]->result is Ok) by {
        if i < first_issued.len() {
            assert(recorded_ok(first_issued[i], first[i].call));
        } else {
            let j = i - first_issued.len();
            assert(issued[i] == next_issued[j]);
            assert(steps[i] == next[j]);
            if result is Ok && j == next_issued.len() - 1 {
                assert(next_issued.last() == next_issued[j]);
            }
        }
    }
    assert(issued.last() == next_issued.last());
    assert(steps[issued.len() - 1] == next[next_issued.len() - 1]);
}

/// A record that ends in a failure within the first steps of a longer list
/// is a record of that list too.
proof fn lemma_failed_early(
    part: Seq<Step>,
    steps: Seq<Step>,
    issued: Seq<TermEvent>,
    result: Result<(), Error>,
    history: Seq<Seq<char>>,
)
    requires
        carried_out(part, issued, result, history),
        part.is_prefix_of(steps),
        result is Err,
    ensures
        carried_out(steps, issued, result, history),
{
}

/// A result without a value that is `Ok` is `Ok(())`.
proof fn lemma_ok_is_unit(result: Result<(), Error>)
    requires
        result is Ok,
    ensures
        result == Ok::<(), Error>(()),
{
    assert(result->Ok_0 == ());
}

} // verus!
