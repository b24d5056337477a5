//! What holds of every session and every text, proved from the definitions
//! that the contracts of the library use.
use crate::snip::{
    all_ok, cleared, history_after, lemma_push_keeps_visible, push_history, push_steps,
    recorded_ok, visible, wrote, write_steps, SnipView, Step,
};
use crate::termwrap::{
    calls_in, lemma_after_both, lemma_after_one, lemma_calls_received, Call, TermEvent, TermModel,
};
use crate::wrap::{short_line, wrapped};
use std::io::Error;
use vstd::arithmetic::div_mod::{
    lemma_basic_div, lemma_fundamental_div_mod, lemma_fundamental_div_mod_converse,
    lemma_mod_bound,
};
use vstd::arithmetic::mul::{lemma_mul_inequality, lemma_mul_is_distributive_add_other_way};
use vstd::prelude::*;

verus! {

/// The last `limit` entries of `lines`, or all of them if there are fewer.
pub open spec fn keep_last(lines: Seq<Seq<char>>, limit: nat) -> Seq<Seq<char>> {
    if lines.len() <= limit {
        lines
    } else {
        lines.skip(lines.len() - limit)
    }
}

/// The first `count` full chunks of `text` for a terminal of `width` columns.
pub open spec fn full_chunks(text: Seq<char>, width: nat, count: nat) -> Seq<Seq<char>> {
    Seq::new(count, |i: int| text.subrange(i * width, i * width + width))
}

/// A window never holds more lines than its limit, however many chunks are
/// pushed.
pub proof fn lemma_history_bounded(history: Seq<Seq<char>>, limit: nat, chunks: Seq<Seq<char>>)
    requires
        history.len() <= limit,
    ensures
        history_after(history, limit, chunks).len() <= limit,
    decreases chunks.len(),
{
    if chunks.len() > 0 {
        lemma_history_bounded(history, limit, chunks.drop_last());
    }
}

/// Every step of a write holds a window within the limit.
pub proof fn lemma_steps_bounded(
    history: Seq<Seq<char>>,
    limit: nat,
    chunks: Seq<Seq<char>>,
    i: int,
)
    requires
        history.len() <= limit,
        0 <= i < write_steps(history, limit, chunks).len(),
    ensures
        write_steps(history, limit, chunks)[i].history.len() <= limit,
    decreases chunks.len(),
{
    if chunks.len() > 0 {
        let before = chunks.drop_last();
        if i < write_steps(history, limit, before).len() {
            lemma_steps_bounded(history, limit, before, i);
        } else {
            lemma_history_bounded(history, limit, chunks);
        }
    }
}

/// Every clear that a write makes clears exactly `limit` lines: the window
/// is full whenever it is painted again.
pub proof fn lemma_clears_whole_window(
    history: Seq<Seq<char>>,
    limit: nat,
    chunks: Seq<Seq<char>>,
    i: int,
)
    requires
        history.len() <= limit,
        0 <= i < write_steps(history, limit, chunks).len(),
        write_steps(history, limit, chunks)[i].call is ClearLastLines,
    ensures
        write_steps(history, limit, chunks)[i].call == Call::ClearLastLines(limit),
        write_steps(history, limit, chunks)[i].history.len() == limit,
    decreases chunks.len(),
{
    if chunks.len() > 0 {
        let before = chunks.drop_last();
        if i < write_steps(history, limit, before).len() {
            lemma_clears_whole_window(history, limit, before, i);
        } else {
            lemma_history_bounded(history, limit, before);
        }
    }
}

/// A write leaves the window within its limit, whether it succeeds or fails.
pub proof fn lemma_write_keeps_bound(
    pre: SnipView,
    text: Seq<char>,
    post: SnipView,
    result: Result<(), Error>,
)
    requires
        pre.wf(),
        post.continues(pre),
        wrote(pre, text, post, result),
    ensures
        post.wf(),
{
    let asked = post.since(pre);
    let chunks = wrapped(text, asked[0]->cols as nat, pre.fill);
    lemma_steps_bounded(pre.history, pre.limit, chunks, asked.skip(1).len() - 1);
}

/// A clear leaves the window within its limit, whether it succeeds or fails.
pub proof fn lemma_clear_keeps_bound(pre: SnipView, post: SnipView, result: Result<(), Error>)
    requires
        pre.wf(),
        post.continues(pre),
        cleared(pre, post, result),
    ensures
        post.wf(),
{
}

/// After any number of pushes the window holds the newest lines: the last
/// `limit` of the old window followed by the chunks.
pub proof fn lemma_history_keeps_newest(
    history: Seq<Seq<char>>,
    limit: nat,
    chunks: Seq<Seq<char>>,
)
    requires
        history.len() <= limit,
    ensures
        history_after(history, limit, chunks) == keep_last(history + chunks, limit),
    decreases chunks.len(),
{
    if chunks.len() == 0 {
        assert(history + chunks =~= history);
    } else {
        let before = chunks.drop_last();
        lemma_history_keeps_newest(history, limit, before);
        lemma_history_bounded(history, limit, before);
        assert((history + before).push(chunks.last()) =~= history + chunks);
        assert(push_history(keep_last(history + before, limit), limit, chunks.last())
            =~= keep_last(history + chunks, limit));
    }
}

/// A text shorter than the terminal is one chunk: the text itself, padded if
/// the session fills.
pub proof fn lemma_wrapped_short(text: Seq<char>, width: nat, fill: bool)
    requires
        text.len() < width,
    ensures
        wrapped(text, width, fill) == seq![short_line(text, width, fill)],
{
    lemma_basic_div(text.len() as int, width as int);
    assert(text.subrange(0, text.len() as int) =~= text);
    assert(wrapped(text, width, fill) =~= seq![short_line(text, width, fill)]);
}

/// The shape of a wrapped text of length `L` on a terminal of `W > 0`
/// columns: `L / W` chunks of exactly `W` characters, cut from the text in
/// order, and one more chunk with the `L % W` characters that are left. A
/// text of exactly `W` characters so gives itself and an empty rest.
pub proof fn lemma_wrap_shape(text: Seq<char>, width: nat, fill: bool)
    requires
        width > 0,
    ensures
        wrapped(text, width, fill).len() == text.len() / width + 1,
        (text.len() / width) * width + text.len() % width == text.len(),
        forall|i: int|
            0 <= i < text.len() / width ==> {
                &&& (#[trigger] wrapped(text, width, fill)[i]).len() == width
                &&& wrapped(text, width, fill)[i] == text.subrange(i * width, i * width + width)
            },
        wrapped(text, width, fill).last() == short_line(
            text.skip(((text.len() / width) * width) as int),
            width,
            fill,
        ),
        text.skip(((text.len() / width) * width) as int).len() == text.len() % width,
        text.len() % width < width,
        text.len() == width ==> wrapped(text, width, fill) == seq![
            text,
            short_line(Seq::empty(), width, fill),
        ],
{
    let full = text.len() / width;
    lemma_fundamental_div_mod(text.len() as int, width as int);
    lemma_mod_bound(text.len() as int, width as int);
    assert(full * width == width * full) by (nonlinear_arith);
    assert forall|i: int| 0 <= i < full implies {
        &&& (#[trigger] wrapped(text, width, fill)[i]).len() == width
        &&& wrapped(text, width, fill)[i] == text.subrange(i * width, i * width + width)
    } by {
        lemma_mul_inequality(i + 1, full as int, width as int);
        lemma_mul_is_distributive_add_other_way(width as int, i, 1);
        lemma_mul_inequality(0, i, width as int);
    }
    if text.len() == width {
        lemma_fundamental_div_mod_converse(text.len() as int, width as int, 1, 0);
        assert(text.subrange(0int * width, 0int * width + width) =~= text);
        assert(text.subrange((full * width) as int, text.len() as int) =~= Seq::<char>::empty());
        assert(wrapped(text, width, fill) =~= seq![
            text,
            short_line(Seq::empty(), width, fill),
        ]);
    }
}

/// The full chunks of a text, joined, are the front of the text.
proof fn lemma_full_chunks_join(text: Seq<char>, width: nat, count: nat)
    requires
        count * width <= text.len(),
    ensures
        full_chunks(text, width, count).flatten() == text.take((count * width) as int),
    decreases count,
{
    if count == 0 {
        assert(count * width == 0) by (nonlinear_arith)
            requires
                count == 0,
        ;
        assert(full_chunks(text, width, count) =~= Seq::<Seq<char>>::empty());
        assert(text.take(0) =~= Seq::<char>::empty());
    } else {
        let before = (count - 1) as nat;
        let front = (before as int) * width;
        assert(count * width == front + width) by (nonlinear_arith)
            requires
                count == before + 1,
                front == before * width,
        ;
        lemma_full_chunks_join(text, width, before);
        let chunk = text.subrange(front, front + width);
        assert(full_chunks(text, width, count) =~= full_chunks(text, width, before).push(chunk));
        full_chunks(text, width, before).lemma_flatten_push(chunk);
        assert(text.take(front) + chunk =~= text.take(front + width));
    }
}

/// Wrapping loses nothing and adds nothing: the chunks of a session that
/// does not fill, joined in order, are the text.
pub proof fn lemma_wrap_keeps_text(text: Seq<char>, width: nat)
    ensures
        wrapped(text, width, false).flatten() == text,
{
    if width == 0 {
        wrapped(text, width, false).lemma_flatten_singleton();
    } else {
        let full = text.len() / width;
        lemma_wrap_shape(text, width, false);
        lemma_full_chunks_join(text, width, full);
        let rest = text.skip((full * width) as int);
        assert(wrapped(text, width, false) =~= full_chunks(text, width, full).push(rest));
        full_chunks(text, width, full).lemma_flatten_push(rest);
        assert(text.take((full * width) as int) + rest =~= text);
    }
}

/// While the window has room, a write of a text shorter than the terminal
/// makes exactly one call, a `WriteLine` of the line, and no clear; the line
/// joins the window, whether or not the call succeeded.
pub proof fn lemma_fast_path(
    pre: SnipView,
    text: Seq<char>,
    post: SnipView,
    result: Result<(), Error>,
)
    requires
        wrote(pre, text, post, result),
        pre.history.len() < pre.limit,
        text.len() < post.since(pre)[0]->cols,
    ensures
        post.since(pre).len() == 2,
        post.since(pre)[1] == (TermEvent::Issued {
            call: Call::WriteLine(short_line(text, post.since(pre)[0]->cols as nat, pre.fill)),
            result,
        }),
        post.history == pre.history.push(
            short_line(text, post.since(pre)[0]->cols as nat, pre.fill),
        ),
{
    let width = post.since(pre)[0]->cols as nat;
    let line = short_line(text, width, pre.fill);
    lemma_wrapped_short(text, width, pre.fill);
    lemma_steps_of_one(pre.history, pre.limit, line);
    let issued = post.since(pre).skip(1);
    assert(issued.len() == 1);
    assert(issued[0] == post.since(pre)[1]);
    assert(issued.last() == issued[0]);
}

/// Once the window is full, a write of a text shorter than the terminal
/// that succeeds makes one `ClearLastLines(limit)` and then `limit` calls of
/// `WriteLine`, one for each line of the new window from the top. The new
/// window is the old one without its oldest line and with the new line at
/// the end.
pub proof fn lemma_slow_path(
    pre: SnipView,
    text: Seq<char>,
    post: SnipView,
    result: Result<(), Error>,
)
    requires
        wrote(pre, text, post, result),
        pre.history.len() == pre.limit,
        text.len() < post.since(pre)[0]->cols,
        result is Ok,
    ensures
        post.since(pre).len() == 2 + pre.limit,
        recorded_ok(post.since(pre)[1], Call::ClearLastLines(pre.limit)),
        forall|j: int|
            0 <= j < pre.limit ==> recorded_ok(
                #[trigger] post.since(pre)[2 + j],
                Call::WriteLine(post.history[j]),
            ),
        post.history.len() == pre.limit,
        post.history == pre.history.push(
            short_line(text, post.since(pre)[0]->cols as nat, pre.fill),
        ).drop_first(),
        pre.limit > 0 ==> post.history == pre.history.drop_first().push(
            short_line(text, post.since(pre)[0]->cols as nat, pre.fill),
        ),
{
    let width = post.since(pre)[0]->cols as nat;
    let line = short_line(text, width, pre.fill);
    let window = pre.history.push(line).drop_first();
    lemma_wrapped_short(text, width, pre.fill);
    lemma_steps_of_one(pre.history, pre.limit, line);
    let steps = push_steps(pre.history, pre.limit, line);
    let issued = post.since(pre).skip(1);
    assert(issued.len() == 1 + pre.limit);
    assert(issued[0] == post.since(pre)[1]);
    assert(post.history == window);
    assert forall|j: int| 0 <= j < pre.limit implies recorded_ok(
        #[trigger] post.since(pre)[2 + j],
        Call::WriteLine(post.history[j]),
    ) by {
        assert(issued[1 + j] == post.since(pre)[2 + j]);
        assert(steps[1 + j].call == Call::WriteLine(window[j]));
        if 1 + j == issued.len() - 1 {
            assert(issued.last() == issued[1 + j]);
        }
    }
    assert(recorded_ok(issued[0], Call::ClearLastLines(pre.limit))) by {
        assert(steps[0].call == Call::ClearLastLines(pre.limit));
        if issued.len() == 1 {
            assert(issued.last() == issued[0]);
        }
    }
    if pre.limit > 0 {
        assert(window =~= pre.history.drop_first().push(line));
    }
}

/// A clear on an empty window asks the terminal to clear no lines, and the
/// window stays empty, whether or not the call succeeded.
pub proof fn lemma_clear_when_empty(pre: SnipView, post: SnipView, result: Result<(), Error>)
    requires
        cleared(pre, post, result),
        pre.history.len() == 0,
    ensures
        post.since(pre) == seq![TermEvent::Issued { call: Call::ClearLastLines(0), result }],
        post.history == Seq::<Seq<char>>::empty(),
{
    assert(pre.history =~= Seq::<Seq<char>>::empty());
}

/// Pushing chunks whose calls all succeed keeps the window at the bottom of
/// the screen.
pub proof fn lemma_pushes_keep_visible(
    model: TermModel,
    history: Seq<Seq<char>>,
    limit: nat,
    chunks: Seq<Seq<char>>,
    issued: Seq<TermEvent>,
)
    requires
        visible(model.screen, history),
        all_ok(write_steps(history, limit, chunks), issued),
    ensures
        visible(model.after_all(issued).screen, history_after(history, limit, chunks)),
    decreases chunks.len(),
{
    if chunks.len() > 0 {
        let before = chunks.drop_last();
        let reached = history_after(history, limit, before);
        let first = write_steps(history, limit, before);
        let next = push_steps(reached, limit, chunks.last());
        let first_issued = issued.take(first.len() as int);
        let next_issued = issued.skip(first.len() as int);
        assert forall|i: int| 0 <= i < first_issued.len() implies recorded_ok(
            #[trigger] first_issued[i],
            first[i].call,
        ) by {
            assert(recorded_ok(issued[i], (first + next)[i].call));
        }
        assert forall|i: int| 0 <= i < next_issued.len() implies recorded_ok(
            #[trigger] next_issued[i],
            next[i].call,
        ) by {
            assert(recorded_ok(issued[first.len() + i], (first + next)[first.len() + i].call));
        }
        lemma_pushes_keep_visible(model, history, limit, before, first_issued);
        lemma_push_keeps_visible(
            model.after_all(first_issued),
            reached,
            limit,
            chunks.last(),
            next_issued,
        );
        assert(first_issued + next_issued =~= issued);
        lemma_after_both(model, first_issued, next_issued);
    }
}

/// A write that succeeds keeps the session in step with its terminal: if
/// the last lines on the screen were the window before, they are the window
/// after.
pub proof fn lemma_write_keeps_sync(
    pre: SnipView,
    text: Seq<char>,
    post: SnipView,
    result: Result<(), Error>,
)
    requires
        post.continues(pre),
        wrote(pre, text, post, result),
        result is Ok,
        pre.in_sync(),
    ensures
        post.in_sync(),
{
    if pre.model is Some {
        let model = pre.model->0;
        let asked = post.since(pre);
        let issued = asked.skip(1);
        let chunks = wrapped(text, asked[0]->cols as nat, pre.fill);
        let steps = write_steps(pre.history, pre.limit, chunks);
        assert forall|i: int| 0 <= i < issued.len() implies recorded_ok(
            #[trigger] issued[i],
            steps[i].call,
        ) by {
            if i == issued.len() - 1 {
                assert(issued.last() == issued[i]);
            }
        }
        lemma_after_one(model, asked[0]);
        lemma_pushes_keep_visible(model, pre.history, pre.limit, chunks, issued);
        assert(seq![asked[0]] + issued =~= asked);
        lemma_after_both(model, seq![asked[0]], issued);
        assert(steps.last() == steps[issued.len() - 1]);
    }
}

/// A clear that succeeds leaves the session in step with its terminal,
/// whatever went wrong before.
pub proof fn lemma_clear_restores_sync(pre: SnipView, post: SnipView, result: Result<(), Error>)
    requires
        cleared(pre, post, result),
        result is Ok,
    ensures
        post.in_sync(),
        post.wf(),
{
    if post.model is Some {
        let shown = post.model->0.screen;
        assert(shown.skip(shown.len() as int) =~= post.history);
    }
}

/// A terminal with a model has received the calls that the session made, in
/// their order, and no others.
pub proof fn lemma_terminal_received(pre: SnipView, post: SnipView)
    requires
        post.continues(pre),
        pre.model is Some,
    ensures
        post.model is Some,
        post.model->0.calls == pre.model->0.calls + calls_in(post.since(pre)),
{
    lemma_calls_received(pre.model->0, post.since(pre));
}

/// The steps of writing a single chunk are the steps of pushing it.
proof fn lemma_steps_of_one(history: Seq<Seq<char>>, limit: nat, chunk: Seq<char>)
    ensures
        write_steps(history, limit, seq![chunk]) == push_steps(history, limit, chunk),
{
    let chunks = seq![chunk];
    assert(chunks.drop_last() =~= Seq::<Seq<char>>::empty());
    assert(write_steps(history, limit, chunks.drop_last()) =~= Seq::<Step>::empty());
    assert(write_steps(history, limit, chunks) =~= push_steps(history, limit, chunk));
}

} // verus!
