//! Batching of queued input: consecutive text is coalesced into one write,
//! and pending text is flushed before every special key or resize, so nothing
//! is reordered.
use std::collections::VecDeque;
use vstd::prelude::*;
use vstd::string::*;

verus! {

broadcast use vstd::seq_lib::group_seq_properties;

/// A queued input command.
pub enum InputCommand {
    Text(String),
    SpecialKey(String),
    Resize(u16, u16),
}

pub enum CommandView {
    Text(Seq<char>),
    SpecialKey(Seq<char>),
    Resize(u16, u16),
}

impl View for InputCommand {
    type V = CommandView;

    open spec fn view(&self) -> CommandView {
        match self {
            InputCommand::Text(t) => CommandView::Text(t@),
            InputCommand::SpecialKey(k) => CommandView::SpecialKey(k@),
            InputCommand::Resize(c, r) => CommandView::Resize(*c, *r),
        }
    }
}

/// One call to make on the terminal session.
pub enum InputAction {
    /// Send text literally.
    SendText(String),
    /// Send a named key.
    SendSpecialKey(String),
    /// Resize the window to columns and rows.
    Resize(u16, u16),
}

impl View for InputAction {
    type V = CommandView;

    open spec fn view(&self) -> CommandView {
        match self {
            InputAction::SendText(t) => CommandView::Text(t@),
            InputAction::SendSpecialKey(k) => CommandView::SpecialKey(k@),
            InputAction::Resize(c, r) => CommandView::Resize(*c, *r),
        }
    }
}

pub open spec fn command_views(s: Seq<InputCommand>) -> Seq<CommandView> {
    s.map_values(|c: InputCommand| c@)
}

pub open spec fn action_views(s: Seq<InputAction>) -> Seq<CommandView> {
    s.map_values(|a: InputAction| a@)
}

/// `text` as a write, or nothing when it is empty.
pub open spec fn flush(text: Seq<char>) -> Seq<CommandView> {
    if text.len() > 0 {
        seq![CommandView::Text(text)]
    } else {
        seq![]
    }
}

/// The calls for `cmds`, given text `pending` not yet written.
pub open spec fn plan_from(cmds: Seq<CommandView>, pending: Seq<char>) -> Seq<CommandView>
    decreases cmds.len(),
{
    if cmds.len() == 0 {
        flush(pending)
    } else {
        match cmds[0] {
            CommandView::Text(t) => plan_from(cmds.drop_first(), pending + t),
            other => flush(pending) + seq![other] + plan_from(cmds.drop_first(), seq![]),
        }
    }
}

/// The calls that carry out `cmds` in order.
pub open spec fn plan(cmds: Seq<CommandView>) -> Seq<CommandView> {
    plan_from(cmds, seq![])
}

proof fn lemma_plan_split(cmds: Seq<CommandView>, pending: Seq<char>)
    ensures
        plan_from(cmds, pending) == plan_pending_prefix(cmds, pending) + flush(
            pending_after(cmds, pending),
        ),
    decreases cmds.len(),
{
    if cmds.len() == 0 {
        assert(plan_pending_prefix(cmds, pending) + flush(pending) =~= flush(pending));
    } else {
        match cmds[0] {
            CommandView::Text(t) => {
                lemma_plan_split(cmds.drop_first(), pending + t);
            },
            other => {
                lemma_plan_split(cmds.drop_first(), seq![]);
                let p = plan_pending_prefix(cmds.drop_first(), seq![]);
                let q = flush(pending_after(cmds.drop_first(), seq![]));
                assert(flush(pending) + seq![other] + (p + q) =~= (flush(pending) + seq![other] + p)
                    + q);
            },
        }
    }
}

/// The calls already fixed after `cmds`, excluding the text still pending.
pub open spec fn plan_pending_prefix(cmds: Seq<CommandView>, pending: Seq<char>) -> Seq<CommandView>
    decreases cmds.len(),
{
    if cmds.len() == 0 {
        seq![]
    } else {
        match cmds[0] {
            CommandView::Text(t) => plan_pending_prefix(cmds.drop_first(), pending + t),
            other => flush(pending) + seq![other] + plan_pending_prefix(cmds.drop_first(), seq![]),
        }
    }
}

/// The text still pending after `cmds`.
pub open spec fn pending_after(cmds: Seq<CommandView>, pending: Seq<char>) -> Seq<char>
    decreases cmds.len(),
{
    if cmds.len() == 0 {
        pending
    } else {
        match cmds[0] {
            CommandView::Text(t) => pending_after(cmds.drop_first(), pending + t),
            _ => pending_after(cmds.drop_first(), seq![]),
        }
    }
}

proof fn lemma_prefix_snoc(cmds: Seq<CommandView>, pending: Seq<char>, c: CommandView)
    ensures
        plan_pending_prefix(cmds.push(c), pending) == match c {
            CommandView::Text(t) => plan_pending_prefix(cmds, pending),
            other => plan_pending_prefix(cmds, pending) + flush(pending_after(cmds, pending))
                + seq![other],
        },
        pending_after(cmds.push(c), pending) == match c {
            CommandView::Text(t) => pending_after(cmds, pending) + t,
            _ => Seq::<char>::empty(),
        },
    decreases cmds.len(),
{
    if cmds.len() == 0 {
        assert(cmds.push(c).drop_first() =~= Seq::<CommandView>::empty());
        assert(cmds.push(c)[0] == c);
        reveal_with_fuel(pending_after, 2);
        reveal_with_fuel(plan_pending_prefix, 2);
        match c {
            CommandView::Text(t) => {},
            _ => {
                assert(flush(pending) + seq![c] + Seq::<CommandView>::empty() =~= Seq::<
                    CommandView,
                >::empty() + flush(pending) + seq![c]);
            },
        }
    } else {
        assert(cmds.push(c).drop_first() =~= cmds.drop_first().push(c));
        assert(cmds.push(c)[0] == cmds[0]);
        match cmds[0] {
            CommandView::Text(t) => {
                lemma_prefix_snoc(cmds.drop_first(), pending + t, c);
            },
            other => {
                lemma_prefix_snoc(cmds.drop_first(), seq![], c);
                match c {
                    CommandView::Text(u) => {},
                    _ => {
                        let p = plan_pending_prefix(cmds.drop_first(), seq![]);
                        let q = flush(pending_after(cmds.drop_first(), seq![]));
                        assert(flush(pending) + seq![other] + (p + q + seq![c]) =~= (flush(pending)
                            + seq![other] + p) + q + seq![c]);
                    },
                }
            },
        }
    }
}


/// Text as one event per character.
pub open spec fn text_events(t: Seq<char>) -> Seq<CommandView> {
    t.map_values(|c: char| CommandView::Text(seq![c]))
}

/// Commands as a stream of events: each character of text on its own, keys
/// and resizes as they are.
pub open spec fn events(cmds: Seq<CommandView>) -> Seq<CommandView>
    decreases cmds.len(),
{
    if cmds.len() == 0 {
        seq![]
    } else {
        match cmds[0] {
            CommandView::Text(t) => text_events(t) + events(cmds.drop_first()),
            other => seq![other] + events(cmds.drop_first()),
        }
    }
}

proof fn lemma_events_concat(a: Seq<CommandView>, b: Seq<CommandView>)
    ensures
        events(a + b) == events(a) + events(b),
    decreases a.len(),
{
    if a.len() == 0 {
        assert(a + b =~= b);
        assert(events(a) + events(b) =~= events(b));
    } else {
        assert((a + b).drop_first() =~= a.drop_first() + b);
        assert((a + b)[0] == a[0]);
        lemma_events_concat(a.drop_first(), b);
        match a[0] {
            CommandView::Text(t) => {
                assert(text_events(t) + (events(a.drop_first()) + events(b)) =~= (text_events(t) + events(
                    a.drop_first(),
                )) + events(b));
            },
            other => {
                assert(seq![other] + (events(a.drop_first()) + events(b)) =~= (seq![other] + events(
                    a.drop_first(),
                )) + events(b));
            },
        }
    }
}

proof fn lemma_events_of_flush(p: Seq<char>)
    ensures
        events(flush(p)) == text_events(p),
{
    if p.len() > 0 {
        let f = seq![CommandView::Text(p)];
        assert(f.drop_first() =~= Seq::<CommandView>::empty());
        assert(f[0] == CommandView::Text(p));
        assert(events(f) =~= text_events(p) + events(f.drop_first()));
        assert(events(f) =~= text_events(p));
    } else {
        assert(text_events(p) =~= Seq::<CommandView>::empty());
    }
}

proof fn lemma_events_plan_from(cmds: Seq<CommandView>, pending: Seq<char>)
    ensures
        events(plan_from(cmds, pending)) == text_events(pending) + events(cmds),
    decreases cmds.len(),
{
    if cmds.len() == 0 {
        lemma_events_of_flush(pending);
        assert(text_events(pending) + events(cmds) =~= text_events(pending));
    } else {
        let rest = cmds.drop_first();
        match cmds[0] {
            CommandView::Text(t) => {
                lemma_events_plan_from(rest, pending + t);
                assert(text_events(pending + t) =~= text_events(pending) + text_events(t));
                assert(text_events(pending) + text_events(t) + events(rest) =~= text_events(pending) + (
                text_events(t) + events(rest)));
            },
            other => {
                lemma_events_plan_from(rest, seq![]);
                assert(text_events(Seq::<char>::empty()) =~= Seq::<CommandView>::empty());
                lemma_events_concat(flush(pending) + seq![other], plan_from(rest, seq![]));
                lemma_events_concat(flush(pending), seq![other]);
                lemma_events_of_flush(pending);
                let o = seq![other];
                assert(o.drop_first() =~= Seq::<CommandView>::empty());
                assert(o[0] == other);
                assert(events(o) =~= seq![other] + events(o.drop_first()));
                assert(events(o) =~= seq![other]);
                assert(text_events(pending) + seq![other] + (Seq::<CommandView>::empty() + events(rest))
                    =~= text_events(pending) + (seq![other] + events(rest)));
            },
        }
    }
}

/// Batching never reorders input: the calls made carry the same characters,
/// keys and resizes, in the same order, as the commands queued.
pub proof fn lemma_batching_preserves_order(cmds: Seq<CommandView>)
    ensures
        events(plan(cmds)) == events(cmds),
{
    lemma_events_plan_from(cmds, seq![]);
    assert(text_events(Seq::<char>::empty()) =~= Seq::<CommandView>::empty());
    assert(Seq::<CommandView>::empty() + events(cmds) =~= events(cmds));
}

/// Takes up to `max_batch` commands from the front of `queue` and returns the
/// calls that carry them out: runs of text become one write, and pending
/// text is written before each special key or resize.
pub fn plan_input_batch(queue: &mut VecDeque<InputCommand>, max_batch: usize) -> (r: Vec<InputAction>)
    ensures
        ({
            let n = if old(queue)@.len() < max_batch { old(queue)@.len() as int } else { max_batch as int };
            &&& final(queue)@ == old(queue)@.subrange(n, old(queue)@.len() as int)
            &&& action_views(r@) == plan(command_views(old(queue)@.subrange(0, n)))
        }),
{
    let ghost q0 = queue@;
    let ghost n = if q0.len() < max_batch { q0.len() as int } else { max_batch as int };
    let mut actions: Vec<InputAction> = Vec::new();
    let mut text = String::new();
    let mut processed: usize = 0;
    while processed < max_batch && queue.len() > 0
        invariant
            processed <= max_batch,
            processed <= q0.len(),
            n == (if q0.len() < max_batch { q0.len() as int } else { max_batch as int }),
            queue@ == q0.subrange(processed as int, q0.len() as int),
            action_views(actions@) == plan_pending_prefix(
                command_views(q0.subrange(0, processed as int)),
                seq![],
            ),
            text@ == pending_after(command_views(q0.subrange(0, processed as int)), seq![]),
        decreases q0.len() - processed,
    {
        let ghost done = command_views(q0.subrange(0, processed as int));
        let cmd = queue.pop_front().unwrap();
        proof {
            assert(cmd == q0[processed as int]);
            assert(command_views(q0.subrange(0, processed + 1)) =~= done.push(cmd@));
            lemma_prefix_snoc(done, seq![], cmd@);
            assert(queue@ =~= q0.subrange(processed + 1, q0.len() as int));
        }
        match cmd {
            InputCommand::Text(t) => {
                text.append(t.as_str());
            },
            InputCommand::SpecialKey(k) => {
                if !text.as_str().is_empty() {
                    let mut flushed = String::new();
                    std::mem::swap(&mut flushed, &mut text);
                    proof {
                        assert(action_views(actions@.push(InputAction::SendText(flushed)))
                            =~= action_views(actions@) + flush(flushed@));
                    }
                    actions.push(InputAction::SendText(flushed));
                }
                actions.push(InputAction::SendSpecialKey(k));
            },
            InputCommand::Resize(c, r) => {
                if !text.as_str().is_empty() {
                    let mut flushed = String::new();
                    std::mem::swap(&mut flushed, &mut text);
                    proof {
                        assert(action_views(actions@.push(InputAction::SendText(flushed)))
                            =~= action_views(actions@) + flush(flushed@));
                    }
                    actions.push(InputAction::SendText(flushed));
                }
                actions.push(InputAction::Resize(c, r));
            },
        }
        processed = processed + 1;
    }
    if !text.as_str().is_empty() {
        proof {
            assert(action_views(actions@.push(InputAction::SendText(text))) =~= action_views(actions@)
                + flush(text@));
        }
        actions.push(InputAction::SendText(text));
    } else {
        proof {
            assert(action_views(actions@) + flush(text@) =~= action_views(actions@));
        }
    }
    proof {
        lemma_plan_split(command_views(q0.subrange(0, n)), seq![]);
        assert(flush(Seq::<char>::empty()) =~= Seq::<CommandView>::empty());
    }
    actions
}

} // verus!
