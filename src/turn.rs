use vstd::prelude::*;
use crate::chat::{
    ChatHistory, Message, MessageView, Role, normalized, replies_answered, retracted, turn,
    valid_history, views_of, lemma_normalized_answered, lemma_normalized_valid,
};

verus! {

/// How many times one question is sent before the turn is given up.
pub const MAX_ATTEMPTS: usize = 3;

/// The pause before each attempt after the first, in milliseconds.
pub const BACKOFF_MS: u64 = 1500;

/// Where one user turn stands.
pub enum TurnState {
    Attempting(usize),
    Succeeded(String),
    Failed,
}

/// The pause to take before attempt `attempt`.
pub fn backoff_before(attempt: usize) -> (r: u64)
    ensures
        r == (if attempt == 0 { 0 } else { BACKOFF_MS }),
{
    if attempt == 0 { 0 } else { BACKOFF_MS }
}

/// The next state after attempt `attempt` came back with `reply` (`None` for a transport failure).
pub fn after_attempt(attempt: usize, reply: Option<String>) -> (r: TurnState)
    requires
        attempt < MAX_ATTEMPTS,
    ensures
        match reply {
            None => r is Failed,
            Some(text) => if text@.len() > 0 {
                r matches TurnState::Succeeded(t) && t@ == text@
            } else if attempt + 1 < MAX_ATTEMPTS {
                r == TurnState::Attempting((attempt + 1) as usize)
            } else {
                r is Failed
            },
        },
{
    match reply {
        None => TurnState::Failed,
        Some(text) => {
            if text.unicode_len() > 0 {
                TurnState::Succeeded(text)
            } else if attempt + 1 < MAX_ATTEMPTS {
                TurnState::Attempting(attempt + 1)
            } else {
                TurnState::Failed
            }
        },
    }
}

/// The history once a question is accepted.
pub open spec fn asked(h: Seq<MessageView>, question: Seq<char>, cap: nat) -> Seq<MessageView> {
    normalized(h.push(turn(Role::User, question)), cap)
}

/// The history once a turn ends: the reply appended, or the question taken back.
pub open spec fn committed(h: Seq<MessageView>, reply: Option<Seq<char>>, cap: nat) -> Seq<
    MessageView,
> {
    match reply {
        Some(text) => normalized(h.push(turn(Role::Assistant, text)), cap),
        None => retracted(h),
    }
}

/// Starts a turn: records the question and returns the message list to send on every attempt.
pub fn begin_turn(history: &mut ChatHistory, question: &str) -> (r: Vec<Message>)
    ensures
        final(history).turns() == asked(old(history).turns(), question@, old(history).capacity()),
        final(history).capacity() == old(history).capacity(),
        final(history).system_text() == old(history).system_text(),
        final(history).inv(),
        views_of(r@) == seq![turn(Role::System, final(history).system_text())] + final(history).turns(),
{
    history.add_user_message(question);
    history.build_api_messages()
}

/// Ends a turn: a success appends the reply; a failure takes the question back.
pub fn finish_turn(history: &mut ChatHistory, state: &TurnState)
    requires
        !(state is Attempting),
        old(history).inv(),
    ensures
        final(history).turns() == committed(
            old(history).turns(),
            match state {
                TurnState::Succeeded(text) => Some(text@),
                _ => None,
            },
            old(history).capacity(),
        ),
        final(history).capacity() == old(history).capacity(),
        final(history).inv(),
{
    match state {
        TurnState::Succeeded(text) => history.add_assistant_message(text.as_str()),
        _ => history.pop_last_user_message(),
    }
}

proof fn lemma_push_question_answered(h: Seq<MessageView>, question: Seq<char>)
    requires
        replies_answered(h),
    ensures
        replies_answered(h.push(turn(Role::User, question))),
{
    reveal(replies_answered);
    let p = h.push(turn(Role::User, question));
    assert forall|i: int, j: int|
        0 <= j && j + 1 == i && i < p.len() && (#[trigger] p[i]).role == Role::Assistant implies (#[trigger] p[j]).role
        == Role::User by {
        assert(p[i] == h[i]);
        assert(p[j] == h[j]);
    }
    if h.len() > 0 {
        assert(p[0] == h[0]);
    }
}

proof fn lemma_push_reply_answered(a: Seq<MessageView>, text: Seq<char>)
    requires
        replies_answered(a),
        a.len() > 0,
        a.last().role == Role::User,
    ensures
        replies_answered(a.push(turn(Role::Assistant, text))),
{
    reveal(replies_answered);
    let q = a.push(turn(Role::Assistant, text));
    assert forall|i: int, j: int|
        0 <= j && j + 1 == i && i < q.len() && (#[trigger] q[i]).role == Role::Assistant implies (#[trigger] q[j]).role
        == Role::User by {
        assert(q[j] == a[j]);
        if i < a.len() {
            assert(q[i] == a[i]);
        }
    }
    assert(q[0] == a[0]);
}

proof fn lemma_retracted_answered(a: Seq<MessageView>, cap: nat)
    requires
        replies_answered(a),
        valid_history(a, cap),
    ensures
        replies_answered(retracted(a)),
        valid_history(retracted(a), cap),
{
    reveal(replies_answered);
    if a.len() > 0 && a.last().role == Role::User {
        let r = a.drop_last();
        assert forall|i: int, j: int|
            0 <= j && j + 1 == i && i < r.len() && (#[trigger] r[i]).role == Role::Assistant implies (#[trigger] r[j]).role
            == Role::User by {
            assert(r[i] == a[i]);
            assert(r[j] == a[j]);
        }
        if r.len() > 0 {
            assert(r[0] == a[0]);
        }
    }
}

/// A turn, asked and then committed, never leaves a reply without the question right before it.
pub proof fn lemma_turn_keeps_replies_answered(
    h: Seq<MessageView>,
    cap: nat,
    question: Seq<char>,
    reply: Option<Seq<char>>,
)
    requires
        valid_history(h, cap),
        replies_answered(h),
    ensures
        replies_answered(asked(h, question, cap)),
        replies_answered(committed(asked(h, question, cap), reply, cap)),
        valid_history(committed(asked(h, question, cap), reply, cap), cap),
{
    let p = h.push(turn(Role::User, question));
    lemma_push_question_answered(h, question);
    lemma_normalized_answered(p, cap);
    lemma_normalized_valid(p, cap);
    let a = asked(h, question, cap);
    lemma_drop_to_question(h, cap, question);
    match reply {
        Some(text) => {
            let q = a.push(turn(Role::Assistant, text));
            if a.len() > 0 {
                lemma_push_reply_answered(a, text);
                lemma_normalized_answered(q, cap);
            } else {
                assert(a =~= Seq::<MessageView>::empty());
                lemma_empty_reply_dropped(text, cap);
            }
            lemma_normalized_valid(q, cap);
        },
        None => {
            lemma_retracted_answered(a, cap);
        },
    }
}

proof fn lemma_empty_reply_dropped(text: Seq<char>, cap: nat)
    ensures
        replies_answered(normalized(Seq::<MessageView>::empty().push(turn(Role::Assistant, text)), cap)),
{
    reveal(replies_answered);
    let q = Seq::<MessageView>::empty().push(turn(Role::Assistant, text));
    let kept = crate::chat::keep_newest(q, cap);
    crate::chat::lemma_drop_leading_replies_suffix(kept);
    let r = normalized(q, cap);
    assert(kept.len() <= 1);
    if kept.len() == 1 {
        assert(kept[0].role == Role::Assistant);
        assert(kept.drop_first().len() == 0);
        assert(r.len() == 0);
    }
}

/// Right after a question is accepted, the history is empty or ends with that question.
pub proof fn lemma_drop_to_question(h: Seq<MessageView>, cap: nat, question: Seq<char>)
    ensures
        asked(h, question, cap).len() > 0 ==> asked(h, question, cap).last() == turn(
            Role::User,
            question,
        ),
{
    let p = h.push(turn(Role::User, question));
    let kept = crate::chat::keep_newest(p, cap);
    crate::chat::lemma_drop_leading_replies_suffix(kept);
    let r = asked(h, question, cap);
    if r.len() > 0 {
        assert(r.last() == kept.last());
        assert(kept.last() == p.last());
    }
}

/// A failed turn on a history below its capacity leaves the history as it was before the question.
pub proof fn lemma_failed_turn_restores(h: Seq<MessageView>, cap: nat, question: Seq<char>)
    requires
        valid_history(h, cap),
        h.len() < cap,
    ensures
        committed(asked(h, question, cap), None, cap) == h,
{
    let p = h.push(turn(Role::User, question));
    assert(crate::chat::keep_newest(p, cap) == p);
    assert(p[0].role != Role::Assistant);
    assert(asked(h, question, cap) == p);
    assert(p.drop_last() == h);
}

} // verus!
