use vstd::prelude::*;

verus! {

/// Who wrote a message.
#[derive(Clone, Copy, PartialEq, Eq, Structural, Debug)]
pub enum Role {
    System,
    User,
    Assistant,
}

impl Role {
    /// The role's name as the chat endpoint spells it.
    pub fn as_str(&self) -> (r: &'static str)
        ensures
            r@ == role_name(*self),
    {
        proof {
            reveal_strlit("system");
            reveal_strlit("user");
            reveal_strlit("assistant");
        }
        match self {
            Role::System => "system",
            Role::User => "user",
            Role::Assistant => "assistant",
        }
    }
}

/// The name of a role on the wire.
pub open spec fn role_name(r: Role) -> Seq<char> {
    match r {
        Role::System => "system"@,
        Role::User => "user"@,
        Role::Assistant => "assistant"@,
    }
}

/// One entry of the message list sent to the chat endpoint.
pub struct Message {
    pub role: Role,
    pub content: String,
}

/// What a message is: its role and its text.
pub struct MessageView {
    pub role: Role,
    pub content: Seq<char>,
}

impl View for Message {
    type V = MessageView;

    open spec fn view(&self) -> MessageView {
        MessageView { role: self.role, content: self.content@ }
    }
}

impl Message {
    /// A fresh message with the same role and text.
    pub fn duplicate(&self) -> (r: Message)
        ensures
            r@ == self@,
    {
        Message { role: self.role, content: self.content.clone() }
    }
}

/// A message of the given role and text.
pub open spec fn turn(role: Role, content: Seq<char>) -> MessageView {
    MessageView { role, content }
}

/// What each message of a list is.
pub open spec fn views_of(v: Seq<Message>) -> Seq<MessageView> {
    v.map_values(|m: Message| m@)
}

/// The newest `cap` entries of `s` (all of them when there are no more).
pub open spec fn keep_newest(s: Seq<MessageView>, cap: nat) -> Seq<MessageView> {
    if s.len() > cap {
        s.subrange(s.len() - cap, s.len() as int)
    } else {
        s
    }
}

/// `s` without the replies that open it.
pub open spec fn drop_leading_replies(s: Seq<MessageView>) -> Seq<MessageView>
    decreases s.len(),
{
    if s.len() > 0 && s[0].role == Role::Assistant {
        drop_leading_replies(s.drop_first())
    } else {
        s
    }
}

/// A history after its two rules are restored: capacity first, then no leading reply.
pub open spec fn normalized(s: Seq<MessageView>, cap: nat) -> Seq<MessageView> {
    drop_leading_replies(keep_newest(s, cap))
}

/// A history that fits its capacity and does not open with a reply.
pub open spec fn valid_history(s: Seq<MessageView>, cap: nat) -> bool {
    &&& s.len() <= cap
    &&& s.len() > 0 ==> s[0].role != Role::Assistant
}

/// Every reply directly follows a question.
#[verifier::opaque]
pub open spec fn replies_answered(s: Seq<MessageView>) -> bool {
    &&& s.len() > 0 ==> s[0].role != Role::Assistant
    &&& forall|i: int, j: int|
        #![trigger s[i], s[j]]
        0 <= j && j + 1 == i && i < s.len() && s[i].role == Role::Assistant ==> s[j].role
            == Role::User
}

/// `s` with its last entry removed when that entry is a question.
pub open spec fn retracted(s: Seq<MessageView>) -> Seq<MessageView> {
    if s.len() > 0 && s.last().role == Role::User {
        s.drop_last()
    } else {
        s
    }
}

/// Dropping leading replies leaves a suffix that does not open with a reply.
pub proof fn lemma_drop_leading_replies_suffix(s: Seq<MessageView>)
    ensures
        drop_leading_replies(s).len() <= s.len(),
        drop_leading_replies(s) == s.subrange(
            s.len() - drop_leading_replies(s).len(),
            s.len() as int,
        ),
        drop_leading_replies(s).len() > 0 ==> drop_leading_replies(s)[0].role != Role::Assistant,
    decreases s.len(),
{
    if s.len() > 0 && s[0].role == Role::Assistant {
        lemma_drop_leading_replies_suffix(s.drop_first());
        let r = drop_leading_replies(s);
        assert(r == s.subrange(s.len() - r.len(), s.len() as int));
    } else {
        assert(s == s.subrange(0, s.len() as int));
    }
}

/// Restoring the rules yields a valid history, whatever came before.
pub proof fn lemma_normalized_valid(s: Seq<MessageView>, cap: nat)
    ensures
        valid_history(normalized(s, cap), cap),
{
    lemma_drop_leading_replies_suffix(keep_newest(s, cap));
}

/// A suffix that does not open with a reply keeps every reply answered.
pub proof fn lemma_suffix_answered(s: Seq<MessageView>, k: int)
    requires
        replies_answered(s),
        0 <= k <= s.len(),
        k < s.len() ==> s[k].role != Role::Assistant,
    ensures
        replies_answered(s.subrange(k, s.len() as int)),
{
    reveal(replies_answered);
    let t = s.subrange(k, s.len() as int);
    assert forall|i: int, j: int|
        0 <= j && j + 1 == i && i < t.len() && (#[trigger] t[i]).role == Role::Assistant implies (#[trigger] t[j]).role
        == Role::User by {
        assert(t[i] == s[k + i]);
        assert(t[j] == s[k + j]);
    }
}

/// Restoring the rules keeps every reply answered.
pub proof fn lemma_normalized_answered(s: Seq<MessageView>, cap: nat)
    requires
        replies_answered(s),
    ensures
        replies_answered(normalized(s, cap)),
{
    let kept = keep_newest(s, cap);
    let k = s.len() - kept.len();
    assert(kept == s.subrange(k, s.len() as int));
    lemma_drop_leading_replies_suffix(kept);
    let r = drop_leading_replies(kept);
    let j = kept.len() - r.len();
    assert(r == s.subrange(k + j, s.len() as int));
    if r.len() > 0 {
        assert(s[k + j] == r[0]);
    }
    lemma_suffix_answered(s, k + j);
}

/// The conversation: a system prompt and a bounded history of turns.
pub struct ChatHistory {
    system_prompt: String,
    messages: Vec<Message>,
    max_history: usize,
}

impl ChatHistory {
    /// The turns held, oldest first.
    pub closed spec fn turns(&self) -> Seq<MessageView> {
        views_of(self.messages@)
    }

    /// The most turns kept.
    pub closed spec fn capacity(&self) -> nat {
        self.max_history as nat
    }

    /// The system prompt's text.
    pub closed spec fn system_text(&self) -> Seq<char> {
        self.system_prompt@
    }

    /// The history fits its capacity and does not open with a reply.
    pub open spec fn inv(&self) -> bool {
        valid_history(self.turns(), self.capacity())
    }

    /// An empty conversation with the given system prompt and capacity.
    pub fn new(system_prompt: String, max_history: usize) -> (r: ChatHistory)
        ensures
            r.turns() == Seq::<MessageView>::empty(),
            r.capacity() == max_history,
            r.system_text() == system_prompt@,
            r.inv(),
    {
        ChatHistory { system_prompt, messages: Vec::new(), max_history }
    }

    /// How many turns are held.
    pub fn len(&self) -> (r: usize)
        ensures
            r == self.turns().len(),
    {
        self.messages.len()
    }

    /// A copy of the turns held, oldest first.
    pub fn history(&self) -> (r: Vec<Message>)
        ensures
            views_of(r@) == self.turns(),
    {
        let mut r: Vec<Message> = Vec::new();
        let mut i: usize = 0;
        while i < self.messages.len()
            invariant
                i <= self.messages@.len(),
                views_of(r@) == views_of(self.messages@).subrange(0, i as int),
            decreases self.messages@.len() - i,
        {
            let m = self.messages[i].duplicate();
            let ghost prev = r@;
            r.push(m);
            assert(views_of(r@) =~= views_of(prev).push(self.messages@[i as int]@));
            i = i + 1;
            assert(views_of(r@) =~= views_of(self.messages@).subrange(0, i as int));
        }
        assert(views_of(self.messages@).subrange(0, i as int) == views_of(self.messages@));
        r
    }

    fn push_turn(&mut self, role: Role, content: &str)
        ensures
            final(self).turns() == normalized(old(self).turns().push(turn(role, content@)), old(self).capacity()),
            final(self).capacity() == old(self).capacity(),
            final(self).system_text() == old(self).system_text(),
    {
        let ghost s = old(self).turns().push(turn(role, content@));
        self.messages.push(Message { role, content: String::from_str(content) });
        assert(self.turns() == s);
        self.trim(Ghost(s));
    }

    fn trim(&mut self, Ghost(s): Ghost<Seq<MessageView>>)
        requires
            old(self).turns() == s,
        ensures
            final(self).turns() == normalized(s, old(self).capacity()),
            final(self).capacity() == old(self).capacity(),
            final(self).system_text() == old(self).system_text(),
    {
        let ghost cap = self.capacity();
        while self.messages.len() > self.max_history
            invariant
                self.capacity() == cap,
                self.system_text() == old(self).system_text(),
                self.turns().len() <= s.len(),
                self.turns() == s.subrange(s.len() - self.turns().len(), s.len() as int),
                self.turns().len() >= cap || self.turns().len() == s.len(),
            decreases self.messages@.len(),
        {
            let ghost before = self.turns();
            self.messages.remove(0);
            assert(self.turns() == before.drop_first());
        }
        assert(self.turns() == keep_newest(s, cap));
        let ghost kept = self.turns();
        while self.messages.len() > 0 && self.messages[0].role == Role::Assistant
            invariant
                self.capacity() == cap,
                self.system_text() == old(self).system_text(),
                drop_leading_replies(self.turns()) == drop_leading_replies(kept),
            decreases self.messages@.len(),
        {
            let ghost before = self.turns();
            self.messages.remove(0);
            assert(self.turns() == before.drop_first());
        }
    }

    /// Appends a question, then restores the capacity and leading-turn rules.
    pub fn add_user_message(&mut self, content: &str)
        ensures
            final(self).turns() == normalized(
                old(self).turns().push(turn(Role::User, content@)),
                old(self).capacity(),
            ),
            final(self).turns().len() <= final(self).capacity(),
            final(self).inv(),
            final(self).capacity() == old(self).capacity(),
            final(self).system_text() == old(self).system_text(),
    {
        self.push_turn(Role::User, content);
        proof {
            lemma_normalized_valid(
                old(self).turns().push(turn(Role::User, content@)),
                old(self).capacity(),
            );
        }
    }

    /// Appends a reply, then restores the capacity and leading-turn rules.
    pub fn add_assistant_message(&mut self, content: &str)
        ensures
            final(self).turns() == normalized(
                old(self).turns().push(turn(Role::Assistant, content@)),
                old(self).capacity(),
            ),
            final(self).turns().len() <= final(self).capacity(),
            final(self).inv(),
            final(self).capacity() == old(self).capacity(),
            final(self).system_text() == old(self).system_text(),
    {
        self.push_turn(Role::Assistant, content);
        proof {
            lemma_normalized_valid(
                old(self).turns().push(turn(Role::Assistant, content@)),
                old(self).capacity(),
            );
        }
    }

    /// The message list for the endpoint: the system prompt, then the turns, as fresh copies.
    pub fn build_api_messages(&self) -> (r: Vec<Message>)
        ensures
            views_of(r@) == seq![turn(Role::System, self.system_text())] + self.turns(),
            self.inv() && r@.len() > 1 ==> r@[1].role != Role::Assistant,
    {
        let mut r: Vec<Message> = Vec::new();
        r.push(Message { role: Role::System, content: self.system_prompt.clone() });
        let ghost head = seq![turn(Role::System, self.system_text())];
        let mut i: usize = 0;
        while i < self.messages.len()
            invariant
                i <= self.messages@.len(),
                views_of(r@) == head + views_of(self.messages@).subrange(0, i as int),
            decreases self.messages@.len() - i,
        {
            let m = self.messages[i].duplicate();
            let ghost prev = r@;
            r.push(m);
            assert(views_of(r@) =~= views_of(prev).push(self.messages@[i as int]@));
            i = i + 1;
            assert(views_of(r@) =~= head + views_of(self.messages@).subrange(0, i as int));
        }
        assert(views_of(self.messages@).subrange(0, i as int) == views_of(self.messages@));
        proof {
            if r@.len() > 1 {
                assert(views_of(r@)[1] == self.turns()[0]);
            }
        }
        r
    }

    /// Removes the newest turn when it is a question; otherwise leaves the history alone.
    pub fn pop_last_user_message(&mut self)
        ensures
            final(self).turns() == retracted(old(self).turns()),
            old(self).inv() ==> final(self).inv(),
            final(self).capacity() == old(self).capacity(),
            final(self).system_text() == old(self).system_text(),
    {
        let n = self.messages.len();
        if n > 0 && self.messages[n - 1].role == Role::User {
            let ghost before = self.turns();
            self.messages.pop();
            assert(self.turns() == before.drop_last());
        }
    }
}

} // verus!
