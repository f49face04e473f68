use vstd::prelude::*;
use crate::console::same_text;

verus! {

/// The payload of the event that ends a reply stream.
pub const DONE_MARKER: &'static str = "[DONE]";

/// The text at `choices[0].delta.content` of the JSON object in an event's payload, when the
/// payload parses and that value is a string.
pub uninterp spec fn delta_content_of(data: Seq<char>) -> Option<Seq<char>>;

/// The text of an optional string.
pub open spec fn opt_view(o: Option<String>) -> Option<Seq<char>> {
    match o {
        Some(s) => Some(s@),
        None => None,
    }
}

/// Relies on serde_json::from_str and on indexing a serde_json::Value by key and position
/// (a missing entry reads as null) followed by Value::as_str: reads the reply text that one
/// event carries. The result depends on the payload alone.
#[verifier::external_body]
fn delta_content(data: &str) -> (r: Option<String>)
    ensures
        opt_view(r) == delta_content_of(data@),
{
    match serde_json::from_str::<serde_json::Value>(data) {
        Ok(v) => v["choices"][0]["delta"]["content"].as_str().map(String::from),
        Err(_) => None,
    }
}

/// What one event means for the reply.
pub enum StreamStep {
    /// The stream is over.
    Stop,
    /// A piece of the reply, to be shown at once.
    Token(String),
    /// Nothing to show: a malformed event or one without text.
    Skip,
}

/// The token that an event's content yields: only non-empty text counts.
pub open spec fn token_of(delta: Option<Seq<char>>) -> Option<Seq<char>> {
    match delta {
        Some(t) => if t.len() > 0 {
            Some(t)
        } else {
            None
        },
        None => None,
    }
}

/// Gathers the text of a reply as its events arrive.
pub struct StreamAccumulator {
    full_text: String,
}

impl StreamAccumulator {
    /// The reply gathered so far.
    pub closed spec fn text(&self) -> Seq<char> {
        self.full_text@
    }

    /// An accumulator with nothing gathered yet.
    pub fn new() -> (r: StreamAccumulator)
        ensures
            r.text() == Seq::<char>::empty(),
    {
        StreamAccumulator { full_text: String::new() }
    }

    /// Takes the content read from one event: non-empty text is appended and handed back as a
    /// token, anything else is skipped.
    pub fn accept_delta(&mut self, delta: Option<String>) -> (r: StreamStep)
        ensures
            match token_of(opt_view(delta)) {
                Some(t) => r matches StreamStep::Token(s) && s@ == t && final(self).text() == old(
                    self,
                ).text() + t,
                None => r is Skip && final(self).text() == old(self).text(),
            },
    {
        match delta {
            Some(t) => {
                if t.as_str().unicode_len() > 0 {
                    self.full_text.append(t.as_str());
                    StreamStep::Token(t)
                } else {
                    StreamStep::Skip
                }
            },
            None => StreamStep::Skip,
        }
    }

    /// Takes the payload of one event: the end marker stops the stream; otherwise the event's
    /// content is read and accepted.
    pub fn feed(&mut self, data: &str) -> (r: StreamStep)
        ensures
            data@ == DONE_MARKER@ ==> r is Stop && final(self).text() == old(self).text(),
            data@ != DONE_MARKER@ ==> match token_of(delta_content_of(data@)) {
                Some(t) => r matches StreamStep::Token(s) && s@ == t && final(self).text() == old(
                    self,
                ).text() + t,
                None => r is Skip && final(self).text() == old(self).text(),
            },
    {
        if is_done_marker(data) {
            return StreamStep::Stop;
        }
        let delta = delta_content(data);
        self.accept_delta(delta)
    }

    /// The reply gathered so far.
    pub fn full_text(&self) -> (r: String)
        ensures
            r@ == self.text(),
    {
        self.full_text.clone()
    }
}

/// Whether an event's payload is the end marker.
pub fn is_done_marker(data: &str) -> (r: bool)
    ensures
        r == (data@ == DONE_MARKER@),
{
    same_text(data, DONE_MARKER)
}

} // verus!
