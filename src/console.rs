use vstd::prelude::*;

verus! {

/// The lower-case form of a text, as Rust's Unicode case mapping gives it.
pub uninterp spec fn lower_of(s: Seq<char>) -> Seq<char>;

/// Relies on str::to_lowercase: the result depends on the characters alone.
#[verifier::external_body]
fn lowercase(s: &str) -> (r: String)
    ensures
        r@ == lower_of(s@),
{
    s.to_lowercase()
}

/// Whether two texts hold the same characters.
pub fn same_text(a: &str, b: &str) -> (r: bool)
    ensures
        r == (a@ == b@),
{
    let n = a.unicode_len();
    if n != b.unicode_len() {
        return false;
    }
    let mut i: usize = 0;
    while i < n
        invariant
            n == a@.len(),
            n == b@.len(),
            i <= n,
            forall|j: int| 0 <= j < i ==> a@[j] == b@[j],
        decreases n - i,
    {
        if a.get_char(i) != b.get_char(i) {
            return false;
        }
        i = i + 1;
    }
    assert(a@ =~= b@);
    true
}

/// The words that end a session.
pub open spec fn is_exit_word(s: Seq<char>) -> bool {
    s == "quit"@ || s == "exit"@ || s == "bye"@
}

/// Whether an already lower-cased line is a word that ends the session.
pub fn exit_word(lowered: &str) -> (r: bool)
    ensures
        r == is_exit_word(lowered@),
{
    same_text(lowered, "quit") || same_text(lowered, "exit") || same_text(lowered, "bye")
}

/// Whether a line ends the session: `quit`, `exit` or `bye`, in any case.
pub fn is_exit_command(line: &str) -> (r: bool)
    ensures
        r == is_exit_word(lower_of(line@)),
{
    let lowered = lowercase(line);
    exit_word(lowered.as_str())
}

} // verus!
