use vstd::prelude::*;

verus! {

/// The most bytes of text one notification may carry.
pub const MAX_MESSAGE_LEN: usize = 4096;

/// Bytes that `c` takes in UTF-8.
pub open spec fn utf8_width(c: char) -> nat {
    let v = c as u32;
    if v < 0x80 {
        1
    } else if v < 0x800 {
        2
    } else if v < 0x10000 {
        3
    } else {
        4
    }
}

/// Bytes that `s` takes in UTF-8.
pub open spec fn byte_len(s: Seq<char>) -> nat
    decreases s.len(),
{
    if s.len() == 0 {
        0
    } else {
        byte_len(s.drop_last()) + utf8_width(s.last())
    }
}

/// How many characters the longest prefix of `s` within `max` bytes holds.
pub open spec fn fit_len(s: Seq<char>, max: nat) -> nat
    decreases s.len(),
{
    if s.len() == 0 || byte_len(s) <= max {
        s.len()
    } else {
        fit_len(s.drop_last(), max)
    }
}

/// The index of the last newline in `s`, if any.
pub open spec fn last_newline(s: Seq<char>) -> Option<nat>
    decreases s.len(),
{
    if s.len() == 0 {
        None
    } else if s.last() == '\n' {
        Some((s.len() - 1) as nat)
    } else {
        last_newline(s.drop_last())
    }
}

/// Where a remainder over the limit is cut: at the last newline that fits, else at the limit.
pub open spec fn cut_point(r: Seq<char>, max: nat) -> nat {
    match last_newline(r.take(fit_len(r, max) as int)) {
        Some(i) => i,
        None => fit_len(r, max),
    }
}

/// Whether the text left after a cut opens with a newline, which is then dropped.
pub open spec fn opens_with_newline(t: Seq<char>) -> bool {
    t.len() > 0 && t[0] == '\n'
}

/// The segments of a remainder, each with whether a newline was dropped after it.
pub open spec fn pieces(r: Seq<char>, max: nat) -> Seq<(Seq<char>, bool)>
    decreases r.len(),
{
    if r.len() == 0 {
        seq![]
    } else if byte_len(r) <= max {
        seq![(r, false)]
    } else {
        let c = cut_point(r, max);
        let t = r.skip(c as int);
        let rest = if opens_with_newline(t) {
            t.drop_first()
        } else {
            t
        };
        if rest.len() < r.len() {
            seq![(r.take(c as int), opens_with_newline(t))] + pieces(rest, max)
        } else {
            seq![]
        }
    }
}

/// The segments that a message is sent in.
pub open spec fn split_spec(text: Seq<char>, max: nat) -> Seq<Seq<char>> {
    if byte_len(text) <= max {
        seq![text]
    } else {
        segments_of(pieces(text, max))
    }
}

/// The texts of a list of strings.
pub open spec fn texts_of(v: Seq<String>) -> Seq<Seq<char>> {
    v.map_values(|s: String| s@)
}

/// The segments of a list of pieces, without their flags.
pub open spec fn segments_of(ps: Seq<(Seq<char>, bool)>) -> Seq<Seq<char>> {
    ps.map_values(|p: (Seq<char>, bool)| p.0)
}

/// Every character fits in `max` bytes, so that each cut makes progress.
pub open spec fn splittable(text: Seq<char>, max: nat) -> bool {
    byte_len(text) <= max || forall|i: int| 0 <= i < text.len() ==> utf8_width(#[trigger] text[i]) <= max
}

/// The segments put back together, with a newline where one was dropped.
pub open spec fn rejoined(ps: Seq<(Seq<char>, bool)>) -> Seq<char>
    decreases ps.len(),
{
    if ps.len() == 0 {
        seq![]
    } else {
        ps[0].0 + (if ps[0].1 {
            seq!['\n']
        } else {
            seq![]
        }) + rejoined(ps.drop_first())
    }
}

fn char_width(c: char) -> (r: usize)
    ensures
        r == utf8_width(c),
        1 <= r <= 4,
{
    let v = c as u32;
    if v < 0x80 {
        1
    } else if v < 0x800 {
        2
    } else if v < 0x10000 {
        3
    } else {
        4
    }
}

proof fn lemma_byte_len_take_step(s: Seq<char>, k: int)
    requires
        0 <= k < s.len(),
    ensures
        byte_len(s.take(k + 1)) == byte_len(s.take(k)) + utf8_width(s[k]),
{
    assert(s.take(k + 1).drop_last() =~= s.take(k));
}

proof fn lemma_byte_len_monotone(s: Seq<char>, i: int, j: int)
    requires
        0 <= i <= j <= s.len(),
    ensures
        byte_len(s.take(i)) <= byte_len(s.take(j)),
    decreases j - i,
{
    if i < j {
        lemma_byte_len_take_step(s, j - 1);
        lemma_byte_len_monotone(s, i, j - 1);
    }
}

proof fn lemma_fit_len(s: Seq<char>, max: nat, k: int)
    requires
        0 <= k < s.len(),
        byte_len(s.take(k)) <= max,
        byte_len(s.take(k + 1)) > max,
    ensures
        fit_len(s, max) == k,
    decreases s.len(),
{
    lemma_byte_len_monotone(s, k + 1, s.len() as int);
    assert(s.take(s.len() as int) =~= s);
    assert(byte_len(s) > max);
    let d = s.drop_last();
    assert(fit_len(s, max) == fit_len(d, max));
    assert(d.take(k) =~= s.take(k));
    if d.len() == k {
        assert(d =~= s.take(k));
        assert(byte_len(d) <= max);
    } else {
        assert(d.take(k + 1) =~= s.take(k + 1));
        lemma_fit_len(d, max, k);
    }
}

proof fn lemma_last_newline_step(s: Seq<char>, j: int)
    requires
        0 < j <= s.len(),
    ensures
        s[j - 1] == '\n' ==> last_newline(s.take(j)) == Some((j - 1) as nat),
        s[j - 1] != '\n' ==> last_newline(s.take(j)) == last_newline(s.take(j - 1)),
{
    assert(s.take(j).drop_last() =~= s.take(j - 1));
}

/// Scans `text` from `start` for the longest run that fits in `max_len` bytes; the flag says
/// whether the run stopped before the end of the text.
fn scan_fit(text: &str, start: usize, max_len: usize) -> (r: (usize, bool))
    requires
        start <= text@.len(),
    ensures
        start + r.0 <= text@.len(),
        byte_len(text@.skip(start as int).take(r.0 as int)) <= max_len,
        r.1 ==> start + r.0 < text@.len() && byte_len(text@.skip(start as int).take(r.0 + 1))
            > max_len,
        !r.1 ==> start + r.0 == text@.len(),
{
    let n = text.unicode_len();
    let ghost rest = text@.skip(start as int);
    let mut k: usize = 0;
    let mut acc: usize = 0;
    let mut over = false;
    while start + k < n && !over
        invariant
            n == text@.len(),
            rest == text@.skip(start as int),
            start + k <= n,
            acc == byte_len(rest.take(k as int)),
            acc <= max_len,
            over ==> start + k < n && byte_len(rest.take(k as int + 1)) > max_len,
            !over && start + k >= n ==> start + k == n,
        decreases (n - start - k) as int + if over { 0int } else { 1int },
    {
        proof {
            lemma_byte_len_take_step(rest, k as int);
        }
        let c = text.get_char(start + k);
        assert(c == rest[k as int]);
        let w = char_width(c);
        if w > max_len - acc {
            over = true;
        } else {
            acc = acc + w;
            k = k + 1;
        }
    }
    (k, over)
}

/// Splits `text` into segments of at most `max_len` bytes, cutting at the last newline that
/// fits where there is one, and dropping one newline that opens the rest.
pub fn split_message(text: &str, max_len: usize) -> (r: Vec<String>)
    requires
        splittable(text@, max_len as nat),
    ensures
        texts_of(r@) == split_spec(text@, max_len as nat),
{
    let n = text.unicode_len();
    let ghost t = text@;
    let ghost max = max_len as nat;
    let mut chunks: Vec<String> = Vec::new();
    let (whole, over_all) = scan_fit(text, 0, max_len);
    assert(t.skip(0) =~= t);
    if !over_all {
        assert(t.take(n as int) =~= t);
        chunks.push(String::from_str(text));
        return chunks;
    }
    proof {
        lemma_byte_len_monotone(t, whole as int + 1, n as int);
        assert(t.take(n as int) =~= t);
    }
    let ghost ghost_pieces = pieces(t, max);
    let mut start: usize = 0;
    let ghost done: Seq<(Seq<char>, bool)> = seq![];
    while start < n
        invariant
            n == t.len(),
            t == text@,
            start <= n,
            max == max_len as nat,
            byte_len(t) > max,
            splittable(t, max),
            done + pieces(t.skip(start as int), max) == ghost_pieces,
            texts_of(chunks@) == segments_of(done),
        decreases n - start,
    {
        let ghost r = t.skip(start as int);
        let (k, over) = scan_fit(text, start, max_len);
        if !over {
            proof {
                assert(r.take(k as int) =~= r);
                assert(r.len() > 0);
                assert(pieces(r, max) == seq![(r, false)]);
            }
            let ghost prev = chunks@;
            let ghost old_done = done;
            chunks.push(String::from_str(text.substring_char(start, n)));
            proof {
                assert(texts_of(chunks@) =~= texts_of(prev).push(r));
                done = done + seq![(r, false)];
                assert(t.skip(n as int) =~= Seq::<char>::empty());
                assert(texts_of(chunks@) =~= segments_of(done));
            }
            start = n;
        } else {
            proof {
                lemma_fit_len(r, max, k as int);
                if k == 0 {
                    assert(utf8_width(t[start as int]) <= max);
                    assert(r.take(1).drop_last() =~= r.take(0));
                    assert(false);
                }
                lemma_byte_len_monotone(r, k as int + 1, r.len() as int);
                assert(r.take(r.len() as int) =~= r);
            }
            let mut j: usize = k;
            while j > 0 && text.get_char(start + j - 1) != '\n'
                invariant
                    j <= k,
                    start + k < n,
                    n == t.len(),
                    t == text@,
                    r == t.skip(start as int),
                    last_newline(r.take(j as int)) == last_newline(r.take(k as int)),
                decreases j,
            {
                proof {
                    lemma_last_newline_step(r, j as int);
                }
                j = j - 1;
            }
            let cut: usize = if j > 0 {
                proof {
                    lemma_last_newline_step(r, j as int);
                }
                j - 1
            } else {
                proof {
                    assert(r.take(0) =~= Seq::<char>::empty());
                }
                k
            };
            assert(cut == cut_point(r, max));
            let seg = String::from_str(text.substring_char(start, start + cut));
            let nl = start + cut < n && text.get_char(start + cut) == '\n';
            let ghost tail = r.skip(cut as int);
            assert(seg@ =~= r.take(cut as int));
            assert(nl == opens_with_newline(tail));
            let ghost prev = chunks@;
            chunks.push(seg);
            proof {
                assert(texts_of(chunks@) =~= texts_of(prev).push(r.take(cut as int)));
                done = done + seq![(r.take(cut as int), nl)];
                assert(texts_of(chunks@) =~= segments_of(done));
            }
            let next = if nl { start + cut + 1 } else { start + cut };
            proof {
                let rest = if nl { tail.drop_first() } else { tail };
                assert(rest =~= t.skip(next as int));
                assert(rest.len() < r.len());
                assert(pieces(r, max) == seq![(r.take(cut as int), nl)] + pieces(rest, max));
                assert(done + pieces(t.skip(next as int), max) =~= ghost_pieces);
            }
            start = next;
        }
    }
    proof {
        assert(t.skip(start as int) =~= Seq::<char>::empty());
        assert(done =~= ghost_pieces);
    }
    chunks
}

proof fn lemma_fit_len_props(s: Seq<char>, max: nat)
    ensures
        fit_len(s, max) <= s.len(),
        byte_len(s.take(fit_len(s, max) as int)) <= max || s.len() == 0,
        fit_len(s, max) < s.len() ==> byte_len(s.take(fit_len(s, max) as int + 1)) > max,
    decreases s.len(),
{
    assert(s.take(s.len() as int) =~= s);
    if s.len() == 0 || byte_len(s) <= max {
    } else {
        let d = s.drop_last();
        lemma_fit_len_props(d, max);
        let f = fit_len(d, max);
        assert(d.take(f as int) =~= s.take(f as int));
        if f < d.len() {
            assert(d.take(f as int + 1) =~= s.take(f as int + 1));
        } else {
            assert(d =~= s.take(f as int));
        }
        if d.len() == 0 {
            assert(s.take(0) =~= Seq::<char>::empty());
        }
    }
}

proof fn lemma_last_newline_props(s: Seq<char>)
    ensures
        last_newline(s) matches Some(i) ==> i < s.len() && s[i as int] == '\n',
    decreases s.len(),
{
    if s.len() > 0 && s.last() != '\n' {
        lemma_last_newline_props(s.drop_last());
    }
}

/// Every character of `s` fits in `max` bytes.
pub open spec fn chars_fit(s: Seq<char>, max: nat) -> bool {
    forall|i: int| 0 <= i < s.len() ==> utf8_width(#[trigger] s[i]) <= max
}

proof fn lemma_pieces(r: Seq<char>, max: nat)
    requires
        chars_fit(r, max),
    ensures
        rejoined(pieces(r, max)) == r,
        forall|i: int| 0 <= i < pieces(r, max).len() ==> byte_len(#[trigger] pieces(r, max)[i].0) <= max,
    decreases r.len(),
{
    if r.len() == 0 {
    } else if byte_len(r) <= max {
        let one = seq![(r, false)];
        assert(one.drop_first() =~= Seq::<(Seq<char>, bool)>::empty());
        assert(rejoined(one.drop_first()) == Seq::<char>::empty());
        assert(rejoined(one) =~= r);
    } else {
        lemma_fit_len_props(r, max);
        let f = fit_len(r, max);
        if f == 0 {
            assert(r.take(1).drop_last() =~= r.take(0));
            assert(utf8_width(r[0]) <= max);
        }
        let c = cut_point(r, max);
        lemma_last_newline_props(r.take(f as int));
        let t = r.skip(c as int);
        let nl = opens_with_newline(t);
        let rest = if nl { t.drop_first() } else { t };
        assert(rest.len() < r.len());
        assert(chars_fit(rest, max)) by {
            assert forall|i: int| 0 <= i < rest.len() implies utf8_width(#[trigger] rest[i]) <= max by {
                if nl {
                    assert(rest[i] == r[c + 1 + i]);
                } else {
                    assert(rest[i] == r[c + i]);
                }
            }
        }
        lemma_pieces(rest, max);
        let ps = pieces(r, max);
        assert(ps == seq![(r.take(c as int), nl)] + pieces(rest, max));
        assert(ps.drop_first() =~= pieces(rest, max));
        if nl {
            assert(r =~= r.take(c as int) + seq!['\n'] + rest);
        } else {
            assert(r =~= r.take(c as int) + rest);
        }
        assert(rejoined(ps) =~= r);
        lemma_byte_len_monotone(r, c as int, f as int);
        assert forall|i: int| 0 <= i < ps.len() implies byte_len(#[trigger] ps[i].0) <= max by {
            if i > 0 {
                assert(ps[i] == pieces(rest, max)[i - 1]);
            }
        }
    }
}

/// Put back together, with a newline wherever one was dropped, the segments give the message;
/// no segment is over the limit. A message that fits is its one segment.
pub proof fn lemma_split_round_trip(text: Seq<char>, max: nat)
    requires
        splittable(text, max),
    ensures
        byte_len(text) <= max ==> split_spec(text, max) == seq![text],
        byte_len(text) > max ==> split_spec(text, max) == segments_of(pieces(text, max))
            && rejoined(pieces(text, max)) == text,
        forall|i: int| 0 <= i < split_spec(text, max).len() ==> byte_len(#[trigger] split_spec(text, max)[i]) <= max,
{
    if byte_len(text) > max {
        lemma_pieces(text, max);
        let ps = pieces(text, max);
        assert forall|i: int| 0 <= i < split_spec(text, max).len() implies byte_len(#[trigger] split_spec(text, max)[i]) <= max by {
            assert(split_spec(text, max)[i] == ps[i].0);
        }
    }
}

/// What `c` becomes in HTML text.
pub open spec fn escape_char(c: char) -> Seq<char> {
    if c == '&' {
        "&amp;"@
    } else if c == '<' {
        "&lt;"@
    } else if c == '>' {
        "&gt;"@
    } else {
        seq![c]
    }
}

/// `s` with `&`, `<` and `>` escaped for HTML.
pub open spec fn escaped(s: Seq<char>) -> Seq<char>
    decreases s.len(),
{
    if s.len() == 0 {
        seq![]
    } else {
        escaped(s.drop_last()) + escape_char(s.last())
    }
}

/// Escapes `&`, `<` and `>` for HTML.
pub fn escape_html(s: &str) -> (r: String)
    ensures
        r@ == escaped(s@),
{
    let n = s.unicode_len();
    let mut out = String::new();
    let mut i: usize = 0;
    while i < n
        invariant
            n == s@.len(),
            i <= n,
            out@ == escaped(s@.take(i as int)),
        decreases n - i,
    {
        let c = s.get_char(i);
        assert(s@.take(i as int + 1).drop_last() =~= s@.take(i as int));
        if c == '&' {
            out.append("&amp;");
        } else if c == '<' {
            out.append("&lt;");
        } else if c == '>' {
            out.append("&gt;");
        } else {
            out.append(s.substring_char(i, i + 1));
            assert(s@.subrange(i as int, i as int + 1) =~= seq![c]);
        }
        i = i + 1;
    }
    assert(s@.take(n as int) =~= s@);
    out
}

/// The notification text for one question and its answer.
pub open spec fn qa_text_spec(question: Seq<char>, answer: Seq<char>) -> Seq<char> {
    "<b>Question:</b>\n"@ + escaped(question) + "\n\n<b>Answer:</b>\n"@ + escaped(answer)
}

/// Builds the notification text for one question and its answer.
pub fn qa_text(question: &str, answer: &str) -> (r: String)
    ensures
        r@ == qa_text_spec(question@, answer@),
{
    let mut text = String::from_str("<b>Question:</b>\n");
    let q = escape_html(question);
    text.append(q.as_str());
    text.append("\n\n<b>Answer:</b>\n");
    let a = escape_html(answer);
    text.append(a.as_str());
    text
}

proof fn lemma_any_char_fits(s: Seq<char>, max: nat)
    requires
        max >= 4,
    ensures
        splittable(s, max),
{
    assert forall|i: int| 0 <= i < s.len() implies utf8_width(#[trigger] s[i]) <= max by {}
}

/// The notification segments for one question and its answer.
pub fn qa_chunks(question: &str, answer: &str) -> (r: Vec<String>)
    ensures
        texts_of(r@) == split_spec(qa_text_spec(question@, answer@), MAX_MESSAGE_LEN as nat),
{
    let text = qa_text(question, answer);
    proof {
        lemma_any_char_fits(text@, MAX_MESSAGE_LEN as nat);
    }
    split_message(text.as_str(), MAX_MESSAGE_LEN)
}

} // verus!
