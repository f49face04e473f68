use vstd::prelude::*;

verus! {

/// The state of a wrapper: line width, current column, and the word not yet printed.
pub struct WrapModel {
    pub width: nat,
    pub col: nat,
    pub pending: Seq<char>,
}

/// `m` at another column and with another pending word.
pub open spec fn with_state(m: WrapModel, col: nat, pending: Seq<char>) -> WrapModel {
    WrapModel { width: m.width, col, pending }
}

/// Prints the pending word, first breaking the line when the word does not fit on it.
pub open spec fn flush_spec(m: WrapModel) -> (WrapModel, Seq<char>) {
    if m.pending.len() == 0 {
        (m, seq![])
    } else if m.col > 0 && m.col + m.pending.len() > m.width {
        (with_state(m, m.pending.len(), seq![]), seq!['\n'] + m.pending)
    } else {
        (with_state(m, m.col + m.pending.len(), seq![]), m.pending)
    }
}

/// One character: a newline ends the line, a space or tab separates words, anything else
/// joins the pending word.
pub open spec fn char_spec(m: WrapModel, c: char) -> (WrapModel, Seq<char>) {
    if c == '\n' {
        let f = flush_spec(m);
        (with_state(m, 0, seq![]), f.1.push('\n'))
    } else if c == ' ' || c == '\t' {
        let f = flush_spec(m);
        if f.0.col > 0 && f.0.col < m.width {
            (with_state(m, f.0.col + 1, seq![]), f.1.push(' '))
        } else {
            f
        }
    } else {
        (with_state(m, m.col, m.pending.push(c)), seq![])
    }
}

/// The characters of `s`, one after another.
pub open spec fn chars_spec(m: WrapModel, s: Seq<char>) -> (WrapModel, Seq<char>)
    decreases s.len(),
{
    if s.len() == 0 {
        (m, seq![])
    } else {
        let a = chars_spec(m, s.drop_last());
        let b = char_spec(a.0, s.last());
        (b.0, a.1 + b.1)
    }
}

/// One token: its characters, then the pending word printed if it alone fills a line.
pub open spec fn push_spec(m: WrapModel, token: Seq<char>) -> (WrapModel, Seq<char>) {
    let a = chars_spec(m, token);
    if a.0.pending.len() >= a.0.width {
        let f = flush_spec(a.0);
        (f.0, a.1 + f.1)
    } else {
        a
    }
}

/// Word-wraps streamed text to a line width, one token at a time, returning what to print.
pub struct WordWrapper {
    width: usize,
    col: usize,
    word_buf: String,
}

impl View for WordWrapper {
    type V = WrapModel;

    closed spec fn view(&self) -> WrapModel {
        WrapModel { width: self.width as nat, col: self.col as nat, pending: self.word_buf@ }
    }
}

impl WordWrapper {
    /// A wrapper for lines of `width` columns, with `initial_col` columns already printed.
    pub fn new(width: usize, initial_col: usize) -> (r: WordWrapper)
        ensures
            r@ == (WrapModel { width: width as nat, col: initial_col as nat, pending: seq![] }),
    {
        WordWrapper { width, col: initial_col, word_buf: String::new() }
    }

    fn flush_word(&mut self, out: &mut String)
        ensures
            final(self)@ == flush_spec(old(self)@).0,
            final(out)@ == old(out)@ + flush_spec(old(self)@).1,
    {
        let len = self.word_buf.as_str().unicode_len();
        if len == 0 {
            assert(old(out)@ + seq![] =~= old(out)@);
            return;
        }
        if self.col > 0 && (self.col > self.width || len > self.width - self.col) {
            proof {
                reveal_strlit("\n");
            }
            out.append("\n");
            out.append(self.word_buf.as_str());
            assert(out@ =~= old(out)@ + (seq!['\n'] + old(self)@.pending));
            self.col = len;
        } else {
            out.append(self.word_buf.as_str());
            self.col = self.col + len;
        }
        self.word_buf = String::new();
    }

    /// Takes one token of the reply and returns the text to print for it.
    pub fn push(&mut self, token: &str) -> (r: String)
        ensures
            (final(self)@, r@) == push_spec(old(self)@, token@),
    {
        let n = token.unicode_len();
        let mut out = String::new();
        let mut i: usize = 0;
        while i < n
            invariant
                n == token@.len(),
                i <= n,
                (self@, out@) == chars_spec(old(self)@, token@.take(i as int)),
            decreases n - i,
        {
            let c = token.get_char(i);
            let ghost before = (self@, out@);
            proof {
                reveal_strlit("\n");
                reveal_strlit(" ");
            }
            assert(token@.take(i as int + 1).drop_last() =~= token@.take(i as int));
            if c == '\n' {
                self.flush_word(&mut out);
                out.append("\n");
                self.col = 0;
            } else if c == ' ' || c == '\t' {
                self.flush_word(&mut out);
                if self.col > 0 && self.col < self.width {
                    out.append(" ");
                    self.col = self.col + 1;
                }
            } else {
                self.word_buf.append(token.substring_char(i, i + 1));
                assert(token@.subrange(i as int, i as int + 1) =~= seq![c]);
                assert(self@.pending =~= before.0.pending.push(c));
            }
            assert(out@ =~= before.1 + char_spec(before.0, c).1);
            assert(self@.pending =~= char_spec(before.0, c).0.pending);
            assert(self@ == char_spec(before.0, c).0);
            assert(token@.take(i as int + 1).last() == c);
            i = i + 1;
        }
        assert(token@.take(n as int) =~= token@);
        if self.word_buf.as_str().unicode_len() >= self.width {
            self.flush_word(&mut out);
        }
        out
    }

    /// Prints the word still pending at the end of a reply.
    pub fn finish(&mut self) -> (r: String)
        ensures
            (final(self)@, r@) == flush_spec(old(self)@),
    {
        let mut out = String::new();
        self.flush_word(&mut out);
        assert(out@ =~= flush_spec(old(self)@).1);
        out
    }
}

/// A character that only shapes the layout.
pub open spec fn is_blank(c: char) -> bool {
    c == ' ' || c == '\t' || c == '\n'
}

/// `s` without its spaces, tabs and newlines.
pub open spec fn strip_blanks(s: Seq<char>) -> Seq<char>
    decreases s.len(),
{
    if s.len() == 0 {
        s
    } else if is_blank(s.last()) {
        strip_blanks(s.drop_last())
    } else {
        strip_blanks(s.drop_last()).push(s.last())
    }
}

/// `s` holds no space, tab or newline.
pub open spec fn word_only(s: Seq<char>) -> bool {
    forall|i: int| 0 <= i < s.len() ==> !is_blank(#[trigger] s[i])
}

/// Whether each line of `s` fits in `width` columns or holds no space, starting at column
/// `col` on a line that holds a space when `spaced`.
pub open spec fn fits(s: Seq<char>, col: nat, spaced: bool, width: nat) -> bool
    decreases s.len(),
{
    if s.len() == 0 {
        true
    } else if s[0] == '\n' {
        fits(s.drop_first(), 0, false, width)
    } else {
        let sp = spaced || s[0] == ' ';
        (col + 1 <= width || !sp) && fits(s.drop_first(), col + 1, sp, width)
    }
}

/// The column after printing `s` from column `col`.
pub open spec fn end_col(s: Seq<char>, col: nat) -> nat
    decreases s.len(),
{
    if s.len() == 0 {
        col
    } else if s[0] == '\n' {
        end_col(s.drop_first(), 0)
    } else {
        end_col(s.drop_first(), col + 1)
    }
}

/// Whether the last line holds a space after printing `s`.
pub open spec fn end_spaced(s: Seq<char>, spaced: bool) -> bool
    decreases s.len(),
{
    if s.len() == 0 {
        spaced
    } else if s[0] == '\n' {
        end_spaced(s.drop_first(), false)
    } else {
        end_spaced(s.drop_first(), spaced || s[0] == ' ')
    }
}

/// A line that holds a space has not gone past the width.
pub open spec fn line_ok(col: nat, spaced: bool, width: nat) -> bool {
    spaced ==> 0 < col <= width
}

/// Tokens, one after another.
pub open spec fn joined(tokens: Seq<Seq<char>>) -> Seq<char>
    decreases tokens.len(),
{
    if tokens.len() == 0 {
        seq![]
    } else {
        joined(tokens.drop_last()) + tokens.last()
    }
}

/// The tokens pushed one after another.
pub open spec fn feed_all(m: WrapModel, tokens: Seq<Seq<char>>) -> (WrapModel, Seq<char>)
    decreases tokens.len(),
{
    if tokens.len() == 0 {
        (m, seq![])
    } else {
        let a = feed_all(m, tokens.drop_last());
        let b = push_spec(a.0, tokens.last());
        (b.0, a.1 + b.1)
    }
}

/// All that is printed for a reply: its tokens, then the finishing flush.
pub open spec fn rendered(m: WrapModel, tokens: Seq<Seq<char>>) -> Seq<char> {
    let a = feed_all(m, tokens);
    a.1 + flush_spec(a.0).1
}

proof fn lemma_strip_concat(a: Seq<char>, b: Seq<char>)
    ensures
        strip_blanks(a + b) == strip_blanks(a) + strip_blanks(b),
    decreases b.len(),
{
    if b.len() == 0 {
        assert(a + b =~= a);
        assert(strip_blanks(a) + strip_blanks(b) =~= strip_blanks(a));
    } else {
        assert((a + b).drop_last() =~= a + b.drop_last());
        lemma_strip_concat(a, b.drop_last());
        if !is_blank(b.last()) {
            assert(strip_blanks(a + b) =~= strip_blanks(a) + strip_blanks(b));
        }
    }
}

proof fn lemma_strip_word(w: Seq<char>)
    requires
        word_only(w),
    ensures
        strip_blanks(w) == w,
    decreases w.len(),
{
    if w.len() > 0 {
        lemma_strip_word(w.drop_last());
        assert(w.drop_last().push(w.last()) =~= w);
    }
}

proof fn lemma_strip_one(c: char)
    ensures
        strip_blanks(seq![c]) == (if is_blank(c) {
            seq![]
        } else {
            seq![c]
        }),
{
    let one = seq![c];
    assert(one.drop_last() =~= Seq::<char>::empty());
    assert(one.last() == c);
    assert(strip_blanks(one.drop_last()) =~= Seq::<char>::empty());
    assert(Seq::<char>::empty().push(c) =~= seq![c]);
}

proof fn lemma_fits_concat(a: Seq<char>, b: Seq<char>, col: nat, sp: bool, width: nat)
    ensures
        fits(a + b, col, sp, width) == (fits(a, col, sp, width) && fits(
            b,
            end_col(a, col),
            end_spaced(a, sp),
            width,
        )),
        end_col(a + b, col) == end_col(b, end_col(a, col)),
        end_spaced(a + b, sp) == end_spaced(b, end_spaced(a, sp)),
    decreases a.len(),
{
    if a.len() == 0 {
        assert(a + b =~= b);
    } else {
        assert((a + b).drop_first() =~= a.drop_first() + b);
        assert((a + b)[0] == a[0]);
        if a[0] == '\n' {
            lemma_fits_concat(a.drop_first(), b, 0, false, width);
        } else {
            lemma_fits_concat(a.drop_first(), b, col + 1, sp || a[0] == ' ', width);
        }
    }
}

proof fn lemma_word_fits(w: Seq<char>, col: nat, sp: bool, width: nat)
    requires
        word_only(w),
        !sp || col + w.len() <= width,
    ensures
        fits(w, col, sp, width),
        end_col(w, col) == col + w.len(),
        end_spaced(w, sp) == sp,
    decreases w.len(),
{
    if w.len() > 0 {
        assert(!is_blank(w[0]));
        assert(word_only(w.drop_first())) by {
            assert forall|i: int| 0 <= i < w.drop_first().len() implies !is_blank(
                #[trigger] w.drop_first()[i],
            ) by {
                assert(w.drop_first()[i] == w[i + 1]);
            }
        }
        lemma_word_fits(w.drop_first(), col + 1, sp, width);
    }
}

proof fn lemma_one_fits(c: char, col: nat, sp: bool, width: nat)
    ensures
        fits(seq![c], col, sp, width) == (c == '\n' || col + 1 <= width || !(sp || c == ' ')),
        end_col(seq![c], col) == (if c == '\n' { 0 } else { col + 1 }),
        end_spaced(seq![c], sp) == (if c == '\n' { false } else { sp || c == ' ' }),
{
    let one = seq![c];
    assert(one.drop_first() =~= Seq::<char>::empty());
    assert(one[0] == c);
    assert(fits(one.drop_first(), 0, false, width));
    assert(fits(one.drop_first(), col + 1, sp || c == ' ', width));
    assert(end_col(one.drop_first(), 0) == 0);
    assert(end_col(one.drop_first(), col + 1) == col + 1);
    assert(end_spaced(one.drop_first(), false) == false);
    assert(end_spaced(one.drop_first(), sp || c == ' ') == (sp || c == ' '));
}

proof fn lemma_flush(m: WrapModel, sp: bool)
    requires
        word_only(m.pending),
        line_ok(m.col, sp, m.width),
    ensures
        strip_blanks(flush_spec(m).1) == m.pending,
        flush_spec(m).0.pending.len() == 0,
        flush_spec(m).0.width == m.width,
        fits(flush_spec(m).1, m.col, sp, m.width),
        end_col(flush_spec(m).1, m.col) == flush_spec(m).0.col,
        line_ok(flush_spec(m).0.col, end_spaced(flush_spec(m).1, sp), m.width),
{
    let p = m.pending;
    if p.len() == 0 {
        assert(strip_blanks(seq![]) =~= p);
    } else if m.col > 0 && m.col + p.len() > m.width {
        lemma_strip_concat(seq!['\n'], p);
        lemma_strip_one('\n');
        lemma_strip_word(p);
        assert(seq![] + p =~= p);
        lemma_fits_concat(seq!['\n'], p, m.col, sp, m.width);
        lemma_one_fits('\n', m.col, sp, m.width);
        lemma_word_fits(p, 0, false, m.width);
    } else {
        lemma_strip_word(p);
        lemma_word_fits(p, m.col, sp, m.width);
    }
}

proof fn lemma_char(m: WrapModel, c: char, sp: bool)
    requires
        word_only(m.pending),
        line_ok(m.col, sp, m.width),
    ensures
        strip_blanks(char_spec(m, c).1) + char_spec(m, c).0.pending == m.pending + strip_blanks(
            seq![c],
        ),
        word_only(char_spec(m, c).0.pending),
        char_spec(m, c).0.width == m.width,
        fits(char_spec(m, c).1, m.col, sp, m.width),
        end_col(char_spec(m, c).1, m.col) == char_spec(m, c).0.col,
        line_ok(char_spec(m, c).0.col, end_spaced(char_spec(m, c).1, sp), m.width),
{
    lemma_strip_one(c);
    let f = flush_spec(m);
    if c == '\n' || c == ' ' || c == '\t' {
        lemma_flush(m, sp);
        let sp1 = end_spaced(f.1, sp);
        lemma_strip_one('\n');
        lemma_strip_one(' ');
        if c == '\n' {
            assert(f.1.push('\n') =~= f.1 + seq!['\n']);
            lemma_strip_concat(f.1, seq!['\n']);
            lemma_fits_concat(f.1, seq!['\n'], m.col, sp, m.width);
            lemma_one_fits('\n', f.0.col, sp1, m.width);
        } else if f.0.col > 0 && f.0.col < m.width {
            assert(f.1.push(' ') =~= f.1 + seq![' ']);
            lemma_strip_concat(f.1, seq![' ']);
            lemma_fits_concat(f.1, seq![' '], m.col, sp, m.width);
            lemma_one_fits(' ', f.0.col, sp1, m.width);
        }
        assert(strip_blanks(char_spec(m, c).1) + char_spec(m, c).0.pending =~= m.pending
            + strip_blanks(seq![c]));
    } else {
        assert(strip_blanks(Seq::<char>::empty()) =~= Seq::<char>::empty());
        assert(strip_blanks(char_spec(m, c).1) + char_spec(m, c).0.pending =~= m.pending
            + strip_blanks(seq![c]));
        assert(word_only(m.pending.push(c))) by {
            assert forall|i: int| 0 <= i < m.pending.push(c).len() implies !is_blank(
                #[trigger] m.pending.push(c)[i],
            ) by {
                if i < m.pending.len() {
                    assert(m.pending.push(c)[i] == m.pending[i]);
                }
            }
        }
    }
}

proof fn lemma_chars(m: WrapModel, s: Seq<char>, sp: bool)
    requires
        word_only(m.pending),
        line_ok(m.col, sp, m.width),
    ensures
        strip_blanks(chars_spec(m, s).1) + chars_spec(m, s).0.pending == m.pending
            + strip_blanks(s),
        word_only(chars_spec(m, s).0.pending),
        chars_spec(m, s).0.width == m.width,
        fits(chars_spec(m, s).1, m.col, sp, m.width),
        end_col(chars_spec(m, s).1, m.col) == chars_spec(m, s).0.col,
        line_ok(chars_spec(m, s).0.col, end_spaced(chars_spec(m, s).1, sp), m.width),
    decreases s.len(),
{
    if s.len() == 0 {
        assert(strip_blanks(Seq::<char>::empty()) =~= Seq::<char>::empty());
        assert(strip_blanks(chars_spec(m, s).1) + chars_spec(m, s).0.pending =~= m.pending
            + strip_blanks(s));
    } else {
        let a = chars_spec(m, s.drop_last());
        lemma_chars(m, s.drop_last(), sp);
        let sp1 = end_spaced(a.1, sp);
        lemma_char(a.0, s.last(), sp1);
        let b = char_spec(a.0, s.last());
        lemma_strip_concat(a.1, b.1);
        lemma_fits_concat(a.1, b.1, m.col, sp, m.width);
        assert(s.drop_last() + seq![s.last()] =~= s);
        lemma_strip_concat(s.drop_last(), seq![s.last()]);
        let x = strip_blanks(a.1);
        let y = strip_blanks(b.1);
        assert((x + y) + b.0.pending =~= x + (y + b.0.pending));
        assert(x + (a.0.pending + strip_blanks(seq![s.last()])) =~= (x + a.0.pending)
            + strip_blanks(seq![s.last()]));
        assert((m.pending + strip_blanks(s.drop_last())) + strip_blanks(seq![s.last()])
            =~= m.pending + strip_blanks(s));
        assert(strip_blanks(chars_spec(m, s).1) + chars_spec(m, s).0.pending =~= m.pending
            + strip_blanks(s));
    }
}

proof fn lemma_push(m: WrapModel, token: Seq<char>, sp: bool)
    requires
        word_only(m.pending),
        line_ok(m.col, sp, m.width),
    ensures
        strip_blanks(push_spec(m, token).1) + push_spec(m, token).0.pending == m.pending
            + strip_blanks(token),
        word_only(push_spec(m, token).0.pending),
        push_spec(m, token).0.width == m.width,
        fits(push_spec(m, token).1, m.col, sp, m.width),
        end_col(push_spec(m, token).1, m.col) == push_spec(m, token).0.col,
        line_ok(push_spec(m, token).0.col, end_spaced(push_spec(m, token).1, sp), m.width),
{
    lemma_chars(m, token, sp);
    let a = chars_spec(m, token);
    if a.0.pending.len() >= a.0.width {
        let sp1 = end_spaced(a.1, sp);
        lemma_flush(a.0, sp1);
        let f = flush_spec(a.0);
        lemma_strip_concat(a.1, f.1);
        lemma_fits_concat(a.1, f.1, m.col, sp, m.width);
        assert(strip_blanks(push_spec(m, token).1) + push_spec(m, token).0.pending =~= m.pending
            + strip_blanks(token));
    }
}

proof fn lemma_feed(m: WrapModel, tokens: Seq<Seq<char>>, sp: bool)
    requires
        word_only(m.pending),
        line_ok(m.col, sp, m.width),
    ensures
        strip_blanks(feed_all(m, tokens).1) + feed_all(m, tokens).0.pending == m.pending
            + strip_blanks(joined(tokens)),
        word_only(feed_all(m, tokens).0.pending),
        feed_all(m, tokens).0.width == m.width,
        fits(feed_all(m, tokens).1, m.col, sp, m.width),
        end_col(feed_all(m, tokens).1, m.col) == feed_all(m, tokens).0.col,
        line_ok(feed_all(m, tokens).0.col, end_spaced(feed_all(m, tokens).1, sp), m.width),
    decreases tokens.len(),
{
    if tokens.len() == 0 {
        assert(strip_blanks(Seq::<char>::empty()) =~= Seq::<char>::empty());
        assert(strip_blanks(feed_all(m, tokens).1) + feed_all(m, tokens).0.pending =~= m.pending
            + strip_blanks(joined(tokens)));
    } else {
        let a = feed_all(m, tokens.drop_last());
        lemma_feed(m, tokens.drop_last(), sp);
        let sp1 = end_spaced(a.1, sp);
        lemma_push(a.0, tokens.last(), sp1);
        let b = push_spec(a.0, tokens.last());
        lemma_strip_concat(a.1, b.1);
        lemma_fits_concat(a.1, b.1, m.col, sp, m.width);
        lemma_strip_concat(joined(tokens.drop_last()), tokens.last());
        let x = strip_blanks(a.1);
        let y = strip_blanks(b.1);
        assert((x + y) + b.0.pending =~= x + (y + b.0.pending));
        assert(x + (a.0.pending + strip_blanks(tokens.last())) =~= (x + a.0.pending)
            + strip_blanks(tokens.last()));
        assert((m.pending + strip_blanks(joined(tokens.drop_last()))) + strip_blanks(
            tokens.last(),
        ) =~= m.pending + strip_blanks(joined(tokens)));
        assert(strip_blanks(feed_all(m, tokens).1) + feed_all(m, tokens).0.pending =~= m.pending
            + strip_blanks(joined(tokens)));
    }
}

/// Wrapping changes the layout, never the content: whatever the tokens, the text printed for
/// a reply, without spaces, tabs and newlines, is the reply without them.
pub proof fn lemma_wrap_keeps_content(m: WrapModel, tokens: Seq<Seq<char>>)
    requires
        m.pending.len() == 0,
    ensures
        strip_blanks(rendered(m, tokens)) == strip_blanks(joined(tokens)),
{
    lemma_feed(m, tokens, false);
    let a = feed_all(m, tokens);
    lemma_flush(a.0, end_spaced(a.1, false));
    lemma_strip_concat(a.1, flush_spec(a.0).1);
    assert(m.pending + strip_blanks(joined(tokens)) =~= strip_blanks(joined(tokens)));
    assert(strip_blanks(a.1) + a.0.pending =~= strip_blanks(a.1) + strip_blanks(flush_spec(a.0).1));
}

/// No printed line goes past the width unless it holds no space, that is, a single word that
/// is wider than the line on its own.
pub proof fn lemma_wrap_lines_fit(m: WrapModel, tokens: Seq<Seq<char>>)
    requires
        m.pending.len() == 0,
    ensures
        fits(rendered(m, tokens), m.col, false, m.width),
{
    lemma_feed(m, tokens, false);
    let a = feed_all(m, tokens);
    lemma_flush(a.0, end_spaced(a.1, false));
    lemma_fits_concat(a.1, flush_spec(a.0).1, m.col, false, m.width);
}

} // verus!
