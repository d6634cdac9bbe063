use crate::token::{Token, TokenType, TokenView};
use vstd::prelude::*;
use vstd::string::StringSliceAdditionalSpecFns;
use vstd::utf8::*;

verus! {

broadcast use encode_utf8_valid_utf8, encode_utf8_decode_utf8;

/// Space, tab, carriage return or line feed.
pub open spec fn is_space(c: u8) -> bool {
    c == 0x20 || c == 0x09 || c == 0x0d || c == 0x0a
}

/// `{` or `}`.
pub open spec fn is_brace(c: u8) -> bool {
    c == 0x7b || c == 0x7d
}

/// The first offset at or after `i` that holds no space.
pub open spec fn skip_spaces(b: Seq<u8>, i: int) -> int
    decreases b.len() - i,
{
    if 0 <= i < b.len() && is_space(b[i]) {
        skip_spaces(b, i + 1)
    } else {
        i
    }
}

/// The end of the word that starts at `i`: the first offset that holds a
/// space or a `}`, or the end of the text. A `{` does not end a word.
pub open spec fn word_end(b: Seq<u8>, i: int) -> int
    decreases b.len() - i,
{
    if 0 <= i < b.len() && !is_space(b[i]) && b[i] != 0x7d {
        word_end(b, i + 1)
    } else {
        i
    }
}

/// The offset of the first line feed at or after `i`, or the end of the text.
pub open spec fn line_end(b: Seq<u8>, i: int) -> int
    decreases b.len() - i,
{
    if 0 <= i < b.len() && b[i] != 0x0a {
        line_end(b, i + 1)
    } else {
        i
    }
}

/// Where scanning starts: past a first line that begins with `# `.
pub open spec fn first_cursor(b: Seq<u8>) -> int {
    if b.len() >= 2 && b[0] == 0x23 && b[1] == 0x20 {
        line_end(b, 0)
    } else {
        0
    }
}

/// The token found from cursor `c` on, and the cursor after it.
pub open spec fn lex_step(b: Seq<u8>, c: int) -> (TokenView, int) {
    let p = skip_spaces(b, c);
    if p >= b.len() {
        (TokenView { typ: TokenType::Eof, word: seq![], start: b.len() as int, end: b.len() as int }, b.len() as int)
    } else if b[p] == 0x7b {
        (TokenView { typ: TokenType::OpenBrace, word: seq![], start: p, end: p + 1 }, p + 1)
    } else if b[p] == 0x7d {
        (TokenView { typ: TokenType::CloseBrace, word: seq![], start: p, end: p + 1 }, p + 1)
    } else {
        let e = word_end(b, p);
        (TokenView { typ: TokenType::Word, word: decode_utf8(b.subrange(p, e)), start: p, end: e }, e)
    }
}

/// All tokens from cursor `c` on, up to and including the end-of-input token.
pub open spec fn lex_from(b: Seq<u8>, c: int) -> Seq<TokenView>
    decreases b.len() - c,
{
    let (t, n) = lex_step(b, c);
    if t.typ != TokenType::Eof && c < n <= b.len() {
        seq![t] + lex_from(b, n)
    } else {
        seq![t]
    }
}

/// The tokens of a text.
pub open spec fn tokenize(b: Seq<u8>) -> Seq<TokenView> {
    lex_from(b, first_cursor(b))
}

/// After an ASCII byte that starts a character, the next character starts.
proof fn lemma_boundary_after_ascii(b: Seq<u8>, i: int)
    requires
        valid_utf8(b),
        0 <= i < b.len(),
        b[i] < 0x80,
    ensures
        is_char_boundary(b, i + 1),
    decreases b.len(),
{
    let k = length_of_first_scalar(b);
    let p = pop_first_scalar(b);
    assert(valid_first_scalar(b) && valid_utf8(p));
    assert(1 <= k <= b.len());
    if i == 0 {
        assert(k == 1);
        assert(is_char_boundary(p, 0));
        assert(is_char_boundary(b, 1));
    } else if i < k {
        assert(is_continuation_byte(b[i]));
    } else {
        assert(p[i - k] == b[i]);
        lemma_boundary_after_ascii(p, i - k);
        assert(is_char_boundary(b, i + 1) == is_char_boundary(p, i + 1 - k));
    }
}

/// An ASCII byte starts a character.
proof fn lemma_boundary_at_ascii(b: Seq<u8>, i: int)
    requires
        valid_utf8(b),
        0 <= i <= b.len(),
        i < b.len() ==> b[i] < 0x80,
    ensures
        is_char_boundary(b, i),
{
    if i == b.len() {
        is_char_boundary_start_end_of_seq(b);
    } else {
        is_char_boundary_iff_is_leading_byte(b, i);
    }
}

proof fn lemma_skip_spaces(b: Seq<u8>, i: int)
    requires
        0 <= i <= b.len(),
    ensures
        i <= skip_spaces(b, i) <= b.len(),
        skip_spaces(b, i) < b.len() ==> !is_space(b[skip_spaces(b, i)]),
        forall|p: int| i <= p < skip_spaces(b, i) ==> is_space(#[trigger] b[p]),
    decreases b.len() - i,
{
    if i < b.len() && is_space(b[i]) {
        lemma_skip_spaces(b, i + 1);
    }
}

proof fn lemma_word_end(b: Seq<u8>, i: int)
    requires
        0 <= i <= b.len(),
    ensures
        i <= word_end(b, i) <= b.len(),
        word_end(b, i) < b.len() ==> is_space(b[word_end(b, i)]) || b[word_end(b, i)] == 0x7d,
        forall|p: int| i <= p < word_end(b, i) ==> #[trigger] b[p] != 0x7d,
    decreases b.len() - i,
{
    if i < b.len() && !is_space(b[i]) && b[i] != 0x7d {
        lemma_word_end(b, i + 1);
    }
}

/// What holds of one step of the scanner: it moves forward, and the token
/// and the new cursor lie on character boundaries.
pub proof fn lemma_lex_step(b: Seq<u8>, c: int)
    requires
        valid_utf8(b),
        0 <= c <= b.len(),
        is_char_boundary(b, c),
    ensures
        ({
            let (t, n) = lex_step(b, c);
            &&& c <= t.start <= t.end <= b.len()
            &&& n == t.end
            &&& is_char_boundary(b, t.start)
            &&& is_char_boundary(b, t.end)
            &&& (t.typ == TokenType::Eof <==> t.start == b.len())
            &&& (t.typ == TokenType::Eof ==> t.end == b.len())
            &&& (t.typ != TokenType::Eof ==> c < n)
            &&& (t.typ == TokenType::Word ==> t.start < t.end)
            &&& t.typ != TokenType::Unknown
        }),
{
    lemma_skip_spaces(b, c);
    let p = skip_spaces(b, c);
    lemma_skip_spaces_boundary(b, c);
    if p < b.len() && !is_brace(b[p]) {
        lemma_word_end(b, p);
        lemma_boundary_at_ascii(b, word_end(b, p));
    } else if p < b.len() {
        lemma_boundary_after_ascii(b, p);
    } else {
        is_char_boundary_start_end_of_seq(b);
    }
}

proof fn lemma_skip_spaces_boundary(b: Seq<u8>, i: int)
    requires
        valid_utf8(b),
        0 <= i <= b.len(),
        is_char_boundary(b, i),
    ensures
        is_char_boundary(b, skip_spaces(b, i)),
    decreases b.len() - i,
{
    if i < b.len() && is_space(b[i]) {
        lemma_boundary_after_ascii(b, i);
        lemma_skip_spaces_boundary(b, i + 1);
    }
}

/// What holds of the tokens of a text `b`: the last one, and only it, ends
/// the input; each lies within the text, on character boundaries; each ends
/// before the next one starts.
pub open spec fn tokens_wf(t: Seq<TokenView>, b: Seq<u8>) -> bool {
    &&& t.len() >= 1
    &&& t.last().typ == TokenType::Eof
    &&& forall|k: int| 0 <= k < t.len() - 1 ==> (#[trigger] t[k]).typ != TokenType::Eof
    &&& forall|k: int|
        #![trigger t[k]]
        0 <= k < t.len() ==> {
            &&& 0 <= t[k].start <= t[k].end <= b.len()
            &&& is_char_boundary(b, t[k].start)
            &&& is_char_boundary(b, t[k].end)
            &&& t[k].typ != TokenType::Unknown
        }
    &&& forall|k: int, l: int| 0 <= k < l < t.len() ==> (#[trigger] t[k]).end <= (#[trigger] t[l]).start
}

/// The tokens from a cursor on a character boundary are well formed, and
/// none starts before the cursor.
pub proof fn lemma_lex_from(b: Seq<u8>, c: int)
    requires
        valid_utf8(b),
        0 <= c <= b.len(),
        is_char_boundary(b, c),
    ensures
        tokens_wf(lex_from(b, c), b),
        forall|k: int| 0 <= k < lex_from(b, c).len() ==> c <= (#[trigger] lex_from(b, c)[k]).start,
    decreases b.len() - c,
{
    lemma_lex_step(b, c);
    let (t, n) = lex_step(b, c);
    let all = lex_from(b, c);
    if t.typ != TokenType::Eof {
        lemma_lex_from(b, n);
        let rest = lex_from(b, n);
        assert(all == seq![t] + rest);
        assert forall|k: int| 0 <= k < all.len() - 1 implies (#[trigger] all[k]).typ != TokenType::Eof by {
            if k > 0 {
                assert(all[k] == rest[k - 1]);
            }
        }
        assert forall|k: int, l: int| 0 <= k < l < all.len() implies (#[trigger] all[k]).end <= (#[trigger] all[l]).start by {
            assert(all[l] == rest[l - 1]);
            if k > 0 {
                assert(all[k] == rest[k - 1]);
            }
        }
        assert forall|k: int| 0 <= k < all.len() implies c <= (#[trigger] all[k]).start by {
            if k > 0 {
                assert(all[k] == rest[k - 1]);
            }
        }
    }
}

/// How the tokens of a text cover it: each lies within the text and ends
/// before the next starts; a brace token is one brace; a word holds no `}`;
/// only spaces stand between one token and the next.
pub open spec fn tokens_cover(t: Seq<TokenView>, b: Seq<u8>) -> bool {
    &&& forall|k: int|
        #![trigger t[k]]
        0 <= k < t.len() ==> {
            &&& 0 <= t[k].start <= t[k].end <= b.len()
            &&& (t[k].typ == TokenType::OpenBrace ==> t[k].end == t[k].start + 1 && b[t[k].start] == 0x7b)
            &&& (t[k].typ == TokenType::CloseBrace ==> t[k].end == t[k].start + 1 && b[t[k].start]
                == 0x7d)
            &&& (t[k].typ == TokenType::Word ==> forall|p: int|
                t[k].start <= p < t[k].end ==> #[trigger] b[p] != 0x7d)
            &&& (t[k].typ == TokenType::Eof ==> t[k].start == t[k].end)
            &&& t[k].typ != TokenType::Unknown
            &&& (k < t.len() - 1 ==> t[k].typ != TokenType::Eof)
        }
    &&& forall|k: int, l: int|
        #![trigger t[k], t[l]]
        0 <= k && l == k + 1 && l < t.len() ==> t[k].end <= t[l].start && forall|p: int|
            t[k].end <= p < t[l].start ==> is_space(#[trigger] b[p])
}

/// The tokens from cursor `c` cover the text from `c` on: only spaces stand
/// before the first one.
pub proof fn lemma_lex_cover(b: Seq<u8>, c: int)
    requires
        0 <= c <= b.len(),
    ensures
        tokens_cover(lex_from(b, c), b),
        c <= lex_from(b, c)[0].start,
        forall|p: int| c <= p < lex_from(b, c)[0].start ==> is_space(#[trigger] b[p]),
        lex_from(b, c).len() >= 1,
    decreases b.len() - c,
{
    lemma_skip_spaces(b, c);
    let p = skip_spaces(b, c);
    let (t, n) = lex_step(b, c);
    if p < b.len() && !is_brace(b[p]) {
        lemma_word_end(b, p);
    }
    let all = lex_from(b, c);
    if t.typ != TokenType::Eof && c < n <= b.len() {
        lemma_lex_cover(b, n);
        let rest = lex_from(b, n);
        assert(all == seq![t] + rest);
        assert forall|k: int, l: int| 0 <= k && l == k + 1 && l < all.len() implies (#[trigger] all[k]).end
            <= (#[trigger] all[l]).start && forall|q: int| all[k].end <= q < all[l].start ==> is_space(
            #[trigger] b[q],
        ) by {
            assert(all[l] == rest[k]);
            if k > 0 {
                assert(all[k] == rest[k - 1]);
            } else {
                assert(all[0] == t);
                assert(t.end == n);
            }
        }
        assert forall|k: int| 0 <= k < all.len() implies {
            &&& 0 <= (#[trigger] all[k]).start <= all[k].end <= b.len()
            &&& (all[k].typ == TokenType::OpenBrace ==> all[k].end == all[k].start + 1 && b[all[k].start]
                == 0x7b)
            &&& (all[k].typ == TokenType::CloseBrace ==> all[k].end == all[k].start + 1
                && b[all[k].start] == 0x7d)
            &&& (all[k].typ == TokenType::Word ==> forall|q: int|
                all[k].start <= q < all[k].end ==> #[trigger] b[q] != 0x7d)
            &&& (all[k].typ == TokenType::Eof ==> all[k].start == all[k].end)
            &&& all[k].typ != TokenType::Unknown
            &&& (k < all.len() - 1 ==> all[k].typ != TokenType::Eof)
        } by {
            if k > 0 {
                assert(all[k] == rest[k - 1]);
            }
        }
    }
}

/// Scanning starts within the text.
pub proof fn lemma_first_cursor(b: Seq<u8>)
    ensures
        0 <= first_cursor(b) <= b.len(),
{
    if b.len() >= 2 && b[0] == 0x23 && b[1] == 0x20 {
        lemma_line_end(b, 0);
    }
}

proof fn lemma_line_end(b: Seq<u8>, i: int)
    requires
        0 <= i <= b.len(),
    ensures
        i <= line_end(b, i) <= b.len(),
    decreases b.len() - i,
{
    if i < b.len() && b[i] != 0x0a {
        lemma_line_end(b, i + 1);
    }
}

/// Whether two texts are equal.
pub fn same_text(a: &str, b: &str) -> (r: bool)
    ensures
        r == (a@ == b@),
{
    let x = a.as_bytes();
    let y = b.as_bytes();
    if x.len() != y.len() {
        return false;
    }
    let mut i: usize = 0;
    while i < x.len()
        invariant
            x@ == a.spec_bytes(),
            y@ == b.spec_bytes(),
            x@.len() == y@.len(),
            i <= x@.len(),
            forall|k: int| 0 <= k < i ==> x@[k] == y@[k],
        decreases x@.len() - i,
    {
        if x[i] != y[i] {
            return false;
        }
        i += 1;
    }
    assert(a.spec_bytes() =~= b.spec_bytes());
    assert(decode_utf8(encode_utf8(a@)) == a@);
    true
}

/// The text of `s` between byte offsets `from` and `to`, both on character
/// boundaries.
pub fn text_between(s: &str, from: usize, to: usize) -> (r: String)
    requires
        from <= to <= s.spec_bytes().len(),
        is_char_boundary(s.spec_bytes(), from as int),
        is_char_boundary(s.spec_bytes(), to as int),
    ensures
        r@ == decode_utf8(s.spec_bytes().subrange(from as int, to as int)),
{
    let ghost bs = s.spec_bytes();
    proof {
        valid_utf8_split(bs, to as int);
        let left = bs.subrange(0, to as int);
        if from == to {
            is_char_boundary_start_end_of_seq(left);
        } else {
            is_char_boundary_iff_is_leading_byte(bs, from as int);
            is_char_boundary_iff_is_leading_byte(left, from as int);
        }
    }
    let (left, _) = s.split_at(to);
    let (_, mid) = left.split_at(from);
    assert(mid.spec_bytes() =~= bs.subrange(from as int, to as int));
    mid.to_owned()
}

/// The scanner over a text. `s` is the text; the cursor moves forward only.
pub struct Lexer<'a> {
    pub s: &'a str,
    size: usize,
    cursor: usize,
}

impl<'a> Lexer<'a> {
    /// The text being scanned.
    pub closed spec fn text(&self) -> &'a str {
        self.s
    }

    /// The offset of the cursor.
    pub closed spec fn pos(&self) -> int {
        self.cursor as int
    }

    /// The cursor lies within the text, on a character boundary.
    pub closed spec fn wf(&self) -> bool {
        &&& self.size == self.s.spec_bytes().len()
        &&& self.cursor <= self.size
        &&& is_char_boundary(self.s.spec_bytes(), self.cursor as int)
    }

    /// The text being scanned.
    pub fn source(&self) -> (r: &'a str)
        ensures
            r == self.text(),
    {
        self.s
    }

    /// The facts that well-formedness gives.
    pub proof fn lemma_wf(&self)
        requires
            self.wf(),
        ensures
            valid_utf8(self.text().spec_bytes()),
            0 <= self.pos() <= self.text().spec_bytes().len(),
            is_char_boundary(self.text().spec_bytes(), self.pos()),
    {
    }

    /// A scanner at the start of `source`, past a first line that begins
    /// with `# `.
    pub fn new(source: &'a str) -> (r: Lexer<'a>)
        ensures
            r.text() == source,
            r.wf(),
            r.pos() == first_cursor(source.spec_bytes()),
    {
        let b = source.as_bytes();
        let size = b.len();
        let mut cursor: usize = 0;
        let ghost bs = source.spec_bytes();
        proof {
            is_char_boundary_start_end_of_seq(bs);
        }
        if size >= 2 && b[0] == 0x23 && b[1] == 0x20 {
            while cursor < size && b[cursor] != 0x0a
                invariant
                    b@ == bs,
                    size == bs.len(),
                    cursor <= size,
                    line_end(bs, cursor as int) == line_end(bs, 0),
                decreases size - cursor,
            {
                cursor += 1;
            }
            proof {
                lemma_boundary_at_ascii(bs, cursor as int);
            }
        }
        Lexer { s: source, size, cursor }
    }

    /// The next token. At the end of the text every call returns the
    /// end-of-input token, whose offsets are both the length of the text.
    #[allow(clippy::should_implement_trait)]
    pub fn next(&mut self) -> (t: Token<'a>)
        requires
            old(self).wf(),
        ensures
            final(self).wf(),
            final(self).text() == old(self).text(),
            (t@, final(self).pos()) == lex_step(old(self).text().spec_bytes(), old(self).pos()),
    {
        let s: &'a str = self.s;
        let b = s.as_bytes();
        let ghost bs = s.spec_bytes();
        let ghost c0 = self.cursor as int;
        proof {
            reveal_strlit("");
            lemma_lex_step(bs, c0);
        }
        while self.cursor < self.size && (b[self.cursor] == 0x20 || b[self.cursor] == 0x0a
            || b[self.cursor] == 0x0d || b[self.cursor] == 0x09)
            invariant
                b@ == bs,
                self.s == s,
                self.size == bs.len(),
                c0 <= self.cursor <= self.size,
                skip_spaces(bs, self.cursor as int) == skip_spaces(bs, c0),
                is_char_boundary(bs, self.cursor as int),
                valid_utf8(bs),
            decreases self.size - self.cursor,
        {
            proof {
                lemma_boundary_after_ascii(bs, self.cursor as int);
            }
            self.cursor += 1;
        }
        assert(skip_spaces(bs, self.cursor as int) == self.cursor);
        assert(""@ =~= Seq::<char>::empty());
        if self.cursor == self.size {
            return Token { typ: TokenType::Eof, word: "", start: self.size, end: self.size };
        }
        let p = self.cursor;
        if b[p] == 0x7b {
            self.cursor = p + 1;
            proof {
                lemma_boundary_after_ascii(bs, p as int);
            }
            Token { typ: TokenType::OpenBrace, word: "", start: p, end: p + 1 }
        } else if b[p] == 0x7d {
            self.cursor = p + 1;
            proof {
                lemma_boundary_after_ascii(bs, p as int);
            }
            Token { typ: TokenType::CloseBrace, word: "", start: p, end: p + 1 }
        } else {
            while self.cursor < self.size && b[self.cursor] != 0x20 && b[self.cursor] != 0x0a
                && b[self.cursor] != 0x0d && b[self.cursor] != 0x09
                && b[self.cursor] != 0x7d
                invariant
                    b@ == bs,
                    self.s == s,
                    self.size == bs.len(),
                    p <= self.cursor <= self.size,
                    word_end(bs, self.cursor as int) == word_end(bs, p as int),
                decreases self.size - self.cursor,
            {
                self.cursor += 1;
            }
            let e = self.cursor;
            proof {
                lemma_boundary_at_ascii(bs, e as int);
                valid_utf8_split(bs, e as int);
                is_char_boundary_iff_is_leading_byte(bs, p as int);
                is_char_boundary_iff_is_leading_byte(bs.subrange(0, e as int), p as int);
            }
            let (left, _) = s.split_at(e);
            let (_, w) = left.split_at(p);
            proof {
                assert(w.spec_bytes() =~= bs.subrange(p as int, e as int));
            }
            Token { typ: TokenType::Word, word: w, start: p, end: e }
        }
    }
}

} // verus!
