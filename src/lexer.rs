use vstd::prelude::*;

verus! {

/// The Unicode `Alphabetic` property, as `char::is_alphabetic` decides it.
pub uninterp spec fn alphabetic(c: char) -> bool;

/// The Unicode numeric categories (`Nd`, `Nl`, `No`), as `char::is_numeric` decides them.
pub uninterp spec fn numeric(c: char) -> bool;

/// The Unicode `White_Space` property, as `char::is_whitespace` decides it.
pub uninterp spec fn whitespace(c: char) -> bool;

/// A letter or a digit: what continues a word.
pub open spec fn alphanumeric(c: char) -> bool {
    alphabetic(c) || numeric(c)
}

/// ASCII case folding: `A`..=`Z` become `a`..=`z`, every other character stays.
pub open spec fn ascii_lower(c: char) -> char {
    if 'A' <= c && c <= 'Z' {
        ((c as u32) + 32) as char
    } else {
        c
    }
}

pub open spec fn ascii_letter(c: char) -> bool {
    ('a' <= c && c <= 'z') || ('A' <= c && c <= 'Z')
}

pub open spec fn ascii_digit(c: char) -> bool {
    '0' <= c && c <= '9'
}

/// Space, and tab through carriage return (`\t`, `\n`, vertical tab, form
/// feed, `\r`).
pub open spec fn ascii_space(c: char) -> bool {
    c == ' ' || ('\t' <= c && c <= '\r')
}

/// Relies on `char::is_alphabetic`; among ASCII characters the `Alphabetic`
/// property holds of the letters only.
#[verifier::external_body]
pub(crate) fn is_alphabetic(c: char) -> (r: bool)
    ensures
        r == alphabetic(c),
        (c as u32) < 128 ==> (r <==> ascii_letter(c)),
{
    c.is_alphabetic()
}

/// Relies on `char::is_numeric`; among ASCII characters only the digits are
/// numeric.
#[verifier::external_body]
fn is_numeric(c: char) -> (r: bool)
    ensures
        r == numeric(c),
        (c as u32) < 128 ==> (r <==> ascii_digit(c)),
{
    c.is_numeric()
}

/// Relies on `char::is_whitespace`; among ASCII characters `White_Space`
/// holds of space and of tab through carriage return.
#[verifier::external_body]
fn is_whitespace(c: char) -> (r: bool)
    ensures
        r == whitespace(c),
        (c as u32) < 128 ==> (r <==> ascii_space(c)),
{
    c.is_whitespace()
}

/// ASCII case folding of one character.
pub fn to_ascii_lowercase(c: char) -> (r: char)
    ensures
        r == ascii_lower(c),
{
    if 'A' <= c && c <= 'Z' {
        let b: u8 = c as u8;
        let l: u8 = b + 32;
        l as char
    } else {
        c
    }
}

/// Relies on `String::push`, which appends one character.
#[verifier::external_body]
pub(crate) fn push_char(s: &mut String, c: char)
    ensures
        final(s)@ == old(s)@.push(c),
{
    s.push(c)
}

/// The classes of `c` that the tokenizer tells apart: (alphabetic, numeric,
/// whitespace). Among ASCII characters they are the letters, the digits, and
/// space with tab through carriage return.
pub fn char_class(c: char) -> (r: (bool, bool, bool))
    ensures
        r.0 == alphabetic(c),
        r.1 == numeric(c),
        r.2 == whitespace(c),
        (c as u32) < 128 ==> (r.0 <==> ascii_letter(c)),
        (c as u32) < 128 ==> (r.1 <==> ascii_digit(c)),
        (c as u32) < 128 ==> (r.2 <==> ascii_space(c)),
{
    (is_alphabetic(c), is_numeric(c), is_whitespace(c))
}

/// A letter or a digit: `char::is_alphanumeric` is documented as
/// `is_alphabetic() || is_numeric()`.
fn is_word_char(c: char) -> (r: bool)
    ensures
        r == alphanumeric(c),
{
    is_alphabetic(c) || is_numeric(c)
}

pub open spec fn space_char() -> spec_fn(char) -> bool {
    |c: char| whitespace(c)
}

pub open spec fn word_char() -> spec_fn(char) -> bool {
    |c: char| alphanumeric(c)
}

pub open spec fn digit_char() -> spec_fn(char) -> bool {
    |c: char| numeric(c)
}

/// Length of the longest prefix of `s` whose characters all satisfy `p`.
pub open spec fn run_len(s: Seq<char>, p: spec_fn(char) -> bool) -> nat
    decreases s.len(),
{
    if s.len() > 0 && p(s[0]) {
        1 + run_len(s.drop_first(), p)
    } else {
        0
    }
}

/// How many characters the token at the head of `s` spans (`s` is non-empty
/// and does not start with whitespace).
pub open spec fn token_width(s: Seq<char>) -> nat {
    if alphabetic(s[0]) {
        run_len(s, word_char())
    } else if numeric(s[0]) {
        run_len(s, digit_char())
    } else {
        1
    }
}

/// The term that a consumed span stands for: a word is case folded, a number
/// or a symbol is kept as it is.
pub open spec fn token_text(raw: Seq<char>) -> Seq<char> {
    if alphabetic(raw[0]) {
        raw.map_values(|c: char| ascii_lower(c))
    } else {
        raw
    }
}

/// The input left after the leading whitespace of `s`.
pub open spec fn after_space(s: Seq<char>) -> Seq<char> {
    s.skip(run_len(s, space_char()) as int)
}

/// The terms of `s`, left to right.
pub open spec fn tokens(s: Seq<char>) -> Seq<Seq<char>>
    decreases s.len(),
{
    let rest = after_space(s);
    if rest.len() == 0 {
        seq![]
    } else {
        let w = token_width(rest);
        proof {
            lemma_token_width_bounds(rest);
            lemma_run_len_bound(s, space_char());
        }
        seq![token_text(rest.take(w as int))] + tokens(rest.skip(w as int))
    }
}

/// The spans that the tokenizer consumes from `s`, left to right: a run of
/// whitespace, then a token, and so on, ending with the trailing whitespace.
pub open spec fn spans(s: Seq<char>) -> Seq<Seq<char>>
    decreases s.len(),
{
    let lead = s.take(run_len(s, space_char()) as int);
    let rest = after_space(s);
    if rest.len() == 0 {
        seq![lead]
    } else {
        let w = token_width(rest);
        proof {
            lemma_token_width_bounds(rest);
            lemma_run_len_bound(s, space_char());
        }
        seq![lead, rest.take(w as int)] + spans(rest.skip(w as int))
    }
}

pub proof fn lemma_run_len_bound(s: Seq<char>, p: spec_fn(char) -> bool)
    ensures
        run_len(s, p) <= s.len(),
        forall|i: int| 0 <= i < run_len(s, p) ==> #[trigger] p(s[i]),
        run_len(s, p) < s.len() ==> !p(s[run_len(s, p) as int]),
    decreases s.len(),
{
    if s.len() > 0 && p(s[0]) {
        lemma_run_len_bound(s.drop_first(), p);
        assert forall|i: int| 0 <= i < run_len(s, p) implies #[trigger] p(s[i]) by {
            if i > 0 {
                assert(s[i] == s.drop_first()[i - 1]);
            }
        }
        if run_len(s, p) < s.len() {
            assert(s[run_len(s, p) as int] == s.drop_first()[run_len(s.drop_first(), p) as int]);
        }
    }
}

/// A prefix of `n` characters that all satisfy `p`, followed by the end of
/// `s` or by one that does not, is the run that `run_len` measures.
pub proof fn lemma_run_len_exact(s: Seq<char>, p: spec_fn(char) -> bool, n: nat)
    requires
        n <= s.len(),
        forall|i: int| 0 <= i < n ==> #[trigger] p(s[i]),
        n < s.len() ==> !p(s[n as int]),
    ensures
        run_len(s, p) == n,
    decreases n,
{
    if n > 0 {
        assert(p(s[0]));
        let t = s.drop_first();
        assert forall|i: int| 0 <= i < n - 1 implies #[trigger] p(t[i]) by {
            assert(p(s[i + 1]));
        }
        if n - 1 < t.len() {
            assert(t[n - 1] == s[n as int]);
        }
        lemma_run_len_exact(t, p, (n - 1) as nat);
    }
}

pub proof fn lemma_token_width_bounds(s: Seq<char>)
    requires
        s.len() > 0,
    ensures
        1 <= token_width(s) <= s.len(),
{
    lemma_run_len_bound(s, word_char());
    lemma_run_len_bound(s, digit_char());
    if alphabetic(s[0]) {
        assert(word_char()(s[0]));
        assert(run_len(s, word_char()) == 1 + run_len(s.drop_first(), word_char()));
    } else if numeric(s[0]) {
        assert(digit_char()(s[0]));
        assert(run_len(s, digit_char()) == 1 + run_len(s.drop_first(), digit_char()));
    }
}


/// Tokenizing consumes the whole input exactly once, left to right: the
/// consumed spans (whitespace runs and tokens, alternating) concatenate back
/// to the input, each token span is non-empty and gives the term in the same
/// place, and each whitespace span holds whitespace only.
pub proof fn lemma_spans_cover(s: Seq<char>)
    ensures
        spans(s).flatten() == s,
        spans(s).len() == 2 * tokens(s).len() + 1,
        forall|i: int|
            0 <= i < tokens(s).len() ==> {
                &&& (#[trigger] spans(s)[2 * i + 1]).len() > 0
                &&& tokens(s)[i] == token_text(spans(s)[2 * i + 1])
            },
        forall|i: int, j: int|
            0 <= i <= tokens(s).len() && 0 <= j < spans(s)[2 * i].len() ==> whitespace(
                #[trigger] spans(s)[2 * i][j],
            ),
    decreases s.len(),
{
    lemma_run_len_bound(s, space_char());
    let k = run_len(s, space_char()) as int;
    let lead = s.take(k);
    let rest = after_space(s);
    assert forall|j: int| 0 <= j < lead.len() implies whitespace(#[trigger] lead[j]) by {
        assert(space_char()(s[j]));
    }
    if rest.len() == 0 {
        assert(spans(s) == seq![lead]);
        assert(lead =~= s);
        assert(seq![lead].drop_first().flatten() =~= Seq::<char>::empty());
        assert(seq![lead].flatten() =~= lead + Seq::<char>::empty());
    } else {
        lemma_token_width_bounds(rest);
        let w = token_width(rest) as int;
        let tail = rest.skip(w);
        lemma_spans_cover(tail);
        let sp = spans(s);
        assert(sp == seq![lead, rest.take(w)] + spans(tail));
        assert(tokens(s) == seq![token_text(rest.take(w))] + tokens(tail));
        assert(sp.drop_first() =~= seq![rest.take(w)] + spans(tail));
        assert(sp.drop_first().drop_first() =~= spans(tail));
        assert(sp.flatten() == lead + sp.drop_first().flatten());
        assert(sp.drop_first().flatten() == rest.take(w) + spans(tail).flatten());
        assert(s =~= lead + (rest.take(w) + tail));
        assert forall|i: int|
            0 <= i < tokens(s).len() implies {
                &&& (#[trigger] spans(s)[2 * i + 1]).len() > 0
                &&& tokens(s)[i] == token_text(spans(s)[2 * i + 1])
            } by {
            if i > 0 {
                assert(sp[2 * i + 1] == spans(tail)[2 * (i - 1) + 1]);
                assert(tokens(s)[i] == tokens(tail)[i - 1]);
            }
        }
        assert forall|i: int, j: int|
            0 <= i <= tokens(s).len() && 0 <= j < spans(s)[2 * i].len() implies whitespace(
                #[trigger] spans(s)[2 * i][j],
            ) by {
            if i > 0 {
                assert(sp[2 * i] == spans(tail)[2 * (i - 1)]);
            }
        }
    }
}

/// Every term is non-empty.
pub proof fn lemma_terms_nonempty(s: Seq<char>)
    ensures
        forall|i: int| 0 <= i < tokens(s).len() ==> (#[trigger] tokens(s)[i]).len() > 0,
{
    lemma_spans_cover(s);
    assert forall|i: int| 0 <= i < tokens(s).len() implies (#[trigger] tokens(s)[i]).len() > 0 by {
        let raw = spans(s)[2 * i + 1];
        assert(raw.len() > 0);
        assert(token_text(raw).len() == raw.len());
    }
}

/// A query made of whitespace only holds no term, so it can never be taken
/// for a query whose terms match nothing.
pub proof fn lemma_blank_has_no_terms(s: Seq<char>)
    requires
        forall|i: int| 0 <= i < s.len() ==> whitespace(#[trigger] s[i]),
    ensures
        tokens(s).len() == 0,
{
    assert forall|i: int| 0 <= i < s.len() implies #[trigger] space_char()(s[i]) by {
        assert(whitespace(s[i]));
    }
    lemma_run_len_exact(s, space_char(), s.len());
    assert(after_space(s).len() == 0);
}

/// A single-pass tokenizer over a borrowed character sequence. Its view is
/// the input not yet consumed.
#[derive(Debug)]
pub struct Lexer<'a> {
    content: &'a [char],
}

impl<'a> View for Lexer<'a> {
    type V = Seq<char>;

    closed spec fn view(&self) -> Seq<char> {
        self.content@
    }
}

impl<'a> Lexer<'a> {
    pub fn new(content: &'a [char]) -> (r: Self)
        ensures
            r@ == content@,
    {
        Lexer { content }
    }

    /// Drops the leading whitespace.
    pub fn trim_left(&mut self)
        ensures
            final(self)@ == after_space(old(self)@),
    {
        let ghost start = self@;
        proof {
            lemma_run_len_bound(start, space_char());
        }
        while self.content.len() > 0 && is_whitespace(self.content[0])
            invariant
                self@.len() <= start.len(),
                self@ == start.skip(start.len() - self@.len()),
                run_len(start, space_char()) == (start.len() - self@.len()) + run_len(
                    self@,
                    space_char(),
                ),
            decreases self@.len(),
        {
            let c: &'a [char] = self.content;
            self.content = &c[1..c.len()];
            assert(self@ =~= start.skip(start.len() - self@.len()));
        }
        assert(run_len(self@, space_char()) == 0);
    }

    /// Consumes the longest prefix whose characters all satisfy `predicate`,
    /// and returns it.
    pub fn chop_while<P: Fn(char) -> bool>(&mut self, predicate: P) -> (tok: &'a [char])
        requires
            forall|c: char| predicate.requires((c,)),
        ensures
            tok@.len() <= old(self)@.len(),
            tok@ == old(self)@.take(tok@.len() as int),
            final(self)@ == old(self)@.skip(tok@.len() as int),
            forall|i: int| 0 <= i < tok@.len() ==> predicate.ensures((old(self)@[i],), true),
            tok@.len() < old(self)@.len() ==> predicate.ensures(
                (old(self)@[tok@.len() as int],),
                false,
            ),
    {
        let mut n: usize = 0;
        while n < self.content.len() && predicate(self.content[n])
            invariant
                n <= self@.len(),
                forall|c: char| predicate.requires((c,)),
                forall|i: int| 0 <= i < n ==> predicate.ensures((self@[i],), true),
            decreases self@.len() - n,
        {
            n += 1;
        }
        self.chop(n)
    }

    /// Consumes the first `n` characters and returns them.
    pub fn chop(&mut self, n: usize) -> (tok: &'a [char])
        requires
            n <= old(self)@.len(),
        ensures
            tok@ == old(self)@.take(n as int),
            final(self)@ == old(self)@.skip(n as int),
    {
        let c: &'a [char] = self.content;
        let token = &c[0..n];
        self.content = &c[n..c.len()];
        token
    }

    /// Consumes the next term, with the whitespace before it, and returns it;
    /// `None` once only whitespace is left, which is then consumed too.
    pub fn next_token(&mut self) -> (r: Option<String>)
        ensures
            old(self)@ == old(self)@.take(old(self)@.len() - final(self)@.len()) + final(self)@,
            final(self)@.len() <= old(self)@.len(),
            match r {
                None => tokens(old(self)@).len() == 0 && final(self)@.len() == 0,
                Some(t) => {
                    &&& tokens(old(self)@).len() > 0
                    &&& t@ == tokens(old(self)@)[0]
                    &&& tokens(final(self)@) == tokens(old(self)@).drop_first()
                    &&& final(self)@.len() < old(self)@.len()
                    &&& final(self)@ == after_space(old(self)@).skip(
                        token_width(after_space(old(self)@)) as int,
                    )
                    &&& t@ == token_text(
                        after_space(old(self)@).take(token_width(after_space(old(self)@)) as int),
                    )
                },
            },
    {
        let ghost start = self@;
        proof {
            lemma_run_len_bound(start, space_char());
        }
        self.trim_left();
        let ghost rest = self@;
        if self.content.len() == 0 {
            assert(start =~= start.take(start.len() as int) + self@);
            return None;
        }
        proof {
            lemma_token_width_bounds(rest);
        }
        let first = self.content[0];
        let raw: &'a [char];
        let lower: bool;
        if is_alphabetic(first) {
            raw = self.chop_while(is_word_char);
            proof {
                lemma_run_len_exact(rest, word_char(), raw@.len());
            }
            lower = true;
        } else if is_numeric(first) {
            raw = self.chop_while(is_numeric);
            proof {
                lemma_run_len_exact(rest, digit_char(), raw@.len());
            }
            lower = false;
        } else {
            raw = self.chop(1);
            lower = false;
        }
        let t = spell(raw, lower);
        proof {
            assert(raw@ == rest.take(token_width(rest) as int));
            assert(t@ == token_text(raw@));
            assert(tokens(start) == seq![token_text(raw@)] + tokens(self@));
            assert(tokens(start).drop_first() =~= tokens(self@));
            assert(start =~= start.take(start.len() - self@.len()) + self@);
        }
        Some(t)
    }

    pub fn next(&mut self) -> (r: Option<String>)
        ensures
            old(self)@ == old(self)@.take(old(self)@.len() - final(self)@.len()) + final(self)@,
            final(self)@.len() <= old(self)@.len(),
            match r {
                None => tokens(old(self)@).len() == 0 && final(self)@.len() == 0,
                Some(t) => {
                    &&& tokens(old(self)@).len() > 0
                    &&& t@ == tokens(old(self)@)[0]
                    &&& tokens(final(self)@) == tokens(old(self)@).drop_first()
                    &&& final(self)@.len() < old(self)@.len()
                    &&& final(self)@ == after_space(old(self)@).skip(
                        token_width(after_space(old(self)@)) as int,
                    )
                    &&& t@ == token_text(
                        after_space(old(self)@).take(token_width(after_space(old(self)@)) as int),
                    )
                },
            },
    {
        self.next_token()
    }
}

/// The characters of `raw` as a string, ASCII case folded when `lower` holds.
fn spell(raw: &[char], lower: bool) -> (r: String)
    requires
        raw@.len() > 0,
    ensures
        r@ == (if lower {
            raw@.map_values(|c: char| ascii_lower(c))
        } else {
            raw@
        }),
{
    let mut out = String::new();
    let mut i: usize = 0;
    while i < raw.len()
        invariant
            i <= raw@.len(),
            out@ == (if lower {
                raw@.take(i as int).map_values(|c: char| ascii_lower(c))
            } else {
                raw@.take(i as int)
            }),
        decreases raw@.len() - i,
    {
        let c = if lower {
            to_ascii_lowercase(raw[i])
        } else {
            raw[i]
        };
        push_char(&mut out, c);
        i += 1;
        assert(raw@.take(i as int) =~= raw@.take(i - 1).push(raw@[i - 1]));
        if lower {
            assert(raw@.take(i as int).map_values(|c: char| ascii_lower(c)) =~= raw@.take(
                i - 1,
            ).map_values(|c: char| ascii_lower(c)).push(ascii_lower(raw@[i - 1])));
        }
    }
    assert(raw@.take(i as int) =~= raw@);
    out
}

/// All the terms of `content`, left to right.
pub fn tokenize(content: &[char]) -> (r: Vec<String>)
    ensures
        r@.map_values(|t: String| t@) == tokens(content@),
        forall|i: int| 0 <= i < r@.len() ==> (#[trigger] r@[i])@.len() > 0,
{
    let mut lexer = Lexer::new(content);
    let mut out: Vec<String> = Vec::new();
    loop
        invariant
            out@.map_values(|t: String| t@) + tokens(lexer@) == tokens(content@),
        decreases lexer@.len(),
    {
        let ghost pending = tokens(lexer@);
        match lexer.next_token() {
            None => {
                assert(out@.map_values(|t: String| t@) =~= tokens(content@));
                proof {
                    lemma_terms_nonempty(content@);
                    assert forall|i: int| 0 <= i < out@.len() implies (#[trigger] out@[i])@.len() > 0 by {
                        assert(out@[i]@ == tokens(content@)[i]);
                    }
                }
                return out;
            },
            Some(t) => {
                let ghost before = out@.map_values(|t: String| t@);
                assert(pending =~= seq![t@] + tokens(lexer@));
                out.push(t);
                assert(out@.map_values(|t: String| t@) =~= before.push(t@));
            },
        }
    }
}

} // verus!
