//! The term-filter matching language.
//!
//! A filter expression is a whitespace-separated list of terms. A term is a
//! run of literal characters and `*` wildcards; a quoted span (single or
//! double quotes) is one literal with no wildcard interpretation. Each term
//! compiles to one case-insensitive regex enforcing whole-word matching:
//! a word boundary at each end unless a wildcard stands there, and `\S*` for
//! interior wildcards. A filter matches a text when every one of its term
//! regexes matches somewhere in the text (all words, in any order).

use vstd::prelude::*;

use crate::read2::ParseError;

verus! {

/// Whitespace that separates terms: space, tab, newline, form feed.
pub open spec fn spec_is_ws(c: char) -> bool {
    c == ' ' || c == '\t' || c == '\n' || c == '\u{000C}'
}

/// A quote character: either kind opens a literal span.
pub open spec fn spec_is_quote(c: char) -> bool {
    c == '"' || c == '\''
}

/// A character that may stand in a bare (unquoted) literal.
pub open spec fn spec_is_bare(c: char) -> bool {
    !spec_is_ws(c) && !spec_is_quote(c) && c != '*'
}

/// The number of consecutive whitespace characters starting at `i`.
pub open spec fn ws_run(s: Seq<char>, i: nat) -> nat
    decreases s.len() - i,
{
    if i < s.len() && spec_is_ws(s[i as int]) {
        1 + ws_run(s, i + 1)
    } else {
        0
    }
}

/// The number of consecutive bare-literal characters starting at `i`.
pub open spec fn bare_run(s: Seq<char>, i: nat) -> nat
    decreases s.len() - i,
{
    if i < s.len() && spec_is_bare(s[i as int]) {
        1 + bare_run(s, i + 1)
    } else {
        0
    }
}

/// The number of characters before the closing quote `q`, starting at `i`.
pub open spec fn until_quote(s: Seq<char>, q: char, i: nat) -> nat
    decreases s.len() - i,
{
    if i < s.len() && s[i as int] != q {
        1 + until_quote(s, q, i + 1)
    } else {
        0
    }
}

/// A whitespace run never passes the end of the text.
pub proof fn lemma_ws_run_le(s: Seq<char>, i: nat)
    requires
        i <= s.len(),
    ensures
        i + ws_run(s, i) <= s.len(),
    decreases s.len() - i,
{
    if i < s.len() && spec_is_ws(s[i as int]) {
        lemma_ws_run_le(s, i + 1);
    }
}

/// A bare-literal run never passes the end of the text.
pub proof fn lemma_bare_run_le(s: Seq<char>, i: nat)
    requires
        i <= s.len(),
    ensures
        i + bare_run(s, i) <= s.len(),
    decreases s.len() - i,
{
    if i < s.len() && spec_is_bare(s[i as int]) {
        lemma_bare_run_le(s, i + 1);
    }
}

/// A scan for a closing quote never passes the end of the text.
pub proof fn lemma_until_quote_le(s: Seq<char>, q: char, i: nat)
    requires
        i <= s.len(),
    ensures
        i + until_quote(s, q, i) <= s.len(),
    decreases s.len() - i,
{
    if i < s.len() && s[i as int] != q {
        lemma_until_quote_le(s, q, i + 1);
    }
}

/// One lexical token of a filter expression.
pub enum TokV {
    /// A literal span: a bare run, or the inside of a quoted span.
    Lit(Seq<char>),
    /// The `*` wildcard.
    Star,
    /// A run of whitespace, separating terms.
    Ws,
}

/// Prepend a token to a token list, passing errors through.
pub open spec fn tok_cons(t: TokV, rest: Result<Seq<TokV>, ParseError>) -> Result<
    Seq<TokV>,
    ParseError,
> {
    match rest {
        Ok(ts) => Ok(seq![t] + ts),
        Err(e) => Err(e),
    }
}

/// The tokens of the filter expression from position `i` on: `*` is a
/// wildcard token, whitespace runs separate terms, quoted spans are single
/// literals (quotes stripped, never empty, always closed), and any other run
/// of characters is a literal.
pub open spec fn spec_tokens(s: Seq<char>, i: nat) -> Result<Seq<TokV>, ParseError>
    decreases s.len() - i,
    via spec_tokens_decreases
{
    if i >= s.len() {
        Ok(Seq::empty())
    } else {
        let c = s[i as int];
        if c == '*' {
            tok_cons(TokV::Star, spec_tokens(s, i + 1))
        } else if spec_is_ws(c) {
            tok_cons(TokV::Ws, spec_tokens(s, i + 1 + ws_run(s, i + 1)))
        } else if spec_is_quote(c) {
            let d = until_quote(s, c, i + 1);
            let j = i + 1 + d;
            if j >= s.len() {
                Err(ParseError::UnterminatedQuote)
            } else if d == 0 {
                Err(ParseError::EmptyQuote)
            } else {
                tok_cons(TokV::Lit(s.subrange(i as int + 1, j as int)), spec_tokens(s, j + 1))
            }
        } else {
            let n = i + 1 + bare_run(s, i + 1);
            tok_cons(TokV::Lit(s.subrange(i as int, n as int)), spec_tokens(s, n))
        }
    }
}

#[via_fn]
proof fn spec_tokens_decreases(s: Seq<char>, i: nat) {
    if i < s.len() {
        lemma_ws_run_le(s, i + 1);
        lemma_bare_run_le(s, i + 1);
        let c = s[i as int];
        lemma_until_quote_le(s, c, i + 1);
    }
}

/// An executable lexical token.
pub enum Tok {
    Lit(Vec<char>),
    Star,
    Ws,
}

impl View for Tok {
    type V = TokV;

    open spec fn view(&self) -> TokV {
        match self {
            Tok::Lit(l) => TokV::Lit(l@),
            Tok::Star => TokV::Star,
            Tok::Ws => TokV::Ws,
        }
    }
}

/// The views of a token list.
pub open spec fn tok_views(ts: Seq<Tok>) -> Seq<TokV> {
    Seq::new(ts.len(), |i: int| ts[i]@)
}

/// Whether a character is term-separating whitespace.
fn is_ws_char(c: char) -> (r: bool)
    ensures
        r == spec_is_ws(c),
{
    c == ' ' || c == '\t' || c == '\n' || c == '\u{000C}'
}

/// Whether a character opens a quoted span.
fn is_quote_char(c: char) -> (r: bool)
    ensures
        r == spec_is_quote(c),
{
    c == '"' || c == '\''
}

/// Count the whitespace run starting at `i`.
fn scan_ws(s: &Vec<char>, i: usize) -> (r: usize)
    requires
        i <= s@.len(),
    ensures
        r == ws_run(s@, i as nat),
        i + r <= s@.len(),
    decreases s@.len() - i,
{
    if i < s.len() && is_ws_char(s[i]) {
        let rest = scan_ws(s, i + 1);
        1 + rest
    } else {
        0
    }
}

/// Count the bare-literal run starting at `i`.
fn scan_bare(s: &Vec<char>, i: usize) -> (r: usize)
    requires
        i <= s@.len(),
    ensures
        r == bare_run(s@, i as nat),
        i + r <= s@.len(),
    decreases s@.len() - i,
{
    if i < s.len() && !is_ws_char(s[i]) && !is_quote_char(s[i]) && s[i] != '*' {
        let rest = scan_bare(s, i + 1);
        1 + rest
    } else {
        0
    }
}

/// Count the characters before the closing quote `q` starting at `i`.
fn scan_until_quote(s: &Vec<char>, q: char, i: usize) -> (r: usize)
    requires
        i <= s@.len(),
    ensures
        r == until_quote(s@, q, i as nat),
        i + r <= s@.len(),
    decreases s@.len() - i,
{
    if i < s.len() && s[i] != q {
        let rest = scan_until_quote(s, q, i + 1);
        1 + rest
    } else {
        0
    }
}

/// Copy the characters `s[from..to]`.
fn copy_range(s: &Vec<char>, from: usize, to: usize) -> (r: Vec<char>)
    requires
        from <= to <= s@.len(),
    ensures
        r@ =~= s@.subrange(from as int, to as int),
{
    let mut out: Vec<char> = Vec::new();
    let mut i: usize = from;
    while i < to
        invariant
            from <= i <= to <= s@.len(),
            out@ =~= s@.subrange(from as int, i as int),
        decreases to - i,
    {
        out.push(s[i]);
        proof {
            assert(out@ =~= s@.subrange(from as int, i + 1));
        }
        i += 1;
    }
    out
}

/// Lex a filter expression into tokens.
fn tokenize(s: &Vec<char>) -> (r: Result<Vec<Tok>, ParseError>)
    ensures
        match r {
            Ok(ts) => spec_tokens(s@, 0) == Ok::<Seq<TokV>, ParseError>(tok_views(ts@)),
            Err(e) => spec_tokens(s@, 0) == Err::<Seq<TokV>, ParseError>(e),
        },
{
    let n = s.len();
    let mut out: Vec<Tok> = Vec::new();
    let mut i: usize = 0;
    while i < n
        invariant
            0 <= i <= n,
            n == s@.len(),
            spec_tokens(s@, 0) == (match spec_tokens(s@, i as nat) {
                Ok(rest) => Ok::<Seq<TokV>, ParseError>(tok_views(out@) + rest),
                Err(e) => Err::<Seq<TokV>, ParseError>(e),
            }),
        decreases n - i,
    {
        let ghost out0 = out@;
        let c = s[i];
        let next: usize;
        if c == '*' {
            out.push(Tok::Star);
            next = i + 1;
            proof {
                assert(tok_views(out@) =~= tok_views(out0).push(TokV::Star));
            }
        } else if is_ws_char(c) {
            let run = scan_ws(s, i + 1);
            out.push(Tok::Ws);
            next = i + 1 + run;
            proof {
                assert(tok_views(out@) =~= tok_views(out0).push(TokV::Ws));
            }
        } else if is_quote_char(c) {
            let d = scan_until_quote(s, c, i + 1);
            let j = i + 1 + d;
            if j >= n {
                return Err(ParseError::UnterminatedQuote);
            }
            if d == 0 {
                return Err(ParseError::EmptyQuote);
            }
            let lit = copy_range(s, i + 1, j);
            out.push(Tok::Lit(lit));
            next = j + 1;
            proof {
                assert(tok_views(out@) =~= tok_views(out0).push(
                    TokV::Lit(s@.subrange(i as int + 1, i + 1 + d))));
            }
        } else {
            let run = scan_bare(s, i + 1);
            let next0 = i + 1 + run;
            let lit = copy_range(s, i, next0);
            out.push(Tok::Lit(lit));
            next = next0;
            proof {
                assert(tok_views(out@) =~= tok_views(out0).push(
                    TokV::Lit(s@.subrange(i as int, next0 as int))));
            }
        }
        proof {
            // one unfolding of the token spec at position `i` matches the
            // token just pushed
            let rest_spec = spec_tokens(s@, next as nat);
            if rest_spec is Ok {
                assert(tok_views(out@) + rest_spec->Ok_0 =~= tok_views(out0) + (
                    spec_tokens(s@, i as nat)->Ok_0));
            }
        }
        i = next;
    }
    proof {
        assert(spec_tokens(s@, n as nat) == Ok::<Seq<TokV>, ParseError>(Seq::empty()));
        assert(tok_views(out@) + Seq::<TokV>::empty() =~= tok_views(out@));
    }
    Ok(out)
}

/// One piece of a match term: a literal span, or the `*` wildcard.
pub enum TermPartV {
    Literal(Seq<char>),
    Asterisk,
}

/// An executable term part.
#[derive(Debug, Clone)]
pub enum TermPart {
    Literal(Vec<char>),
    Asterisk,
}

impl View for TermPart {
    type V = TermPartV;

    open spec fn view(&self) -> TermPartV {
        match self {
            TermPart::Literal(l) => TermPartV::Literal(l@),
            TermPart::Asterisk => TermPartV::Asterisk,
        }
    }
}

/// The views of a part list.
pub open spec fn part_views(ps: Seq<TermPart>) -> Seq<TermPartV> {
    Seq::new(ps.len(), |i: int| ps[i]@)
}

/// The term part named by a token (never applied to whitespace).
pub open spec fn tok_part(t: TokV) -> TermPartV {
    match t {
        TokV::Lit(l) => TermPartV::Literal(l),
        TokV::Star => TermPartV::Asterisk,
        TokV::Ws => TermPartV::Asterisk,
    }
}

/// Group tokens into terms: whitespace closes the term being built (`acc`),
/// and every other token extends it.
pub open spec fn spec_group(acc: Seq<TermPartV>, toks: Seq<TokV>) -> Seq<Seq<TermPartV>>
    decreases toks.len(),
{
    if toks.len() == 0 {
        if acc.len() == 0 {
            Seq::empty()
        } else {
            seq![acc]
        }
    } else if toks.first() is Ws {
        (if acc.len() == 0 {
            Seq::empty()
        } else {
            seq![acc]
        }) + spec_group(Seq::empty(), toks.drop_first())
    } else {
        spec_group(acc.push(tok_part(toks.first())), toks.drop_first())
    }
}

/// The parse of a whole filter expression: its terms, each a list of parts.
/// An expression with no term at all is rejected.
pub open spec fn spec_terms(s: Seq<char>) -> Result<Seq<Seq<TermPartV>>, ParseError> {
    match spec_tokens(s, 0) {
        Ok(toks) => {
            let g = spec_group(Seq::empty(), toks);
            if g.len() == 0 {
                Err(ParseError::EmptyFilter)
            } else {
                Ok(g)
            }
        },
        Err(e) => Err(e),
    }
}

/// One whitespace-delimited match term: literal spans interleaved with
/// wildcards. A term with a leading or trailing wildcard may match mid-word
/// at that end; an interior wildcard matches any run of non-whitespace.
#[derive(Debug, Clone)]
pub struct Term {
    parts: Vec<TermPart>,
}

impl View for Term {
    type V = Seq<TermPartV>;

    closed spec fn view(&self) -> Seq<TermPartV> {
        part_views(self.parts@)
    }
}

impl Term {
    /// An empty term, to be extended with parts.
    pub fn new() -> (r: Term)
        ensures
            r@ =~= Seq::<TermPartV>::empty(),
    {
        Term { parts: Vec::new() }
    }

    /// Append a literal span.
    pub fn push_literal(self, literal: &str) -> (r: Term)
        ensures
            r@ =~= self@.push(TermPartV::Literal(literal@)),
    {
        let mut parts = self.parts;
        let chars = str_to_chars(literal);
        parts.push(TermPart::Literal(chars));
        proof {
            assert(part_views(parts@) =~= part_views(self.parts@).push(
                TermPartV::Literal(literal@)));
        }
        Term { parts }
    }

    /// Append a wildcard.
    pub fn push_asterisk(self) -> (r: Term)
        ensures
            r@ =~= self@.push(TermPartV::Asterisk),
    {
        let mut parts = self.parts;
        parts.push(TermPart::Asterisk);
        proof {
            assert(part_views(parts@) =~= part_views(self.parts@).push(TermPartV::Asterisk));
        }
        Term { parts }
    }
}

/// A parsed filter expression: one term per whitespace-separated word or
/// quoted phrase.
#[derive(Debug, Clone)]
pub struct TermFilter {
    parts: Vec<Term>,
}

impl View for TermFilter {
    type V = Seq<Seq<TermPartV>>;

    closed spec fn view(&self) -> Seq<Seq<TermPartV>> {
        Seq::new(self.parts@.len(), |i: int| self.parts@[i]@)
    }
}

impl TermFilter {
    /// An empty filter, to be extended with terms.
    pub fn new() -> (r: TermFilter)
        ensures
            r@ =~= Seq::<Seq<TermPartV>>::empty(),
    {
        TermFilter { parts: Vec::new() }
    }

    /// Append one term.
    pub fn push(self, el: Term) -> (r: TermFilter)
        ensures
            r@ =~= self@.push(el@),
    {
        let ghost old_view = self@;
        let mut parts = self.parts;
        parts.push(el);
        proof {
            assert(Seq::new(parts@.len(), |i: int| parts@[i]@) =~= old_view.push(el@));
        }
        TermFilter { parts }
    }

    /// Parse a filter expression.
    pub fn parse(input: &str) -> (r: Result<TermFilter, ParseError>)
        ensures
            match spec_terms(input@) {
                Ok(ts) => r matches Ok(tf) && tf@ == ts,
                Err(e) => r == Err::<TermFilter, ParseError>(e),
            },
    {
        let chars = str_to_chars(input);
        let toks = match tokenize(&chars) {
            Ok(toks) => toks,
            Err(e) => {
                return Err(e);
            },
        };
        let tf = group_tokens(toks);
        if tf.parts.len() == 0 {
            proof {
                assert(spec_terms(input@) == Err::<Seq<Seq<TermPartV>>, ParseError>(
                    ParseError::EmptyFilter));
            }
            return Err(ParseError::EmptyFilter);
        }
        proof {
            assert(tf@.len() == tf.parts@.len());
        }
        Ok(tf)
    }
}

/// The characters of a string, in order.
pub fn str_to_chars(s: &str) -> (r: Vec<char>)
    ensures
        r@ =~= s@,
{
    let n = s.unicode_len();
    let mut out: Vec<char> = Vec::new();
    let mut i: usize = 0;
    while i < n
        invariant
            0 <= i <= n,
            n == s@.len(),
            out@ =~= s@.subrange(0, i as int),
        decreases n - i,
    {
        out.push(s.get_char(i));
        proof {
            assert(out@ =~= s@.subrange(0, i + 1));
        }
        i += 1;
    }
    proof {
        assert(s@.subrange(0, n as int) =~= s@);
    }
    out
}

/// Group a token list into a filter's terms.
fn group_tokens(toks: Vec<Tok>) -> (r: TermFilter)
    ensures
        r@ == spec_group(Seq::empty(), tok_views(toks@)),
{
    let n = toks.len();
    let mut done: Vec<Term> = Vec::new();
    let mut cur: Vec<TermPart> = Vec::new();
    let mut i: usize = 0;
    proof {
        assert(tok_views(toks@).subrange(0, n as int) =~= tok_views(toks@));
        assert(Seq::new(done@.len(), |k: int| done@[k]@) =~= Seq::<Seq<TermPartV>>::empty());
        assert(part_views(cur@) =~= Seq::<TermPartV>::empty());
    }
    while i < n
        invariant
            0 <= i <= n,
            n == toks@.len(),
            spec_group(Seq::empty(), tok_views(toks@)) =~= Seq::new(
                done@.len(), |k: int| done@[k]@) + spec_group(part_views(cur@), tok_views(
                toks@).subrange(i as int, n as int)),
        decreases n - i,
    {
        let ghost suffix = tok_views(toks@).subrange(i as int, n as int);
        proof {
            assert(suffix.len() > 0);
            assert(suffix.first() == tok_views(toks@)[i as int]);
            assert(suffix.first() == toks@[i as int]@);
            assert(suffix.drop_first() =~= tok_views(toks@).subrange(i + 1, n as int));
        }
        let is_sep = match &toks[i] {
            Tok::Ws => true,
            _ => false,
        };
        if is_sep {
            proof {
                assert(toks@[i as int]@ is Ws);
                assert(spec_group(part_views(cur@), suffix) == (if part_views(cur@).len() == 0 {
                    Seq::<Seq<TermPartV>>::empty()
                } else {
                    seq![part_views(cur@)]
                }) + spec_group(Seq::empty(), suffix.drop_first()));
            }
            if cur.len() > 0 {
                let ghost done0 = done@;
                let ghost cur0 = cur@;
                let term = Term { parts: cur };
                done.push(term);
                cur = Vec::new();
                proof {
                    assert(part_views(cur0).len() > 0);
                    assert(Seq::new(done@.len(), |k: int| done@[k]@) =~= Seq::new(
                        done0.len(), |k: int| done0[k]@).push(part_views(cur0)));
                    assert(part_views(cur@) =~= Seq::<TermPartV>::empty());
                    assert(Seq::new(done0.len(), |k: int| done0[k]@) + (seq![part_views(cur0)]
                        + spec_group(Seq::empty(), suffix.drop_first())) =~= Seq::new(
                        done@.len(), |k: int| done@[k]@) + spec_group(Seq::empty(),
                        suffix.drop_first()));
                    assert(spec_group(Seq::empty(), tok_views(toks@)) =~= Seq::new(
                        done@.len(), |k: int| done@[k]@) + spec_group(part_views(cur@), tok_views(
                        toks@).subrange(i + 1, n as int)));
                }
            } else {
                proof {
                    assert(part_views(cur@) =~= Seq::<TermPartV>::empty());
                    assert(Seq::<Seq<TermPartV>>::empty() + spec_group(Seq::empty(),
                        suffix.drop_first()) =~= spec_group(Seq::empty(), suffix.drop_first()));
                    assert(spec_group(Seq::empty(), tok_views(toks@)) =~= Seq::new(
                        done@.len(), |k: int| done@[k]@) + spec_group(part_views(cur@), tok_views(
                        toks@).subrange(i + 1, n as int)));
                }
            }
        } else {
            let ghost cur0 = cur@;
            let part = match &toks[i] {
                Tok::Lit(l) => {
                    let copied = copy_range(l, 0, l.len());
                    proof {
                        assert(copied@ =~= l@);
                    }
                    TermPart::Literal(copied)
                },
                Tok::Star => TermPart::Asterisk,
                Tok::Ws => TermPart::Asterisk,
            };
            proof {
                assert(part@ == tok_part(toks@[i as int]@));
            }
            proof {
                assert(!(toks@[i as int]@ is Ws));
                assert(spec_group(part_views(cur0), suffix) == spec_group(part_views(
                    cur0).push(tok_part(suffix.first())), suffix.drop_first()));
            }
            cur.push(part);
            proof {
                assert(part_views(cur@) =~= part_views(cur0).push(tok_part(toks@[i as int]@)));
                assert(spec_group(Seq::empty(), tok_views(toks@)) =~= Seq::new(
                    done@.len(), |k: int| done@[k]@) + spec_group(part_views(cur@), tok_views(
                    toks@).subrange(i + 1, n as int)));
            }
        }
        i += 1;
    }
    proof {
        assert(tok_views(toks@).subrange(n as int, n as int) =~= Seq::<TokV>::empty());
    }
    if cur.len() > 0 {
        let ghost done0 = done@;
        let ghost cur0 = cur@;
        let term = Term { parts: cur };
        done.push(term);
        proof {
            assert(Seq::new(done@.len(), |k: int| done@[k]@) =~= Seq::new(
                done0.len(), |k: int| done0[k]@).push(part_views(cur0)));
        }
        TermFilter { parts: done }
    } else {
        proof {
            assert(part_views(cur@).len() == 0);
            assert(Seq::new(done@.len(), |k: int| done@[k]@) + Seq::<Seq<TermPartV>>::empty()
                =~= Seq::new(done@.len(), |k: int| done@[k]@));
        }
        TermFilter { parts: done }
    }
}

/// A regex metacharacter, which must be escaped to match literally. This is
/// the set that `regex::escape` escapes.
pub open spec fn spec_is_meta(c: char) -> bool {
    c == '\\' || c == '.' || c == '+' || c == '*' || c == '?' || c == '(' || c == ')' || c == '|'
        || c == '[' || c == ']' || c == '{' || c == '}' || c == '^' || c == '$' || c == '#'
        || c == '&' || c == '-' || c == '~'
}

/// The literal span with every regex metacharacter escaped.
pub open spec fn spec_escape(l: Seq<char>) -> Seq<char>
    decreases l.len(),
{
    if l.len() == 0 {
        Seq::empty()
    } else {
        spec_escape(l.drop_last()) + (if spec_is_meta(l.last()) {
            seq!['\\', l.last()]
        } else {
            seq![l.last()]
        })
    }
}

/// The regex text for the parts of a term after any leading wildcard: `\S*`
/// for an interior wildcard, nothing for a trailing one (the word boundary is
/// simply omitted), and escaped text for a literal, closed by a word
/// boundary when the literal is last.
pub open spec fn spec_render_parts(ps: Seq<TermPartV>) -> Seq<char>
    decreases ps.len(),
{
    if ps.len() == 0 {
        Seq::empty()
    } else {
        match ps.first() {
            TermPartV::Asterisk => if ps.len() > 1 {
                seq!['\\', 'S', '*'] + spec_render_parts(ps.drop_first())
            } else {
                Seq::empty()
            },
            TermPartV::Literal(l) => spec_escape(l) + (if ps.len() == 1 {
                seq!['\\', 'b']
            } else {
                Seq::empty()
            }) + spec_render_parts(ps.drop_first()),
        }
    }
}

/// The regex for one term: a word boundary at the start unless the term
/// opens with a wildcard, then the rendered parts.
pub open spec fn spec_term_regex(parts: Seq<TermPartV>) -> Seq<char> {
    if parts.len() > 0 && parts.first() is Asterisk {
        spec_render_parts(parts.drop_first())
    } else {
        seq!['\\', 'b'] + spec_render_parts(parts)
    }
}

/// The regexes of a filter: one per term.
pub open spec fn spec_codegen(terms: Seq<Seq<TermPartV>>) -> Seq<Seq<char>> {
    Seq::new(terms.len(), |i: int| spec_term_regex(terms[i]))
}

/// Whether a character must be escaped in a regex.
fn is_meta_char(c: char) -> (r: bool)
    ensures
        r == spec_is_meta(c),
{
    c == '\\' || c == '.' || c == '+' || c == '*' || c == '?' || c == '(' || c == ')' || c == '|'
        || c == '[' || c == ']' || c == '{' || c == '}' || c == '^' || c == '$' || c == '#'
        || c == '&' || c == '-' || c == '~'
}

/// Append the escaped form of a literal span.
fn push_escaped(out: &mut Vec<char>, l: &Vec<char>)
    ensures
        final(out)@ =~= old(out)@ + spec_escape(l@),
{
    let n = l.len();
    let mut i: usize = 0;
    while i < n
        invariant
            0 <= i <= n,
            n == l@.len(),
            out@ =~= old(out)@ + spec_escape(l@.take(i as int)),
        decreases n - i,
    {
        proof {
            assert(l@.take(i + 1).drop_last() =~= l@.take(i as int));
            assert(l@.take(i + 1).last() == l@[i as int]);
        }
        let c = l[i];
        if is_meta_char(c) {
            out.push('\\');
        }
        out.push(c);
        proof {
            assert(out@ =~= old(out)@ + spec_escape(l@.take(i + 1)));
        }
        i += 1;
    }
    proof {
        assert(l@.take(n as int) =~= l@);
    }
}

impl Term {
    /// Compile this term to its whole-word regex text.
    pub fn to_regex(&self) -> (r: Vec<char>)
        ensures
            r@ =~= spec_term_regex(self@),
    {
        let n = self.parts.len();
        let mut out: Vec<char> = Vec::new();
        let mut start: usize = 0;
        let lead_star = n > 0 && matches!(&self.parts[0], TermPart::Asterisk);
        if lead_star {
            start = 1;
            proof {
                assert(self@.first() is Asterisk);
                assert(spec_term_regex(self@) == spec_render_parts(self@.drop_first()));
                assert(self@.drop_first() =~= self@.subrange(1, n as int));
                assert(out@ =~= Seq::<char>::empty());
            }
        } else {
            out.push('\\');
            out.push('b');
            proof {
                assert(self@.subrange(0, n as int) =~= self@);
                assert(out@ =~= seq!['\\', 'b']);
            }
        }
        let mut i: usize = start;
        while i < n
            invariant
                start <= i <= n,
                n == self@.len(),
                spec_term_regex(self@) =~= out@ + spec_render_parts(self@.subrange(
                    i as int, n as int)),
            decreases n - i,
        {
            let ghost suffix = self@.subrange(i as int, n as int);
            proof {
                assert(suffix.first() == self@[i as int]);
                assert(suffix.drop_first() =~= self@.subrange(i + 1, n as int));
                assert(self.parts@[i as int]@ == self@[i as int]);
            }
            match &self.parts[i] {
                TermPart::Asterisk => {
                    if i + 1 < n {
                        out.push('\\');
                        out.push('S');
                        out.push('*');
                        proof {
                            assert(spec_render_parts(suffix) == seq!['\\', 'S', '*']
                                + spec_render_parts(suffix.drop_first()));
                        }
                    } else {
                        proof {
                            assert(suffix.len() == 1);
                            assert(spec_render_parts(suffix) =~= Seq::<char>::empty());
                            assert(suffix.drop_first() =~= Seq::<TermPartV>::empty());
                            assert(spec_render_parts(suffix.drop_first()) =~= Seq::<
                                char>::empty());
                        }
                    }
                },
                TermPart::Literal(l) => {
                    push_escaped(&mut out, l);
                    if i + 1 == n {
                        out.push('\\');
                        out.push('b');
                        proof {
                            assert(suffix.len() == 1);
                            assert(suffix.drop_first() =~= Seq::<TermPartV>::empty());
                            assert(spec_render_parts(suffix.drop_first()) =~= Seq::<
                                char>::empty());
                            assert(spec_render_parts(suffix) =~= spec_escape(l@) + seq![
                                '\\', 'b'] + spec_render_parts(suffix.drop_first()));
                        }
                    } else {
                        proof {
                            assert(spec_render_parts(suffix) =~= spec_escape(l@)
                                + Seq::<char>::empty() + spec_render_parts(suffix.drop_first()));
                        }
                    }
                },
            }
            i += 1;
        }
        proof {
            assert(self@.subrange(n as int, n as int) =~= Seq::<TermPartV>::empty());
            assert(spec_render_parts(self@.subrange(n as int, n as int)) =~= Seq::<char>::empty());
            assert(out@ + Seq::<char>::empty() =~= out@);
        }
        out
    }
}

/// Whether the regex crate, building case-insensitively, accepts this
/// pattern. Named, not stated: which patterns compile is decided by the
/// regex crate alone, as a function of the pattern text.
pub uninterp spec fn regex_compiles(pattern: Seq<char>) -> bool;

/// Whether the pattern, compiled case-insensitively, matches anywhere in the
/// text. Named, not stated: the match semantics of the regex crate takes
/// pages to write down, and depends on the pattern and text alone.
pub uninterp spec fn regex_accepts(pattern: Seq<char>, text: Seq<char>) -> bool;

/// Relies on `regex::RegexBuilder::build` (with `case_insensitive(true)`)
/// and `regex::Regex::is_match`: whether the pattern compiles, and whether
/// the compiled regex matches anywhere in the text. Both are functions of
/// the pattern and text alone.
#[verifier::external_body]
fn regex_ci_is_match(pattern: &Vec<char>, text: &str) -> (r: Option<bool>)
    ensures
        (r is Some) == regex_compiles(pattern@),
        r matches Some(m) ==> m == regex_accepts(pattern@, text@),
{
    let p: String = pattern.iter().collect();
    match regex::RegexBuilder::new(&p).case_insensitive(true).build() {
        Ok(re) => Some(re.is_match(text)),
        Err(_) => None,
    }
}

/// A pattern "matches" a text when it compiles and the compiled regex finds
/// a match somewhere in the text.
pub open spec fn spec_pattern_matches(pattern: Seq<char>, text: Seq<char>) -> bool {
    regex_compiles(pattern) && regex_accepts(pattern, text)
}

/// A filter matches when every one of its term regexes matches (all words,
/// in any order).
pub open spec fn spec_filter_matches(patterns: Seq<Seq<char>>, text: Seq<char>) -> bool {
    forall|i: int| 0 <= i < patterns.len() ==> spec_pattern_matches(#[trigger] patterns[i], text)
}

/// A filter set matches when any one of its filters matches.
pub open spec fn spec_fs_matches(fs: Seq<Seq<Seq<char>>>, text: Seq<char>) -> bool {
    exists|i: int| 0 <= i < fs.len() && spec_filter_matches(#[trigger] fs[i], text)
}

/// The compilation of one filter-expression string: parse it and render each
/// term's regex.
pub open spec fn spec_compile(term: Seq<char>) -> Result<Seq<Seq<char>>, ParseError> {
    match spec_terms(term) {
        Ok(ts) => Ok(spec_codegen(ts)),
        Err(e) => Err(e),
    }
}

/// `fs` is the compiled form of the term strings, one filter per term.
pub open spec fn compiled_from(fs: Seq<Seq<Seq<char>>>, terms: Seq<Seq<char>>) -> bool {
    fs.len() == terms.len() && forall|i: int| 0 <= i < terms.len() ==> spec_compile(
        #[trigger] terms[i]) == Ok::<Seq<Seq<char>>, ParseError>(fs[i])
}

/// A compiled filter: one whole-word regex per term of the expression; a
/// text matches when every regex matches somewhere in it.
#[derive(Debug, Clone)]
pub struct Filter {
    patterns: Vec<Vec<char>>,
}

impl View for Filter {
    type V = Seq<Seq<char>>;

    closed spec fn view(&self) -> Seq<Seq<char>> {
        Seq::new(self.patterns@.len(), |i: int| self.patterns@[i]@)
    }
}

impl Filter {
    /// Whether every term regex of this filter matches somewhere in the
    /// input.
    pub fn is_match(&self, input: &str) -> (r: bool)
        ensures
            r == spec_filter_matches(self@, input@),
    {
        let n = self.patterns.len();
        let mut i: usize = 0;
        while i < n
            invariant
                0 <= i <= n,
                n == self@.len(),
                forall|j: int| 0 <= j < i ==> spec_pattern_matches(#[trigger] self@[j], input@),
            decreases n - i,
        {
            proof {
                assert(self@[i as int] == self.patterns@[i as int]@);
            }
            match regex_ci_is_match(&self.patterns[i], input) {
                Some(true) => {},
                Some(false) => {
                    proof {
                        assert(!spec_pattern_matches(self@[i as int], input@));
                    }
                    return false;
                },
                None => {
                    proof {
                        assert(!spec_pattern_matches(self@[i as int], input@));
                    }
                    return false;
                },
            }
            i += 1;
        }
        true
    }

    /// The regex texts of this filter.
    pub fn patterns(&self) -> (r: &Vec<Vec<char>>)
        ensures
            r@.len() == self@.len(),
            forall|i: int| 0 <= i < r@.len() ==> (#[trigger] r@[i])@ == self@[i],
    {
        &self.patterns
    }
}

impl TermFilter {
    /// Compile this filter expression: one whole-word regex per term.
    pub fn codegen(&self) -> (r: Filter)
        ensures
            r@ =~= spec_codegen(self@),
    {
        let n = self.parts.len();
        let mut patterns: Vec<Vec<char>> = Vec::new();
        let mut i: usize = 0;
        while i < n
            invariant
                0 <= i <= n,
                n == self@.len(),
                patterns@.len() == i,
                forall|j: int| 0 <= j < i ==> (#[trigger] patterns@[j])@ == spec_term_regex(
                    self@[j]),
            decreases n - i,
        {
            proof {
                assert(self@[i as int] == self.parts@[i as int]@);
            }
            let rx = self.parts[i].to_regex();
            patterns.push(rx);
            i += 1;
        }
        let f = Filter { patterns };
        proof {
            assert(f@ =~= spec_codegen(self@));
        }
        f
    }
}

/// A set of compiled filters, one per authored term string; a text matches
/// the set when it matches any one filter.
#[derive(Debug, Clone)]
pub struct FilterSet {
    filters: Vec<Filter>,
}

impl View for FilterSet {
    type V = Seq<Seq<Seq<char>>>;

    closed spec fn view(&self) -> Seq<Seq<Seq<char>>> {
        Seq::new(self.filters@.len(), |i: int| self.filters@[i]@)
    }
}

impl FilterSet {
    /// A filter set with no filters (matches nothing).
    pub fn empty() -> (r: FilterSet)
        ensures
            r@ =~= Seq::<Seq<Seq<char>>>::empty(),
    {
        FilterSet { filters: Vec::new() }
    }

    /// Compile a list of term strings, one filter per string. The first
    /// string that fails to parse rejects the whole set with its error.
    pub fn new(terms: &Vec<String>) -> (r: Result<FilterSet, ParseError>)
        ensures
            r matches Ok(fs) ==> compiled_from(fs@, terms.deep_view()),
            (r is Ok) == (forall|i: int| 0 <= i < terms@.len() ==> spec_compile(
                #[trigger] terms.deep_view()[i]) is Ok),
            r matches Err(e) ==> exists|i: int| 0 <= i < terms@.len() && spec_compile(
                #[trigger] terms.deep_view()[i]) == Err::<Seq<Seq<char>>, ParseError>(e)
                && (forall|j: int| 0 <= j < i ==> spec_compile(terms.deep_view()[j]) is Ok),
    {
        let n = terms.len();
        let mut filters: Vec<Filter> = Vec::new();
        let mut i: usize = 0;
        while i < n
            invariant
                0 <= i <= n,
                n == terms@.len(),
                filters@.len() == i,
                forall|j: int| 0 <= j < i ==> spec_compile(#[trigger] terms.deep_view()[j])
                    == Ok::<Seq<Seq<char>>, ParseError>(filters@[j]@),
            decreases n - i,
        {
            proof {
                assert(terms.deep_view()[i as int] == terms@[i as int]@);
            }
            match TermFilter::parse(terms[i].as_str()) {
                Ok(tf) => {
                    let f = tf.codegen();
                    filters.push(f);
                },
                Err(e) => {
                    return Err(e);
                },
            }
            i += 1;
        }
        let fs = FilterSet { filters };
        proof {
            assert(compiled_from(fs@, terms.deep_view())) by {
                assert(fs@.len() == terms.deep_view().len());
                assert forall|j: int| 0 <= j < terms.deep_view().len() implies spec_compile(
                    #[trigger] terms.deep_view()[j]) == Ok::<Seq<Seq<char>>, ParseError>(fs@[j])
                    by {
                    assert(fs@[j] == filters@[j]@);
                }
            }
        }
        Ok(fs)
    }

    /// Whether any one of the filters matches the input.
    pub fn is_match(&self, input: &str) -> (r: bool)
        ensures
            r == spec_fs_matches(self@, input@),
    {
        let n = self.filters.len();
        let mut i: usize = 0;
        while i < n
            invariant
                0 <= i <= n,
                n == self@.len(),
                forall|j: int| 0 <= j < i ==> !spec_filter_matches(#[trigger] self@[j], input@),
            decreases n - i,
        {
            proof {
                assert(self@[i as int] == self.filters@[i as int]@);
            }
            if self.filters[i].is_match(input) {
                return true;
            }
            i += 1;
        }
        false
    }

    /// Append one compiled filter.
    pub fn push_filter(&mut self, f: Filter)
        ensures
            final(self)@ =~= old(self)@.push(f@),
    {
        let ghost old_view = self@;
        self.filters.push(f);
        proof {
            assert(Seq::new(self.filters@.len(), |i: int| self.filters@[i]@) =~= old_view.push(
                f@));
        }
    }

    /// The filters, in term order.
    pub fn filters(&self) -> (r: &Vec<Filter>)
        ensures
            r@.len() == self@.len(),
            forall|i: int| 0 <= i < r@.len() ==> (#[trigger] r@[i])@ == self@[i],
    {
        &self.filters
    }
}

} // verus!
