//! The lexical layer of the filter language: its token shapes and a verified
//! tokenizer.
//!
//! A filter text is whitespace-separated words, the delimiters `( ) { } ,`,
//! and double-quoted literals without escapes.  A word is any run of
//! characters free of whitespace, delimiters and quotes.

use vstd::prelude::*;

use crate::text::chars_to_string;

verus! {

/// One token of the filter language.
#[derive(Debug)]
pub enum Token {
    LParen,
    RParen,
    LBrace,
    RBrace,
    Comma,
    Word(String),
    Quoted(String),
}

/// The mathematical value of a token.
pub enum TokenV {
    LParen,
    RParen,
    LBrace,
    RBrace,
    Comma,
    Word(Seq<char>),
    Quoted(Seq<char>),
}

impl View for Token {
    type V = TokenV;

    open spec fn view(&self) -> TokenV {
        match self {
            Token::LParen => TokenV::LParen,
            Token::RParen => TokenV::RParen,
            Token::LBrace => TokenV::LBrace,
            Token::RBrace => TokenV::RBrace,
            Token::Comma => TokenV::Comma,
            Token::Word(w) => TokenV::Word(w@),
            Token::Quoted(w) => TokenV::Quoted(w@),
        }
    }
}

/// The mathematical value of a token sequence.
pub open spec fn toks_view(ts: Seq<Token>) -> Seq<TokenV> {
    ts.map_values(|t: Token| t@)
}

/// Whitespace between tokens.
pub open spec fn is_space(c: char) -> bool {
    c == ' ' || c == '\n' || c == '\t' || c == '\r'
}

/// The five delimiter characters and the quote.
pub open spec fn is_delim(c: char) -> bool {
    c == '(' || c == ')' || c == '{' || c == '}' || c == ',' || c == '"'
}

/// A character that may stand in a bare word.
pub open spec fn is_word_char(c: char) -> bool {
    !is_space(c) && !is_delim(c)
}

/// The first index at or past `i` whose character cannot stand in a word, or
/// the text's length when the word runs to its end.
pub open spec fn word_end(cs: Seq<char>, i: int) -> int
    decreases cs.len() - i,
{
    if i < 0 || i >= cs.len() {
        cs.len() as int
    } else if is_word_char(cs[i]) {
        word_end(cs, i + 1)
    } else {
        i
    }
}

/// The first index at or past `i` holding a closing quote, or -1.
pub open spec fn find_quote(cs: Seq<char>, i: int) -> int
    decreases cs.len() - i,
{
    if i < 0 || i >= cs.len() {
        -1
    } else if cs[i] == '"' {
        i
    } else {
        find_quote(cs, i + 1)
    }
}

/// `word_end` stays within the text and never moves backwards.
pub proof fn lemma_word_end_bounds(cs: Seq<char>, i: int)
    requires
        0 <= i <= cs.len(),
    ensures
        i <= word_end(cs, i) <= cs.len(),
        i < cs.len() && is_word_char(cs[i]) ==> i < word_end(cs, i),
    decreases cs.len() - i,
{
    if i < cs.len() && is_word_char(cs[i]) {
        lemma_word_end_bounds(cs, i + 1);
    }
}

/// A found quote lies within the text, at or past `i`, and holds `"`.
pub proof fn lemma_find_quote_bounds(cs: Seq<char>, i: int)
    requires
        0 <= i <= cs.len(),
    ensures
        find_quote(cs, i) == -1 || (i <= find_quote(cs, i) < cs.len() && cs[find_quote(cs, i)]
            == '"'),
    decreases cs.len() - i,
{
    if i < cs.len() && cs[i] != '"' {
        lemma_find_quote_bounds(cs, i + 1);
    }
}

/// Prepends a token to a tokenization outcome.
pub open spec fn cons_tok(t: TokenV, rest: Option<Seq<TokenV>>) -> Option<Seq<TokenV>> {
    match rest {
        Option::Some(r) => Option::Some(seq![t] + r),
        Option::None => Option::None,
    }
}

/// The tokens of `cs` from position `i` on; `None` on an unterminated
/// quoted literal.
pub open spec fn spec_tokenize_at(cs: Seq<char>, i: int) -> Option<Seq<TokenV>>
    decreases cs.len() - i,
{
    if i < 0 || i >= cs.len() {
        Option::Some(Seq::empty())
    } else {
        let c = cs[i];
        if is_space(c) {
            spec_tokenize_at(cs, i + 1)
        } else if c == '(' {
            cons_tok(TokenV::LParen, spec_tokenize_at(cs, i + 1))
        } else if c == ')' {
            cons_tok(TokenV::RParen, spec_tokenize_at(cs, i + 1))
        } else if c == '{' {
            cons_tok(TokenV::LBrace, spec_tokenize_at(cs, i + 1))
        } else if c == '}' {
            cons_tok(TokenV::RBrace, spec_tokenize_at(cs, i + 1))
        } else if c == ',' {
            cons_tok(TokenV::Comma, spec_tokenize_at(cs, i + 1))
        } else if c == '"' {
            let j = find_quote(cs, i + 1);
            if j < 0 {
                Option::None
            } else {
                let nxt = if j + 1 > i && j + 1 <= cs.len() {
                    j + 1
                } else {
                    i + 1
                };
                let lit = if i + 1 <= j <= cs.len() {
                    cs.subrange(i + 1, j)
                } else {
                    Seq::empty()
                };
                cons_tok(TokenV::Quoted(lit), spec_tokenize_at(cs, nxt))
            }
        } else {
            let j = word_end(cs, i);
            let nxt = if j > i && j <= cs.len() {
                j
            } else {
                i + 1
            };
            cons_tok(TokenV::Word(cs.subrange(i, nxt)), spec_tokenize_at(cs, nxt))
        }
    }
}

/// The whole text's tokens.
pub open spec fn spec_tokenize(cs: Seq<char>) -> Option<Seq<TokenV>> {
    spec_tokenize_at(cs, 0)
}

/// Appends tokens already read in front of a tokenization outcome.
pub open spec fn cat_toks(pre: Seq<TokenV>, rest: Option<Seq<TokenV>>) -> Option<Seq<TokenV>> {
    match rest {
        Option::Some(r) => Option::Some(pre + r),
        Option::None => Option::None,
    }
}

/// The end of the word starting at `i`.
fn word_end_exec(cs: &Vec<char>, i: usize) -> (r: usize)
    requires
        i <= cs@.len(),
    ensures
        r as int == word_end(cs@, i as int),
        i <= r <= cs@.len(),
{
    proof {
        lemma_word_end_bounds(cs@, i as int);
    }
    let mut j: usize = i;
    while j < cs.len()
        invariant
            i <= j <= cs@.len(),
            word_end(cs@, i as int) == word_end(cs@, j as int),
        decreases cs@.len() - j,
    {
        if !is_word_char_exec(cs[j]) {
            return j;
        }
        j = j + 1;
    }
    j
}

/// The next quote at or past `i`, if any.
fn find_quote_exec(cs: &Vec<char>, i: usize) -> (r: Option<usize>)
    requires
        i <= cs@.len(),
    ensures
        match r {
            Option::Some(j) => j as int == find_quote(cs@, i as int) && i <= j < cs@.len(),
            Option::None => find_quote(cs@, i as int) == -1,
        },
{
    proof {
        lemma_find_quote_bounds(cs@, i as int);
    }
    let mut j: usize = i;
    while j < cs.len()
        invariant
            i <= j <= cs@.len(),
            find_quote(cs@, i as int) == find_quote(cs@, j as int),
        decreases cs@.len() - j,
    {
        if cs[j] == '"' {
            return Option::Some(j);
        }
        j = j + 1;
    }
    Option::None
}

/// Whether `c` may stand in a bare word, as `is_word_char` has it.
fn is_word_char_exec(c: char) -> (r: bool)
    ensures
        r == is_word_char(c),
{
    !(c == ' ' || c == '\n' || c == '\t' || c == '\r' || c == '(' || c == ')' || c == '{' || c
        == '}' || c == ',' || c == '"')
}

/// The characters `cs[from..to]` as a fresh vector.
pub fn chars_subrange(cs: &Vec<char>, from: usize, to: usize) -> (r: Vec<char>)
    requires
        from <= to <= cs@.len(),
    ensures
        r@ == cs@.subrange(from as int, to as int),
{
    let mut out: Vec<char> = Vec::new();
    let mut i: usize = from;
    while i < to
        invariant
            from <= i <= to <= cs@.len(),
            out@ == cs@.subrange(from as int, i as int),
        decreases to - i,
    {
        out.push(cs[i]);
        proof {
            assert(cs@.subrange(from as int, i + 1) =~= cs@.subrange(from as int, i as int).push(
                cs@[i as int],
            ));
        }
        i = i + 1;
    }
    proof {
        assert(out@ =~= cs@.subrange(from as int, to as int));
    }
    out
}

/// Tokenizes `cs`, exactly as `spec_tokenize` gives it.
#[verifier::loop_isolation(false)]
pub fn tokenize(cs: &Vec<char>) -> (r: Option<Vec<Token>>)
    ensures
        match r {
            Option::Some(v) => spec_tokenize(cs@) == Option::Some(toks_view(v@)),
            Option::None => spec_tokenize(cs@) is None,
        },
{
    let mut out: Vec<Token> = Vec::new();
    let mut i: usize = 0;
    proof {
        assert(toks_view(out@) =~= Seq::<TokenV>::empty());
    }
    while i < cs.len()
        invariant
            i <= cs@.len(),
            spec_tokenize(cs@) == cat_toks(toks_view(out@), spec_tokenize_at(cs@, i as int)),
        decreases cs@.len() - i,
    {
        let ghost out0 = toks_view(out@);
        let c = cs[i];
        if c == ' ' || c == '\n' || c == '\t' || c == '\r' {
            i = i + 1;
        } else if c == '(' || c == ')' || c == '{' || c == '}' || c == ',' {
            let t = if c == '(' {
                Token::LParen
            } else if c == ')' {
                Token::RParen
            } else if c == '{' {
                Token::LBrace
            } else if c == '}' {
                Token::RBrace
            } else {
                Token::Comma
            };
            let ghost tv = t@;
            out.push(t);
            proof {
                assert(toks_view(out@) =~= out0.push(tv));
                assert(spec_tokenize_at(cs@, i as int) == cons_tok(
                    tv,
                    spec_tokenize_at(cs@, i + 1),
                ));
                assert(match spec_tokenize_at(cs@, i + 1) {
                    Option::Some(r) => out0.push(tv) + r =~= out0 + (seq![tv] + r),
                    Option::None => true,
                });
            }
            i = i + 1;
        } else if c == '"' {
            match find_quote_exec(cs, i + 1) {
                Option::None => {
                    return Option::None;
                },
                Option::Some(j) => {
                    let lit = chars_subrange(cs, i + 1, j);
                    let t = Token::Quoted(chars_to_string(&lit));
                    let ghost tv = t@;
                    out.push(t);
                    proof {
                        assert(toks_view(out@) =~= out0.push(tv));
                        assert(spec_tokenize_at(cs@, i as int) == cons_tok(
                            tv,
                            spec_tokenize_at(cs@, j + 1),
                        ));
                        assert(match spec_tokenize_at(cs@, j + 1) {
                            Option::Some(r) => out0.push(tv) + r =~= out0 + (seq![tv] + r),
                            Option::None => true,
                        });
                    }
                    i = j + 1;
                },
            }
        } else {
            let j = word_end_exec(cs, i);
            proof {
                lemma_word_end_bounds(cs@, i as int);
            }
            let w = chars_subrange(cs, i, j);
            let t = Token::Word(chars_to_string(&w));
            let ghost tv = t@;
            out.push(t);
            proof {
                assert(toks_view(out@) =~= out0.push(tv));
                assert(spec_tokenize_at(cs@, i as int) == cons_tok(
                    tv,
                    spec_tokenize_at(cs@, j as int),
                ));
                assert(match spec_tokenize_at(cs@, j as int) {
                    Option::Some(r) => out0.push(tv) + r =~= out0 + (seq![tv] + r),
                    Option::None => true,
                });
            }
            i = j;
        }
    }
    proof {
        assert(spec_tokenize_at(cs@, cs@.len() as int) == Option::Some(Seq::<TokenV>::empty()));
        assert(toks_view(out@) + Seq::<TokenV>::empty() =~= toks_view(out@));
    }
    Option::Some(out)
}

} // verus!
