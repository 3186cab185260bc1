use crate::dump_snapshot::names_view;
use crate::text::{
    decimal_u64, digits_of, format_u64, number_error_text, number_fault, read_u64,
    split_whitespace, words,
};
use vstd::string::*;
use vstd::prelude::*;

verus! {

/// A word of the input and the number of the line it stands on.
#[derive(Debug)]
pub struct Token {
    value: String,
    line_number: usize,
}

/// The mathematical value of a [`Token`].
pub ghost struct TokenView {
    pub value: Seq<char>,
    pub line_number: nat,
}

impl View for Token {
    type V = TokenView;

    closed spec fn view(&self) -> TokenView {
        TokenView { value: self.value@, line_number: self.line_number as nat }
    }
}

impl Token {
    /// The token `value` of line `line_number`.
    pub fn new(value: String, line_number: usize) -> (r: Self)
        ensures
            r@ == (TokenView { value: value@, line_number: line_number as nat }),
    {
        Self { value, line_number }
    }

    /// The text of the token.
    pub fn value(&self) -> (r: &str)
        ensures
            r@ == self@.value,
    {
        self.value.as_str()
    }

    /// The number of the line that the token stands on, counted from one.
    pub fn line_number(&self) -> (r: usize)
        ensures
            r == self@.line_number,
    {
        self.line_number
    }
}

impl Clone for Token {
    fn clone(&self) -> (r: Self)
        ensures
            r@ == self@,
    {
        Token { value: self.value.clone(), line_number: self.line_number }
    }
}

/// What was said of a token that does not read as what was asked for, or
/// of a line that could not be had, with the number of the line.
#[derive(Debug)]
pub struct ParseError {
    line_number: usize,
    source: String,
}

impl View for ParseError {
    type V = TokenView;

    closed spec fn view(&self) -> TokenView {
        TokenView { value: self.source@, line_number: self.line_number as nat }
    }
}

impl ParseError {
    /// The error for the text `source` on line `line_number`.
    pub fn new(line_number: usize, source: String) -> (r: Self)
        ensures
            r@ == (TokenView { value: source@, line_number: line_number as nat }),
    {
        Self { line_number, source }
    }

    /// The number of the line that the error is on, counted from one.
    pub fn line_number(&self) -> (r: usize)
        ensures
            r == self@.line_number,
    {
        self.line_number
    }

    /// What was said of the token or the line.
    pub fn source(&self) -> (r: &str)
        ensures
            r@ == self@.value,
    {
        self.source.as_str()
    }

    /// The error as text: the line, then what was said.
    pub fn describe(&self) -> (r: String)
        ensures
            r@ == error_text(self@),
    {
        let mut r: String = "line ".to_owned();
        r.append(format_u64(self.line_number as u64).as_str());
        r.append(": ");
        r.append(self.source.as_str());
        r
    }
}

/// What is shown of an error: `line`, the number of the line, a colon and
/// what was said.
pub open spec fn error_text(e: TokenView) -> Seq<char> {
    "line "@ + digits_of(e.line_number) + ": "@ + e.value
}

impl Clone for ParseError {
    fn clone(&self) -> (r: Self)
        ensures
            r@ == self@,
    {
        ParseError { line_number: self.line_number, source: self.source.clone() }
    }
}

/// What a parser hands out: a token, or the error of a line that could
/// not be had.
pub type EntryView = Result<TokenView, TokenView>;

/// The words `texts`, each as a token of line `line_number`.
pub open spec fn tokens_of_line(texts: Seq<Seq<char>>, line_number: nat) -> Seq<EntryView> {
    Seq::new(
        texts.len(),
        |i: int| Ok::<TokenView, TokenView>(TokenView { value: texts[i], line_number }),
    )
}

/// What line `line_number` gives: its words as tokens, or, for a line that
/// could not be had, one error that holds what was said of it.
pub open spec fn entries_of_line(
    line: Result<Seq<char>, Seq<char>>,
    line_number: nat,
) -> Seq<EntryView> {
    match line {
        Ok(text) => tokens_of_line(words(text), line_number),
        Err(said) => seq![Err::<TokenView, TokenView>(TokenView { value: said, line_number })],
    }
}

/// The tokens of a text: what each line gives in turn, the first line
/// being line one.
pub open spec fn tokens_of(lines: Seq<Result<Seq<char>, Seq<char>>>) -> Seq<EntryView>
    decreases lines.len(),
{
    if lines.len() == 0 {
        Seq::empty()
    } else {
        tokens_of(lines.drop_last()) + entries_of_line(lines.last(), lines.len())
    }
}

/// The view of a line: its text, or what was said of a line that could
/// not be had.
pub open spec fn line_view(line: Result<String, String>) -> Result<Seq<char>, Seq<char>> {
    match line {
        Ok(text) => Ok(text@),
        Err(said) => Err(said@),
    }
}

/// The views of a vector of lines.
pub open spec fn lines_view(lines: Seq<Result<String, String>>) -> Seq<
    Result<Seq<char>, Seq<char>>,
> {
    Seq::new(lines.len(), |i: int| line_view(lines[i]))
}

/// The view of what a parser hands out.
pub open spec fn entry_view(entry: Result<Token, ParseError>) -> EntryView {
    match entry {
        Ok(token) => Ok(token@),
        Err(e) => Err(e@),
    }
}

/// The views of a vector of tokens and errors.
pub open spec fn tokens_view(tokens: Seq<Result<Token, ParseError>>) -> Seq<EntryView> {
    Seq::new(tokens.len(), |i: int| entry_view(tokens[i]))
}

/// What is handed out for an entry that is read as a number: the number
/// that a token writes; for a token that writes none an error on the
/// token's line that says why; and the error of a line that could not be
/// had as it is.
pub open spec fn number_of(entry: EntryView) -> Result<u64, TokenView> {
    match entry {
        Ok(token) => match decimal_u64(token.value) {
            Some(n) => Ok(n),
            None => Err(
                TokenView {
                    value: number_error_text(number_fault(token.value).unwrap()),
                    line_number: token.line_number,
                },
            ),
        },
        Err(e) => Err(e),
    }
}

/// Hands out the tokens of a text one after the other.
pub struct Parser {
    tokens: Vec<Result<Token, ParseError>>,
    position: usize,
}

impl View for Parser {
    type V = Seq<EntryView>;

    /// The tokens that are still to come.
    closed spec fn view(&self) -> Seq<EntryView> {
        if self.position <= self.tokens@.len() {
            tokens_view(self.tokens@).skip(self.position as int)
        } else {
            Seq::empty()
        }
    }
}

/// Takes the entry at `position` out of `tokens`, if there is one.
fn take_token(tokens: &Vec<Result<Token, ParseError>>, position: &mut usize) -> (r: Option<
    Result<Token, ParseError>,
>)
    requires
        *old(position) <= tokens@.len(),
    ensures
        *final(position) <= tokens@.len(),
        match r {
            Some(entry) => *old(position) < tokens@.len() && entry_view(entry) == entry_view(
                tokens@[*old(position) as int],
            ) && *final(position) == *old(position) + 1,
            None => *old(position) == tokens@.len() && *final(position) == *old(position),
        },
{
    if *position < tokens.len() {
        let entry = match &tokens[*position] {
            Ok(token) => Ok(token.clone()),
            Err(e) => Err(e.clone()),
        };
        *position = *position + 1;
        Some(entry)
    } else {
        None
    }
}

/// Reads an entry as a number.
fn read_number(entry: Result<Token, ParseError>) -> (r: Result<u64, ParseError>)
    ensures
        match r {
            Ok(n) => number_of(entry_view(entry)) == Ok::<u64, TokenView>(n),
            Err(e) => number_of(entry_view(entry)) == Err::<u64, TokenView>(e@),
        },
{
    match entry {
        Ok(token) => match read_u64(token.value()) {
            Ok(n) => Ok(n),
            Err(why) => Err(ParseError::new(token.line_number, why.describe())),
        },
        Err(e) => Err(e),
    }
}

impl Parser {
    /// Whether the position lies within the tokens.
    pub closed spec fn wf(&self) -> bool {
        self.position <= self.tokens@.len()
    }

    /// A parser over the tokens of `lines`, where a line is its text, or
    /// what is to be said of a line that could not be had.
    pub fn new(lines: Vec<Result<String, String>>) -> (r: Self)
        requires
            lines@.len() < usize::MAX,
        ensures
            r.wf(),
            r@ == tokens_of(lines_view(lines@)),
    {
        let mut tokens: Vec<Result<Token, ParseError>> = Vec::new();
        let mut i: usize = 0;
        let ghost texts = lines_view(lines@);
        while i < lines.len()
            invariant
                i <= lines@.len(),
                lines@.len() < usize::MAX,
                texts == lines_view(lines@),
                tokens_view(tokens@) == tokens_of(texts.take(i as int)),
            decreases lines@.len() - i,
        {
            let ghost before = tokens_view(tokens@);
            let ghost fresh = entries_of_line(texts[i as int], (i + 1) as nat);
            proof {
                assert(texts.take(i + 1).drop_last() =~= texts.take(i as int));
                assert(texts.take(i + 1).last() == texts[i as int]);
            }
            match &lines[i] {
                Ok(text) => {
                    let found = split_whitespace(text.as_str());
                    let mut k: usize = 0;
                    while k < found.len()
                        invariant
                            k <= found@.len(),
                            i < lines@.len(),
                            lines@.len() < usize::MAX,
                            names_view(found@) == words(text@),
                            fresh == tokens_of_line(words(text@), (i + 1) as nat),
                            tokens_view(tokens@) == before + fresh.take(k as int),
                        decreases found@.len() - k,
                    {
                        let ghost earlier = tokens_view(tokens@);
                        tokens.push(Ok(Token::new(found[k].clone(), i + 1)));
                        proof {
                            assert(names_view(found@)[k as int] == found@[k as int]@);
                            assert(tokens_view(tokens@) =~= earlier.push(fresh[k as int]));
                            assert(fresh.take(k + 1) =~= fresh.take(k as int).push(
                                fresh[k as int],
                            ));
                            assert(before + fresh.take(k + 1) =~= (before + fresh.take(
                                k as int,
                            )).push(fresh[k as int]));
                        }
                        k += 1;
                    }
                    proof {
                        assert(names_view(found@).len() == found@.len());
                        assert(fresh.take(k as int) =~= fresh);
                    }
                },
                Err(said) => {
                    tokens.push(Err(ParseError::new(i + 1, said.clone())));
                    proof {
                        assert(tokens_view(tokens@) =~= before + fresh);
                    }
                },
            }
            i += 1;
        }
        proof {
            assert(texts.take(i as int) =~= texts);
            assert(tokens_view(tokens@).skip(0) =~= tokens_view(tokens@));
        }
        Parser { tokens, position: 0 }
    }

    /// The next token, or the error of the next line where that line could
    /// not be had; `None` when all were handed out.
    pub fn next(&mut self) -> (r: Option<Result<Token, ParseError>>)
        requires
            old(self).wf(),
        ensures
            final(self).wf(),
            match r {
                Some(entry) => old(self)@.len() > 0 && entry_view(entry) == old(self)@[0]
                    && final(self)@ == old(self)@.skip(1),
                None => old(self)@.len() == 0 && final(self)@ == old(self)@,
            },
    {
        let r = take_token(&self.tokens, &mut self.position);
        proof {
            if r.is_some() {
                assert(final(self)@ =~= old(self)@.skip(1));
            }
        }
        r
    }

    /// The next token read as a number, or `None` when all were handed out.
    pub fn next_u64(&mut self) -> (r: Option<Result<u64, ParseError>>)
        requires
            old(self).wf(),
        ensures
            final(self).wf(),
            match r {
                Some(Ok(n)) => old(self)@.len() > 0 && number_of(old(self)@[0]) == Ok::<
                    u64,
                    TokenView,
                >(n) && final(self)@ == old(self)@.skip(1),
                Some(Err(e)) => old(self)@.len() > 0 && number_of(old(self)@[0]) == Err::<
                    u64,
                    TokenView,
                >(e@) && final(self)@ == old(self)@.skip(1),
                None => old(self)@.len() == 0 && final(self)@ == old(self)@,
            },
    {
        match self.next() {
            Some(entry) => Some(read_number(entry)),
            None => None,
        }
    }

    /// An iterator over the tokens that are still to come. It hands out the
    /// parser's own tokens: what it has handed out the parser has left
    /// behind, and what it has not is still the parser's to hand out.
    pub fn into_iter(&mut self) -> (r: ParserIterator<'_>)
        requires
            old(self).wf(),
        ensures
            *r.parser == *old(self),
            *final(r.parser) == *final(self),
    {
        ParserIterator { parser: self }
    }
}

/// The tokens that a parser has left, handed out one after the other,
/// each taken from the parser.
pub struct ParserIterator<'a> {
    pub parser: &'a mut Parser,
}

impl<'a> ParserIterator<'a> {
    /// The next token of the parser, or the error of the next line where
    /// that line could not be had; `None` when all were handed out.
    pub fn next(&mut self) -> (r: Option<Result<Token, ParseError>>)
        requires
            old(self).parser.wf(),
        ensures
            final(self).parser.wf(),
            *final(final(self).parser) == *final(old(self).parser),
            match r {
                Some(entry) => old(self).parser@.len() > 0 && entry_view(entry) == old(
                    self,
                ).parser@[0] && final(self).parser@ == old(self).parser@.skip(1),
                None => old(self).parser@.len() == 0 && final(self).parser@ == old(self).parser@,
            },
    {
        self.parser.next()
    }

    /// The next token of the parser read as a number, or `None` when all
    /// were handed out.
    pub fn next_u64(&mut self) -> (r: Option<Result<u64, ParseError>>)
        requires
            old(self).parser.wf(),
        ensures
            final(self).parser.wf(),
            *final(final(self).parser) == *final(old(self).parser),
            match r {
                Some(Ok(n)) => old(self).parser@.len() > 0 && number_of(old(self).parser@[0])
                    == Ok::<u64, TokenView>(n) && final(self).parser@ == old(self).parser@.skip(1),
                Some(Err(e)) => old(self).parser@.len() > 0 && number_of(old(self).parser@[0])
                    == Err::<u64, TokenView>(e@) && final(self).parser@ == old(
                    self,
                ).parser@.skip(1),
                None => old(self).parser@.len() == 0 && final(self).parser@ == old(self).parser@,
            },
    {
        self.parser.next_u64()
    }
}

} // verus!
