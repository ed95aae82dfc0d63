//! Tokens of an arithmetic expression, and the tokenizer.

use vstd::prelude::*;
use vstd::string::StrSliceExecFns;
use vstd::string::StringSliceAdditionalSpecFns;

verus! {

/// A binary operator.
#[derive(Debug, Clone, Copy, PartialEq, Eq, Structural)]
pub enum Op {
    Add,
    Sub,
    Mul,
    Div,
}

/// A token.
#[derive(Debug, PartialEq, Clone)]
pub enum Token {
    LPAR,
    RPAR,
    ADD,
    SUB,
    MUL,
    DIV,
    /// A run of decimal digits, as written.
    NUMBER(String),
    /// The end of the input.
    END,
}

/// What a `Token` is, mathematically.
pub enum TokenView {
    LPAR,
    RPAR,
    ADD,
    SUB,
    MUL,
    DIV,
    NUMBER(Seq<char>),
    END,
}

impl View for Token {
    type V = TokenView;

    open spec fn view(&self) -> TokenView {
        match self {
            Token::LPAR => TokenView::LPAR,
            Token::RPAR => TokenView::RPAR,
            Token::ADD => TokenView::ADD,
            Token::SUB => TokenView::SUB,
            Token::MUL => TokenView::MUL,
            Token::DIV => TokenView::DIV,
            Token::NUMBER(digits) => TokenView::NUMBER(digits@),
            Token::END => TokenView::END,
        }
    }
}

/// The views of a sequence of tokens.
pub open spec fn views(tokens: Seq<Token>) -> Seq<TokenView> {
    tokens.map_values(|t: Token| t@)
}

/// What went wrong in reading an expression.
#[derive(Debug, Clone, Copy, PartialEq, Eq, Structural)]
pub enum ParseError {
    /// A token that is no operator was asked for its operator.
    NotOp,
    /// A character that is no token by itself was asked for its token.
    UnknownSingleCharToken,
    /// A closing parenthesis is missing.
    RparExpected,
    /// A number or an opening parenthesis is missing.
    FactorExpected,
}

/// The operator that a token stands for, if it stands for one.
pub open spec fn op_of(token: TokenView) -> Option<Op> {
    match token {
        TokenView::ADD => Some(Op::Add),
        TokenView::SUB => Some(Op::Sub),
        TokenView::MUL => Some(Op::Mul),
        TokenView::DIV => Some(Op::Div),
        _ => None,
    }
}

/// The token that a character is by itself, if it is one.
pub open spec fn punctuation(ch: char) -> Option<TokenView> {
    if ch == '+' {
        Some(TokenView::ADD)
    } else if ch == '-' {
        Some(TokenView::SUB)
    } else if ch == '*' {
        Some(TokenView::MUL)
    } else if ch == '/' {
        Some(TokenView::DIV)
    } else if ch == '(' {
        Some(TokenView::LPAR)
    } else if ch == ')' {
        Some(TokenView::RPAR)
    } else {
        None
    }
}

/// Whether `ch` is a decimal digit.
pub open spec fn is_digit(ch: char) -> bool {
    '0' <= ch <= '9'
}

/// Whether `ch` separates tokens without being one.
pub open spec fn is_blank(ch: char) -> bool {
    ch == ' ' || ch == '\t'
}

/// Whether `ch` may occur in an expression.
pub open spec fn is_known(ch: char) -> bool {
    is_digit(ch) || is_blank(ch) || punctuation(ch) is Some
}

/// Length of the longest run of digits that `text` starts with.
pub open spec fn digits_len(text: Seq<char>) -> nat
    decreases text.len(),
{
    if text.len() > 0 && is_digit(text[0]) {
        1 + digits_len(text.skip(1))
    } else {
        0
    }
}

/// `first` followed by `rest`, where there is a rest.
pub open spec fn then_tokens(first: Seq<TokenView>, rest: Option<Seq<TokenView>>) -> Option<
    Seq<TokenView>,
> {
    match rest {
        Some(rest) => Some(first + rest),
        None => None,
    }
}

/// The tokens of `text`, closed by `END`: each punctuation character is a
/// token, each longest run of digits is a number, blanks separate. There are
/// none if `text` holds any other character.
pub open spec fn tokens_of(text: Seq<char>) -> Option<Seq<TokenView>>
    decreases text.len(),
{
    if text.len() == 0 {
        Some(seq![TokenView::END])
    } else if is_blank(text[0]) {
        tokens_of(text.skip(1))
    } else if punctuation(text[0]) is Some {
        then_tokens(seq![punctuation(text[0]).unwrap()], tokens_of(text.skip(1)))
    } else if is_digit(text[0]) {
        proof {
            lemma_digits_len(text);
        }
        then_tokens(
            seq![TokenView::NUMBER(text.take(digits_len(text) as int))],
            tokens_of(text.skip(digits_len(text) as int)),
        )
    } else {
        None
    }
}

impl Op {
    /// The operator that `token` stands for.
    pub fn from_token(token: &Token) -> (r: Result<Op, ParseError>)
        ensures
            match r {
                Ok(op) => op_of(token@) == Some(op),
                Err(e) => op_of(token@) is None && e == ParseError::NotOp,
            },
    {
        match token {
            Token::ADD => Ok(Op::Add),
            Token::SUB => Ok(Op::Sub),
            Token::MUL => Ok(Op::Mul),
            Token::DIV => Ok(Op::Div),
            _ => Err(ParseError::NotOp),
        }
    }

    /// The character that the operator is written as.
    pub fn symbol(&self) -> (r: char)
        ensures
            punctuation(r) is Some,
            op_of(punctuation(r).unwrap()) == Some(*self),
    {
        match self {
            Op::Add => '+',
            Op::Sub => '-',
            Op::Mul => '*',
            Op::Div => '/',
        }
    }
}

impl Token {
    /// The token that `ch` is by itself.
    pub fn single_char_token(ch: char) -> (r: Result<Token, ParseError>)
        ensures
            match r {
                Ok(token) => punctuation(ch) == Some(token@),
                Err(e) => punctuation(ch) is None && e == ParseError::UnknownSingleCharToken,
            },
    {
        if ch == '+' {
            Ok(Token::ADD)
        } else if ch == '-' {
            Ok(Token::SUB)
        } else if ch == '*' {
            Ok(Token::MUL)
        } else if ch == '/' {
            Ok(Token::DIV)
        } else if ch == '(' {
            Ok(Token::LPAR)
        } else if ch == ')' {
            Ok(Token::RPAR)
        } else {
            Err(ParseError::UnknownSingleCharToken)
        }
    }
}

/// The run of digits at the start of a text is no longer than the text, is
/// made of digits, and ends at the text's end or before a character that is
/// no digit.
pub proof fn lemma_digits_len(text: Seq<char>)
    ensures
        digits_len(text) <= text.len(),
        forall|i: int| 0 <= i < digits_len(text) ==> is_digit(#[trigger] text[i]),
        digits_len(text) < text.len() ==> !is_digit(text[digits_len(text) as int]),
    decreases text.len(),
{
    if text.len() > 0 && is_digit(text[0]) {
        lemma_digits_len(text.skip(1));
        assert forall|i: int| 0 <= i < digits_len(text) implies is_digit(#[trigger] text[i]) by {
            if i > 0 {
                assert(text[i] == text.skip(1)[i - 1]);
            }
        }
    }
}

/// A text has tokens if and only if every character of it is known.
pub proof fn lemma_tokens_exist(text: Seq<char>)
    ensures
        tokens_of(text) is Some <==> forall|i: int|
            0 <= i < text.len() ==> is_known(#[trigger] text[i]),
    decreases text.len(),
{
    if text.len() == 0 {
    } else if is_blank(text[0]) || punctuation(text[0]) is Some {
        let rest = text.skip(1);
        lemma_tokens_exist(rest);
        if tokens_of(text) is Some {
            assert forall|i: int| 0 <= i < text.len() implies is_known(#[trigger] text[i]) by {
                if i > 0 {
                    assert(text[i] == rest[i - 1]);
                }
            }
        } else {
            let i = choose|i: int| 0 <= i < rest.len() && !is_known(#[trigger] rest[i]);
            assert(!is_known(text[i + 1]));
        }
    } else if is_digit(text[0]) {
        let n = digits_len(text) as int;
        let rest = text.skip(n);
        lemma_digits_len(text);
        lemma_tokens_exist(rest);
        if tokens_of(text) is Some {
            assert forall|i: int| 0 <= i < text.len() implies is_known(#[trigger] text[i]) by {
                if i >= n {
                    assert(text[i] == rest[i - n]);
                }
            }
        } else {
            let i = choose|i: int| 0 <= i < rest.len() && !is_known(#[trigger] rest[i]);
            assert(!is_known(text[i + n]));
        }
    } else {
        assert(!is_known(text[0]));
    }
}

/// A run of digits that ends at the text's end or before a character that is
/// no digit is the longest run of digits that the text starts with.
pub proof fn lemma_digits_len_is(text: Seq<char>, n: nat)
    requires
        n <= text.len(),
        forall|i: int| 0 <= i < n ==> is_digit(#[trigger] text[i]),
        n < text.len() ==> !is_digit(text[n as int]),
    ensures
        digits_len(text) == n,
    decreases n,
{
    if n > 0 {
        let rest = text.skip(1);
        assert forall|i: int| 0 <= i < n - 1 implies is_digit(#[trigger] rest[i]) by {
            assert(rest[i] == text[i + 1]);
        }
        lemma_digits_len_is(rest, (n - 1) as nat);
    }
}

/// Tokens that were read, followed by one more and then by the rest, are the
/// tokens that were read and the one more, followed by the rest.
proof fn lemma_then_push(done: Seq<Token>, token: Token, rest: Option<Seq<TokenView>>)
    ensures
        then_tokens(views(done), then_tokens(seq![token@], rest)) == then_tokens(
            views(done.push(token)),
            rest,
        ),
{
    assert(views(done.push(token)) =~= views(done) + seq![token@]);
    if let Some(r) = rest {
        assert(views(done) + (seq![token@] + r) =~= (views(done) + seq![token@]) + r);
    }
}

/// Splits `input` into tokens and closes them with `Token::END`. Fails if
/// `input` holds a character that is no digit, no blank and no token.
pub fn tokenize(input: &str) -> (r: Result<Vec<Token>, String>)
    ensures
        match r {
            Ok(tokens) => tokens_of(input@) == Some(views(tokens@)),
            Err(message) => tokens_of(input@) is None && message@ == "Unknown char found"@,
        },
{
    broadcast use vstd::string::is_ascii_spec_bytes;

    proof {
        lemma_tokens_exist(input@);
    }
    if !input.is_ascii() {
        return Err("Unknown char found".to_owned());
    }
    let bytes = input.as_bytes();
    let n = bytes.len();
    let mut result: Vec<Token> = Vec::new();
    let mut index: usize = 0;
    assert(input@.skip(0) =~= input@);
    assert(views(result@) + tokens_of(input@).unwrap() =~= tokens_of(input@).unwrap());
    while index < n
        invariant
            vstd::string::is_ascii(input),
            bytes@ == input.spec_bytes(),
            n == input@.len(),
            index <= n,
            tokens_of(input@) == then_tokens(views(result@), tokens_of(input@.skip(index as int))),
        decreases n - index,
    {
        let ghost rest = input@.skip(index as int);
        let ch = bytes[index] as char;
        assert(ch == input@[index as int]);
        assert(rest[0] == ch);
        match Token::single_char_token(ch) {
            Ok(token) => {
                proof {
                    lemma_then_push(result@, token, tokens_of(rest.skip(1)));
                    assert(rest.skip(1) =~= input@.skip(index + 1));
                }
                result.push(token);
                index += 1;
            },
            Err(_) => {
                if ch >= '0' && ch <= '9' {
                    let mut num_index = index + 1;
                    while num_index < n && bytes[num_index] >= 48 && bytes[num_index] <= 57
                        invariant
                            vstd::string::is_ascii(input),
                            bytes@ == input.spec_bytes(),
                            n == input@.len(),
                            index < num_index <= n,
                            forall|k: int|
                                index <= k < num_index ==> is_digit(#[trigger] input@[k]),
                        decreases n - num_index,
                    {
                        num_index += 1;
                    }
                    let digits = input.substring_ascii(index, num_index).to_owned();
                    let token = Token::NUMBER(digits);
                    proof {
                        let len = (num_index - index) as nat;
                        assert forall|i: int| 0 <= i < len implies is_digit(#[trigger] rest[i]) by {
                            assert(rest[i] == input@[index + i]);
                        }
                        if len < rest.len() {
                            assert(rest[len as int] == input@[num_index as int]);
                        }
                        lemma_digits_len_is(rest, len);
                        assert(rest.take(len as int) =~= input@.subrange(
                            index as int,
                            num_index as int,
                        ));
                        assert(rest.skip(len as int) =~= input@.skip(num_index as int));
                        lemma_then_push(result@, token, tokens_of(rest.skip(len as int)));
                    }
                    result.push(token);
                    index = num_index;
                } else if ch == ' ' || ch == '\t' {
                    proof {
                        assert(rest.skip(1) =~= input@.skip(index + 1));
                    }
                    index += 1;
                } else {
                    return Err("Unknown char found".to_owned());
                }
            },
        }
    }
    proof {
        lemma_then_push(result@, Token::END, None);
        assert(views(result@.push(Token::END)) =~= views(result@) + seq![TokenView::END]);
    }
    result.push(Token::END);
    Ok(result)
}

} // verus!
