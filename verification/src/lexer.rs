//! From text to tokens.

use vstd::prelude::*;
use vstd::string::StrSliceExecFns;
use crate::token::{Operator, Token, UnaryOperator, Variable};

verus! {

/// The order in which a token list walks an expression.
#[derive(Debug, Copy, Clone, PartialEq, Eq, Structural)]
pub enum Traversal {
    In,
    Pre,
    Post,
}

/// Why a text or a token list is refused.
#[derive(Debug, Clone, PartialEq, Eq)]
pub enum LexError {
    /// The text holds this run of digits and points, and it is no number.
    MalformedNumber(String),
    /// The token list is not in in-order.
    NotInOrder,
    /// A prefix operator stands where no operand is left for it.
    NoOperand,
}

/// A token list and the order it is in.
#[derive(Debug, PartialEq, Eq)]
pub struct Lexer {
    pub list: Vec<Token>,
    pub ordering: Traversal,
}

/// The texts of `parts`.
pub open spec fn texts(parts: Seq<&str>) -> Seq<Seq<char>> {
    Seq::new(parts.len(), |i: int| parts[i]@)
}

/// What `char::is_numeric` answers for `c`.
pub uninterp spec fn numeric(c: char) -> bool;

/// Asks `char::is_numeric` whether `c` is one of the characters that
/// Unicode classes as numbers. Nothing is proved of the answer; the
/// contract only gives it its name, `numeric(c)`.
#[verifier::external_body]
fn is_numeric(c: char) -> (b: bool)
    ensures
        b == numeric(c),
{
    c.is_numeric()
}

/// Whether `c` can stand in a number: within ASCII a decimal digit or the
/// point, beyond ASCII a character that Unicode classes as a number.
pub open spec fn is_numeral_char(c: char) -> bool {
    if c <= '\u{7f}' {
        ('0' <= c && c <= '9') || c == '.'
    } else {
        numeric(c)
    }
}

/// Where the run that begins at `at` ends: the first position after `at`
/// whose character is not of the kind of the one at `at`, numeral or not,
/// or the end of the text.
pub open spec fn run_end(text: Seq<char>, at: int) -> int
    decreases text.len() - at,
{
    if at + 1 < text.len() && is_numeral_char(text[at + 1]) == is_numeral_char(text[at]) {
        run_end(text, at + 1)
    } else {
        at + 1
    }
}

/// The runs of `text` from `at` on, in their order: each is as long as it
/// can be, and together they are the text from `at` on.
pub open spec fn runs_from(text: Seq<char>, at: int) -> Seq<Seq<char>>
    decreases text.len() - at,
{
    if 0 <= at < text.len() {
        let end = run_end(text, at);
        if at < end <= text.len() {
            seq![text.subrange(at, end)] + runs_from(text, end)
        } else {
            seq![]
        }
    } else {
        seq![]
    }
}

/// The runs of numeral characters and of other characters that make up
/// `text`; the empty text is one empty run.
pub open spec fn runs(text: Seq<char>) -> Seq<Seq<char>> {
    if text.len() == 0 {
        seq![text]
    } else {
        runs_from(text, 0)
    }
}

/// The characters of `s`.
fn chars_of(s: &str) -> (chars: Vec<char>)
    ensures
        chars@ == s@,
{
    let mut chars: Vec<char> = Vec::new();
    for c in it: s.chars()
        invariant
            it.seq() == s@,
            chars@ == it.seq().take(it.index()),
    {
        chars.push(c);
        assert(it.seq().take(it.index() + 1) == it.seq().take(it.index()).push(c));
    }
    assert(s@.take(s@.len() as int) == s@);
    chars
}

fn numeral_char(c: char) -> (b: bool)
    ensures
        b == is_numeral_char(c),
{
    if c <= '\u{7f}' {
        ('0' <= c && c <= '9') || c == '.'
    } else {
        is_numeric(c)
    }
}

/// The end of the run that begins at `at`.
fn find_run_end(text: &Vec<char>, at: usize) -> (end: usize)
    requires
        at < text.len(),
    ensures
        end == run_end(text@, at as int),
        at < end <= text.len(),
{
    let kind = numeral_char(text[at]);
    let mut end = at;
    while end + 1 < text.len() && numeral_char(text[end + 1]) == kind
        invariant
            at <= end < text.len(),
            kind == is_numeral_char(text@[end as int]),
            run_end(text@, end as int) == run_end(text@, at as int),
        decreases text.len() - end,
    {
        end += 1;
    }
    end + 1
}

/// Splits `s` where numbers and other text meet: "12.3x" becomes "12.3" and
/// "x". The parts are the runs of `s`, so a text without such a place comes
/// back whole, the empty one too.
pub fn split_nums<'a>(s: &'a str) -> (res: Result<Vec<&'a str>, LexError>)
    ensures
        res matches Ok(parts) && texts(parts@) == runs(s@),
{
    let chars = chars_of(s);
    let mut parts: Vec<&'a str> = Vec::new();
    if chars.len() == 0 {
        parts.push(s);
        assert(texts(parts@) =~= runs(s@));
        return Ok(parts);
    }
    let mut at: usize = 0;
    while at < chars.len()
        invariant
            chars@ == s@,
            at <= chars.len(),
            texts(parts@) + runs_from(s@, at as int) == runs_from(s@, 0),
        decreases chars.len() - at,
    {
        let end = find_run_end(&chars, at);
        let ghost before = parts@;
        parts.push(s.substring_char(at, end));
        assert(texts(parts@) =~= texts(before) + seq![s@.subrange(at as int, end as int)]);
        assert(texts(parts@) + runs_from(s@, end as int) =~= texts(before) + runs_from(
            s@,
            at as int,
        ));
        at = end;
    }
    assert(texts(parts@) + runs_from(s@, at as int) =~= texts(parts@));
    Ok(parts)
}

/// The prefix operator whose name begins at `at`, if one does.
pub open spec fn keyword_at(text: Seq<char>, at: int) -> Option<UnaryOperator> {
    if 0 <= at && at + 3 <= text.len() {
        let name = text.subrange(at, at + 3);
        if name == seq!['s', 'i', 'n'] {
            Some(UnaryOperator::Sine)
        } else if name == seq!['c', 'o', 's'] {
            Some(UnaryOperator::Cosine)
        } else if name == seq!['t', 'a', 'n'] {
            Some(UnaryOperator::Tangent)
        } else {
            None
        }
    } else {
        None
    }
}

/// The token that `c` is by itself, whatever stands around it.
pub open spec fn symbol(c: char) -> Option<Token> {
    if c == '(' {
        Some(Token::LParen)
    } else if c == ')' {
        Some(Token::RParen)
    } else if c == '+' {
        Some(Token::Op(Operator::Add))
    } else if c == '*' {
        Some(Token::Op(Operator::Multiply))
    } else if c == '/' {
        Some(Token::Op(Operator::Divide))
    } else if c == 'x' {
        Some(Token::Var(Variable::X))
    } else if c == 'y' {
        Some(Token::Var(Variable::Y))
    } else if c == 'z' {
        Some(Token::Var(Variable::Z))
    } else {
        None
    }
}

/// What a minus sign is after the token `last`: a negation at the very
/// beginning, after an operator and after an opening parenthesis, a
/// subtraction after a number, a variable and a closing parenthesis.
pub open spec fn minus_after(last: Option<Token>) -> Token {
    match last {
        None | Some(Token::Op(_)) | Some(Token::UnOp(_)) | Some(Token::LParen) => Token::UnOp(
            UnaryOperator::Negation,
        ),
        Some(Token::Number(_)) | Some(Token::Var(_)) | Some(Token::RParen) => Token::Op(
            Operator::Subtract,
        ),
    }
}

/// `first` before the tokens of `rest`, and the refusal of `rest` as it is.
pub open spec fn after(first: Seq<Token>, rest: Result<Seq<Token>, Seq<char>>) -> Result<
    Seq<Token>,
    Seq<char>,
> {
    match rest {
        Ok(tokens) => Ok(first + tokens),
        Err(numeral) => Err(numeral),
    }
}

/// The bit pattern that `values` holds for the numeral of index `index`.
pub open spec fn value_of(values: Seq<Option<u32>>, index: int) -> Option<u32> {
    if 0 <= index < values.len() {
        values[index]
    } else {
        None
    }
}

/// The numerals of `text` from `at` on, in their order: the runs of digits
/// and points, each as long as it can be.
pub open spec fn numerals_from(text: Seq<char>, at: int) -> Seq<Seq<char>>
    decreases text.len() - at,
{
    if 0 <= at < text.len() {
        let end = run_end(text, at);
        if !is_numeral_char(text[at]) {
            numerals_from(text, at + 1)
        } else if at < end <= text.len() {
            seq![text.subrange(at, end)] + numerals_from(text, end)
        } else {
            seq![]
        }
    } else {
        seq![]
    }
}

/// The tokens of `text` from `at` on, where `used` numerals stand before
/// `at` and `last` is the token before `at`, if there is one.
///
/// A numeral is the number whose bit pattern `values` holds for it, by its
/// index among the numerals of the text; the first numeral without one ends
/// the list and is the refusal. The name of a prefix operator is that
/// operator, a minus sign is what `minus_after` says, and one of the other
/// symbols is its token. Any other character is passed over.
pub open spec fn tokens_from(
    text: Seq<char>,
    at: int,
    values: Seq<Option<u32>>,
    used: int,
    last: Option<Token>,
) -> Result<Seq<Token>, Seq<char>>
    decreases text.len() - at,
{
    if 0 <= at < text.len() {
        let c = text[at];
        let end = run_end(text, at);
        if is_numeral_char(c) {
            if at < end <= text.len() {
                match value_of(values, used) {
                    Some(bits) => after(
                        seq![Token::Number(bits)],
                        tokens_from(text, end, values, used + 1, Some(Token::Number(bits))),
                    ),
                    None => Err(text.subrange(at, end)),
                }
            } else {
                Ok(seq![])
            }
        } else if let Some(name) = keyword_at(text, at) {
            after(
                seq![Token::UnOp(name)],
                tokens_from(text, at + 3, values, used, Some(Token::UnOp(name))),
            )
        } else if c == '-' {
            after(
                seq![minus_after(last)],
                tokens_from(text, at + 1, values, used, Some(minus_after(last))),
            )
        } else if let Some(token) = symbol(c) {
            after(seq![token], tokens_from(text, at + 1, values, used, Some(token)))
        } else {
            tokens_from(text, at + 1, values, used, last)
        }
    } else {
        Ok(seq![])
    }
}

/// The numerals of `text`, in their order.
pub open spec fn numerals_of(text: Seq<char>) -> Seq<Seq<char>> {
    numerals_from(text, 0)
}

/// The tokens of `text`, or the first of its numerals for which `values`
/// holds no bit pattern.
pub open spec fn tokens_of(text: Seq<char>, values: Seq<Option<u32>>) -> Result<
    Seq<Token>,
    Seq<char>,
> {
    tokens_from(text, 0, values, 0, None)
}

/// The first index from `from` on, among `count` of them, for which
/// `values` holds no bit pattern.
pub open spec fn first_unread(values: Seq<Option<u32>>, from: int, count: int) -> Option<int>
    decreases count,
{
    if count <= 0 {
        None
    } else if value_of(values, from) is None {
        Some(from)
    } else {
        first_unread(values, from + 1, count - 1)
    }
}

/// A run ends after it begins and inside the text.
pub proof fn lemma_run_end_inside(text: Seq<char>, at: int)
    requires
        0 <= at < text.len(),
    ensures
        at < run_end(text, at) <= text.len(),
    decreases text.len() - at,
{
    if at + 1 < text.len() && is_numeral_char(text[at + 1]) == is_numeral_char(text[at]) {
        lemma_run_end_inside(text, at + 1);
    }
}

/// The name of a prefix operator holds no numeral.
#[verifier::rlimit(50)]
pub proof fn lemma_keyword_numerals(text: Seq<char>, at: int)
    requires
        keyword_at(text, at) is Some,
    ensures
        numerals_from(text, at) == numerals_from(text, at + 3),
{
    let name = text.subrange(at, at + 3);
    assert(name[0] == text[at] && name[1] == text[at + 1] && name[2] == text[at + 2]);
    assert(!is_numeral_char(text[at]) && !is_numeral_char(text[at + 1]) && !is_numeral_char(
        text[at + 2],
    )) by {
        if name == seq!['s', 'i', 'n'] {
            assert(seq!['s', 'i', 'n'][0] == 's' && seq!['s', 'i', 'n'][1] == 'i' && seq![
                's',
                'i',
                'n',
            ][2] == 'n');
        } else if name == seq!['c', 'o', 's'] {
            assert(seq!['c', 'o', 's'][0] == 'c' && seq!['c', 'o', 's'][1] == 'o' && seq![
                'c',
                'o',
                's',
            ][2] == 's');
        } else {
            assert(seq!['t', 'a', 'n'][0] == 't' && seq!['t', 'a', 'n'][1] == 'a' && seq![
                't',
                'a',
                'n',
            ][2] == 'n');
        }
    }
    reveal_with_fuel(numerals_from, 4);
}

/// The text from `at` on gives tokens exactly where `values` holds a bit
/// pattern for each of its numerals, and is else refused with the first
/// numeral for which it holds none.
#[verifier::rlimit(50)]
pub proof fn lemma_tokens_from(
    text: Seq<char>,
    at: int,
    values: Seq<Option<u32>>,
    used: int,
    last: Option<Token>,
)
    requires
        0 <= at,
    ensures
        match first_unread(values, used, numerals_from(text, at).len() as int) {
            Some(index) => 0 <= index - used < numerals_from(text, at).len() && tokens_from(
                text,
                at,
                values,
                used,
                last,
            ) == Err::<Seq<Token>, Seq<char>>(numerals_from(text, at)[index - used]),
            None => tokens_from(text, at, values, used, last) is Ok,
        },
    decreases text.len() - at,
{
    if at < text.len() {
        let c = text[at];
        let end = run_end(text, at);
        lemma_run_end_inside(text, at);
        if is_numeral_char(c) {
            let rest = numerals_from(text, end);
            assert(numerals_from(text, at) == seq![text.subrange(at, end)] + rest);
            if let Some(bits) = value_of(values, used) {
                lemma_tokens_from(text, end, values, used + 1, Some(Token::Number(bits)));
            }
        } else if let Some(name) = keyword_at(text, at) {
            lemma_keyword_numerals(text, at);
            lemma_tokens_from(text, at + 3, values, used, Some(Token::UnOp(name)));
        } else if c == '-' {
            lemma_tokens_from(text, at + 1, values, used, Some(minus_after(last)));
        } else if let Some(token) = symbol(c) {
            lemma_tokens_from(text, at + 1, values, used, Some(token));
        } else {
            lemma_tokens_from(text, at + 1, values, used, last);
        }
    }
}

/// The text of a token is read as that token: alone it gives the token
/// and nothing else, wherever a minus sign stands where `minus_after` makes
/// it the token in question.
#[verifier::rlimit(50)]
pub proof fn lemma_text_is_read(
    token: Token,
    values: Seq<Option<u32>>,
    used: int,
    last: Option<Token>,
)
    requires
        token.text() is Some,
        token == Token::Op(Operator::Subtract) || token == Token::UnOp(UnaryOperator::Negation)
            ==> minus_after(last) == token,
    ensures
        tokens_from(token.text().unwrap(), 0, values, used, last) == Ok::<Seq<Token>, Seq<char>>(
            seq![token],
        ),
{
    let text = token.text().unwrap();
    reveal_strlit("(");
    reveal_strlit(")");
    reveal_strlit("*");
    reveal_strlit("/");
    reveal_strlit("+");
    reveal_strlit("-");
    reveal_strlit("sin");
    reveal_strlit("cos");
    reveal_strlit("tan");
    reveal_strlit("x");
    reveal_strlit("y");
    reveal_strlit("z");
    reveal_with_fuel(tokens_from, 2);
    assert(seq![token] + Seq::<Token>::empty() == seq![token]);
    if text.len() == 3 {
        assert(text.subrange(0, 3) == text);
        assert(text == seq![text[0], text[1], text[2]]);
    }
}

fn find_keyword(text: &Vec<char>, at: usize) -> (name: Option<UnaryOperator>)
    requires
        at < text.len(),
    ensures
        name == keyword_at(text@, at as int),
{
    if text.len() - at < 3 {
        return None;
    }
    let a = text[at];
    let b = text[at + 1];
    let c = text[at + 2];
    let ghost name = text@.subrange(at as int, at + 3);
    assert(name[0] == a && name[1] == b && name[2] == c);
    if a == 's' && b == 'i' && c == 'n' {
        assert(name =~= seq!['s', 'i', 'n']);
        Some(UnaryOperator::Sine)
    } else if a == 'c' && b == 'o' && c == 's' {
        assert(name =~= seq!['c', 'o', 's']);
        Some(UnaryOperator::Cosine)
    } else if a == 't' && b == 'a' && c == 'n' {
        assert(name =~= seq!['t', 'a', 'n']);
        Some(UnaryOperator::Tangent)
    } else {
        None
    }
}

fn find_symbol(c: char) -> (token: Option<Token>)
    ensures
        token == symbol(c),
{
    if c == '(' {
        Some(Token::LParen)
    } else if c == ')' {
        Some(Token::RParen)
    } else if c == '+' {
        Some(Token::Op(Operator::Add))
    } else if c == '*' {
        Some(Token::Op(Operator::Multiply))
    } else if c == '/' {
        Some(Token::Op(Operator::Divide))
    } else if c == 'x' {
        Some(Token::Var(Variable::X))
    } else if c == 'y' {
        Some(Token::Var(Variable::Y))
    } else if c == 'z' {
        Some(Token::Var(Variable::Z))
    } else {
        None
    }
}

fn minus(last: Option<Token>) -> (token: Token)
    ensures
        token == minus_after(last),
{
    match last {
        None | Some(Token::Op(_)) | Some(Token::UnOp(_)) | Some(Token::LParen) => Token::UnOp(
            UnaryOperator::Negation,
        ),
        _ => Token::Op(Operator::Subtract),
    }
}

/// The numerals of `s`, in their order: what a caller has to read as
/// numbers before `Lexer::new_inorder` can make tokens of `s`.
pub fn numerals<'a>(s: &'a str) -> (found: Vec<&'a str>)
    ensures
        texts(found@) == numerals_of(s@),
{
    let chars = chars_of(s);
    let mut found: Vec<&'a str> = Vec::new();
    let mut at: usize = 0;
    while at < chars.len()
        invariant
            chars@ == s@,
            at <= chars.len(),
            texts(found@) + numerals_from(s@, at as int) == numerals_of(s@),
        decreases chars.len() - at,
    {
        if numeral_char(chars[at]) {
            let end = find_run_end(&chars, at);
            let ghost before = found@;
            found.push(s.substring_char(at, end));
            assert(texts(found@) =~= texts(before) + seq![s@.subrange(at as int, end as int)]);
            assert(texts(found@) + numerals_from(s@, end as int) =~= texts(before)
                + numerals_from(s@, at as int));
            at = end;
        } else {
            at += 1;
        }
    }
    assert(texts(found@) + numerals_from(s@, at as int) =~= texts(found@));
    found
}

/// The new order as far as it is made, and the operands that wait for
/// their operator.
pub struct Reordering {
    pub made: Seq<Token>,
    pub held: Seq<Token>,
}

impl Reordering {
    /// The state after one more token of the in-order list: an operand is
    /// held; a binary operator goes to the new order, and after it all the
    /// operands that are held, the latest first; a prefix operator goes there
    /// with the latest operand alone, and there is none where no operand is
    /// held; a parenthesis is passed over.
    pub open spec fn step(self, token: Token) -> Option<Reordering> {
        match token {
            Token::Number(_) | Token::Var(_) => Some(
                Reordering { made: self.made, held: self.held.push(token) },
            ),
            Token::Op(_) => Some(
                Reordering {
                    made: self.made.push(token) + self.held.reverse(),
                    held: Seq::empty(),
                },
            ),
            Token::UnOp(_) => if self.held.len() > 0 {
                Some(
                    Reordering {
                        made: self.made.push(token).push(self.held.last()),
                        held: self.held.drop_last(),
                    },
                )
            } else {
                None
            },
            Token::LParen | Token::RParen => Some(self),
        }
    }

    /// The new order once the list has ended: the latest operand that is
    /// still held comes last.
    pub open spec fn finish(self) -> Seq<Token> {
        if self.held.len() > 0 {
            self.made.push(self.held.last())
        } else {
            self.made
        }
    }
}

/// The state after the tokens of `in_order`, one after the other.
pub open spec fn reordering(in_order: Seq<Token>) -> Option<Reordering>
    decreases in_order.len(),
{
    if in_order.len() == 0 {
        Some(Reordering { made: Seq::empty(), held: Seq::empty() })
    } else {
        match reordering(in_order.drop_last()) {
            Some(state) => state.step(in_order.last()),
            None => None,
        }
    }
}

/// The pre-order list that `Lexer::in_to_pre` makes of `in_order`, if it
/// makes one.
pub open spec fn pre_order_of(in_order: Seq<Token>) -> Option<Seq<Token>> {
    match reordering(in_order) {
        Some(state) => Some(state.finish()),
        None => None,
    }
}

/// Once there is no state, there is none for any longer list.
pub proof fn lemma_reordering_stays_none(in_order: Seq<Token>, n: int)
    requires
        0 <= n <= in_order.len(),
        reordering(in_order.take(n)) is None,
    ensures
        reordering(in_order) is None,
    decreases in_order.len() - n,
{
    if n < in_order.len() {
        assert(in_order.take(n + 1).drop_last() == in_order.take(n));
        lemma_reordering_stays_none(in_order, n + 1);
    } else {
        assert(in_order.take(n) == in_order);
    }
}

impl Lexer {
    /// The tokens of `s`, in in-order.
    ///
    /// `values` holds, for each numeral of `s` by its index in
    /// `numerals(s)`, the bit pattern of the number it was read as, or
    /// `None` where it is no number. The text is refused with the first
    /// numeral for which `values` holds no bit pattern.
    #[verifier::loop_isolation(false)]
    pub fn new_inorder(s: &str, values: &Vec<Option<u32>>) -> (res: Result<Lexer, LexError>)
        ensures
            match tokens_of(s@, values@) {
                Ok(tokens) => res matches Ok(lexer) && lexer.list@ == tokens && lexer.ordering
                    == Traversal::In,
                Err(numeral) => res matches Err(LexError::MalformedNumber(text)) && text@
                    == numeral,
            },
            match first_unread(values@, 0, numerals_of(s@).len() as int) {
                Some(index) => res matches Err(LexError::MalformedNumber(text)) && text@
                    == numerals_of(s@)[index],
                None => res is Ok,
            },
    {
        proof {
            lemma_tokens_from(s@, 0, values@, 0, None);
        }
        let chars = chars_of(s);
        let mut list: Vec<Token> = Vec::new();
        let mut last: Option<Token> = None;
        let mut used: usize = 0;
        let mut at: usize = 0;
        assert(after(list@, tokens_of(s@, values@)) == tokens_of(s@, values@)) by {
            assert(forall|t: Seq<Token>| list@ + t =~= t);
        }
        while at < chars.len()
            invariant
                chars@ == s@,
                used <= at <= chars.len(),
                after(list@, tokens_from(s@, at as int, values@, used as int, last)) == tokens_of(
                    s@,
                    values@,
                ),
            decreases chars.len() - at,
        {
            let c = chars[at];
            let ghost done = list@;
            let ghost here = tokens_from(s@, at as int, values@, used as int, last);
            if numeral_char(c) {
                let end = find_run_end(&chars, at);
                if used < values.len() && values[used].is_some() {
                    let token = Token::Number(values[used].unwrap());
                    list.push(token);
                    last = Some(token);
                    used += 1;
                    at = end;
                } else {
                    return Err(LexError::MalformedNumber(s.substring_char(at, end).to_owned()));
                }
            } else if let Some(name) = find_keyword(&chars, at) {
                let token = Token::UnOp(name);
                list.push(token);
                last = Some(token);
                at += 3;
            } else if c == '-' {
                let token = minus(last);
                list.push(token);
                last = Some(token);
                at += 1;
            } else if let Some(token) = find_symbol(c) {
                list.push(token);
                last = Some(token);
                at += 1;
            } else {
                at += 1;
            }
            proof {
                let rest = tokens_from(s@, at as int, values@, used as int, last);
                if list@.len() > done.len() {
                    assert(here == after(seq![list@.last()], rest));
                    assert(forall|t: Seq<Token>| done + (seq![list@.last()] + t) =~= list@ + t);
                }
            }
        }
        assert(list@ + Seq::<Token>::empty() =~= list@);
        Ok(Lexer { list, ordering: Traversal::In })
    }

    /// Turns the in-order list into a pre-order list, as `pre_order_of`
    /// says. It takes no account of parentheses.
    ///
    /// A lexer that is not in in-order is refused, and so is a list with a
    /// prefix operator for which no operand is held; the lexer then stays as
    /// it is.
    #[verifier::loop_isolation(false)]
    pub fn in_to_pre(&mut self) -> (res: Result<(), LexError>)
        ensures
            old(self).ordering != Traversal::In ==> res == Err::<(), LexError>(
                LexError::NotInOrder,
            ) && *final(self) == *old(self),
            old(self).ordering == Traversal::In ==> match pre_order_of(old(self).list@) {
                Some(made) => res is Ok && final(self).list@ == made && final(self).ordering
                    == Traversal::Pre,
                None => res == Err::<(), LexError>(LexError::NoOperand) && *final(self) == *old(
                    self,
                ),
            },
    {
        if self.ordering != Traversal::In {
            return Err(LexError::NotInOrder);
        }
        let mut pre_order: Vec<Token> = Vec::new();
        let mut stack: Vec<Token> = Vec::new();
        let mut i: usize = 0;
        assert(self.list@.take(0) =~= Seq::empty());
        while i < self.list.len()
            invariant
                i <= self.list.len(),
                *self == *old(self),
                reordering(self.list@.take(i as int)) == Some(
                    Reordering { made: pre_order@, held: stack@ },
                ),
            decreases self.list.len() - i,
        {
            let token = self.list[i];
            let ghost state = Reordering { made: pre_order@, held: stack@ };
            proof {
                assert(self.list@.take(i + 1).drop_last() == self.list@.take(i as int));
                assert(reordering(self.list@.take(i + 1)) == state.step(token));
                if state.step(token) is None {
                    lemma_reordering_stays_none(self.list@, i + 1);
                }
            }
            match token {
                Token::Op(_) => {
                    pre_order.push(token);
                    let ghost goal = pre_order@ + stack@.reverse();
                    while stack.len() > 0
                        invariant
                            pre_order@ + stack@.reverse() == goal,
                        decreases stack.len(),
                    {
                        let ghost made = pre_order@;
                        let ghost held = stack@;
                        let operand = stack.pop().unwrap();
                        pre_order.push(operand);
                        assert(held.reverse() =~= seq![operand] + stack@.reverse());
                        assert(pre_order@ + stack@.reverse() =~= made + held.reverse());
                    }
                    assert(pre_order@ + stack@.reverse() =~= pre_order@);
                    assert(stack@ =~= Seq::empty());
                },
                Token::UnOp(_) => {
                    if stack.len() == 0 {
                        return Err(LexError::NoOperand);
                    }
                    pre_order.push(token);
                    pre_order.push(stack.pop().unwrap());
                },
                Token::Number(_) | Token::Var(_) => {
                    stack.push(token);
                },
                Token::LParen | Token::RParen => {},
            }
            i += 1;
        }
        assert(self.list@.take(i as int) == self.list@);
        if stack.len() > 0 {
            pre_order.push(stack.pop().unwrap());
        }
        self.list = pre_order;
        self.ordering = Traversal::Pre;
        Ok(())
    }
}

} // verus!
