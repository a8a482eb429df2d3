//! The scanner: source text to tokens, with byte spans, over peekmore's lookahead.
use vstd::prelude::*;
use vstd::slice::slice_subrange;
use vstd::utf8::encode_utf8;

use crate::errors::{CompileError, Fault, Phase};
use crate::expr::{all_digits, digits_value, in_range, is_digit, parse_i64, parse_int};
use crate::text::{byte_offset, join3, lemma_encode_push, lemma_prefix_bytes, string_of, width_of};
use crate::token::{Literal, Token, TokenType};
use peekmore::{PeekMore, PeekMoreIterator};
use std::vec::IntoIter;

verus! {

#[verifier::external_type_specification]
#[verifier::external_body]
#[verifier::reject_recursive_types(I)]
pub struct ExPeekMoreIterator<I: Iterator>(PeekMoreIterator<I>);

/// The characters that a lookahead iterator has yet to hand out.
pub uninterp spec fn pending(it: PeekMoreIterator<IntoIter<char>>) -> Seq<char>;

/// Relies on peekmore's `PeekMore::peekmore`: the iterator it wraps hands out the
/// characters of `s` in order, and so does the wrapper.
#[verifier::external_body]
fn lookahead(s: &str) -> (r: PeekMoreIterator<IntoIter<char>>)
    ensures
        pending(r) == s@,
{
    s.chars().collect::<Vec<char>>().into_iter().peekmore()
}

/// Relies on `Iterator::next` of peekmore's iterator: it takes the first pending
/// character, or gives `None` when there is none.
#[verifier::external_body]
fn next_char(it: &mut PeekMoreIterator<IntoIter<char>>) -> (r: Option<char>)
    ensures
        pending(*old(it)).len() == 0 ==> r is None && pending(*final(it)) == pending(*old(it)),
        pending(*old(it)).len() > 0 ==> r == Some(pending(*old(it))[0]) && pending(*final(it))
            == pending(*old(it)).drop_first(),
{
    it.next()
}

/// Relies on peekmore's `PeekMoreIterator::peek_nth`: it shows the pending character
/// at index `n` without handing any out.
#[verifier::external_body]
fn peek_at(it: &mut PeekMoreIterator<IntoIter<char>>, n: usize) -> (r: Option<char>)
    requires
        n <= 1,
    ensures
        pending(*final(it)) == pending(*old(it)),
        n < pending(*old(it)).len() ==> r == Some(pending(*old(it))[n as int]),
        n >= pending(*old(it)).len() ==> r is None,
{
    it.peek_nth(n).copied()
}

/// Source text whose lexeme is `src[i..j]` and whose span is the bytes of that slice.
pub open spec fn spans(src: Seq<char>, t: Token, i: int, j: int) -> bool {
    &&& 0 <= i <= j <= src.len()
    &&& t.lexeme@ == src.subrange(i, j)
    &&& t.place.0 == byte_offset(src, i)
    &&& t.place.1 == byte_offset(src, j)
}

/// The token was read from `src`: its lexeme is a slice of `src`, and its span is
/// exactly the bytes of that slice.
pub open spec fn from_source(src: Seq<char>, t: Token) -> bool {
    exists|i: int, j: int| spans(src, t, i, j)
}

pub open spec fn is_whitespace(c: char) -> bool {
    c == ' ' || c == '\r' || c == '\t' || c == '\n'
}

pub open spec fn all_whitespace(s: Seq<char>) -> bool {
    forall|i: int| 0 <= i < s.len() ==> is_whitespace(#[trigger] s[i])
}

/// A line comment opens at `k` and runs to the end of `s`: `//` and no newline after.
pub open spec fn comment_at(s: Seq<char>, k: int) -> bool {
    &&& 0 <= k
    &&& k + 2 <= s.len()
    &&& s[k] == '/'
    &&& s[k + 1] == '/'
    &&& forall|m: int| k + 2 <= m < s.len() ==> #[trigger] s[m] != '\n'
}

/// Text that produces no token: whitespace and line comments, a comment running from
/// `//` up to a newline or the end.
pub open spec fn skippable(s: Seq<char>) -> bool
    decreases s.len(), s.len() + 1,
{
    if s.len() == 0 {
        true
    } else if is_whitespace(s.last()) {
        skippable(s.drop_last())
    } else {
        ends_in_comment(s, s.len() - 2)
    }
}

/// Some `k <= j` opens a line comment that ends `s`, with skippable text before it.
pub open spec fn ends_in_comment(s: Seq<char>, j: int) -> bool
    decreases s.len(), j + 1,
{
    if j < 0 || j + 2 > s.len() {
        false
    } else {
        (comment_at(s, j) && skippable(s.subrange(0, j))) || ends_in_comment(s, j - 1)
    }
}

proof fn lemma_ends_in_comment(s: Seq<char>, k: int, j: int)
    requires
        comment_at(s, k),
        skippable(s.subrange(0, k)),
        k <= j <= s.len() - 2,
    ensures
        ends_in_comment(s, j),
    decreases j - k,
{
    if j > k {
        lemma_ends_in_comment(s, k, j - 1);
    }
}

/// The tokens before the end marker lie at the ranges `rs` of `src`, in order, and
/// everything between and around them is whitespace or comments.
pub open spec fn covers(src: Seq<char>, ts: Seq<Token>, rs: Seq<(int, int)>) -> bool {
    &&& rs.len() + 1 == ts.len()
    &&& forall|k: int| 0 <= k < rs.len() ==> spans(src, #[trigger] ts[k], rs[k].0, rs[k].1)
    &&& forall|k: int| 0 <= k < rs.len() ==> munched(src, (#[trigger] ts[k])._type, ts[k].lexeme@, rs[k].1)
    &&& ordered(src, rs)
    &&& gaps_ok(src, rs, src.len() as int)
}

/// Character ranges in order, each ending before the next starts, all within `src`.
pub open spec fn ordered(src: Seq<char>, rs: Seq<(int, int)>) -> bool {
    &&& forall|k: int| 0 <= k < rs.len() ==> 0 <= #[trigger] rs[k].0 <= rs[k].1 <= src.len()
    &&& forall|k: int| 0 <= k < rs.len() - 1 ==> #[trigger] rs[k].1 <= rs[k + 1].0
}

/// Everything in `src` before `upto` that no range covers is skippable.
pub open spec fn gaps_ok(src: Seq<char>, rs: Seq<(int, int)>, upto: int) -> bool {
    let n = rs.len();
    &&& n == 0 ==> skippable(src.subrange(0, upto))
    &&& n > 0 ==> skippable(src.subrange(0, rs[0].0)) && skippable(src.subrange(rs[n - 1].1, upto))
    &&& forall|k: int| 0 <= k < n - 1 ==> skippable(#[trigger] src.subrange(rs[k].1, rs[k + 1].0))
}

proof fn lemma_gaps_push(src: Seq<char>, rs: Seq<(int, int)>, upto: int, j: int)
    requires
        gaps_ok(src, rs, upto),
        ordered(src, rs),
        forall|k: int| 0 <= k < rs.len() ==> #[trigger] rs[k].1 <= upto,
        0 <= upto <= j <= src.len(),
    ensures
        gaps_ok(src, rs.push((upto, j)), j),
{
    let rs2 = rs.push((upto, j));
    assert(src.subrange(j, j) =~= Seq::<char>::empty());
    if rs.len() > 0 {
        assert forall|k: int| 0 <= k < rs2.len() - 1 implies skippable(
            #[trigger] src.subrange(rs2[k].1, rs2[k + 1].0),
        ) by {
            if k < rs.len() - 1 {
                assert(rs2[k] == rs[k] && rs2[k + 1] == rs[k + 1]);
            } else {
                assert(rs2[k] == rs[rs.len() - 1]);
            }
        }
        assert(rs2[0] == rs[0]);
    }
}

/// The gap after the last range grows by one whitespace character.
proof fn lemma_gaps_whitespace(src: Seq<char>, rs: Seq<(int, int)>, upto: int)
    requires
        gaps_ok(src, rs, upto),
        ordered(src, rs),
        forall|k: int| 0 <= k < rs.len() ==> #[trigger] rs[k].1 <= upto,
        0 <= upto < src.len(),
        is_whitespace(src[upto]),
    ensures
        gaps_ok(src, rs, upto + 1),
{
    let from = if rs.len() == 0 {
        0
    } else {
        rs[rs.len() - 1].1
    };
    if rs.len() > 0 {
        assert(0 <= rs[rs.len() - 1].0 <= rs[rs.len() - 1].1);
        assert(rs[rs.len() - 1].1 <= upto);
    }
    assert(src.subrange(from, upto + 1) =~= src.subrange(from, upto).push(src[upto]));
    lemma_skip_whitespace(src.subrange(from, upto), src[upto]);
}

/// The gap after the last range grows by a line comment.
proof fn lemma_gaps_comment(src: Seq<char>, rs: Seq<(int, int)>, upto: int, end: int)
    requires
        gaps_ok(src, rs, upto),
        ordered(src, rs),
        forall|k: int| 0 <= k < rs.len() ==> #[trigger] rs[k].1 <= upto,
        0 <= upto,
        upto + 2 <= end <= src.len(),
        src[upto] == '/',
        src[upto + 1] == '/',
        forall|m: int| upto + 2 <= m < end ==> #[trigger] src[m] != '\n',
    ensures
        gaps_ok(src, rs, end),
{
    let from = if rs.len() == 0 {
        0
    } else {
        rs[rs.len() - 1].1
    };
    if rs.len() > 0 {
        assert(0 <= rs[rs.len() - 1].0 <= rs[rs.len() - 1].1);
        assert(rs[rs.len() - 1].1 <= upto);
    }
    let c = src.subrange(upto, end);
    assert(src.subrange(from, end) =~= src.subrange(from, upto) + c);
    assert forall|m: int| 2 <= m < c.len() implies #[trigger] c[m] != '\n' by {
        assert(c[m] == src[upto + m]);
    }
    lemma_skip_comment(src.subrange(from, upto), c);
}

proof fn lemma_skip_whitespace(s: Seq<char>, c: char)
    requires
        skippable(s),
        is_whitespace(c),
    ensures
        skippable(s.push(c)),
{
    assert(s.push(c).drop_last() =~= s);
}

/// Skippable text followed by a line comment is skippable.
proof fn lemma_skip_comment(g: Seq<char>, c: Seq<char>)
    requires
        skippable(g),
        c.len() >= 2,
        c[0] == '/',
        c[1] == '/',
        forall|m: int| 2 <= m < c.len() ==> #[trigger] c[m] != '\n',
    ensures
        skippable(g + c),
    decreases c.len(),
{
    let s = g + c;
    if is_whitespace(s.last()) {
        assert(c.len() > 2);
        assert(s.drop_last() =~= g + c.drop_last());
        lemma_skip_comment(g, c.drop_last());
        assert(skippable(s.drop_last()));
        assert(s.len() > 0);
        assert(skippable(s));
    } else {
        let k = g.len() as int;
        assert(s.subrange(0, k) =~= g);
        assert(forall|m: int| k + 2 <= m < s.len() ==> #[trigger] s[m] == c[m - k]);
        assert(comment_at(s, k));
        lemma_ends_in_comment(s, k, s.len() - 2);
        assert(skippable(s));
    }
}

/// The kind of a reserved word, or `Identifier`.
pub open spec fn keyword_kind(l: Seq<char>) -> TokenType {
    if l == "if"@ {
        TokenType::If
    } else if l == "else"@ {
        TokenType::Else
    } else if l == "and"@ {
        TokenType::And
    } else if l == "or"@ {
        TokenType::Or
    } else if l == "false"@ {
        TokenType::False
    } else if l == "true"@ {
        TokenType::True
    } else if l == "for"@ {
        TokenType::For
    } else if l == "while"@ {
        TokenType::While
    } else if l == "var"@ {
        TokenType::Var
    } else if l == "nil"@ {
        TokenType::Nil
    } else if l == "fn"@ {
        TokenType::Fn
    } else if l == "class"@ {
        TokenType::Class
    } else if l == "super"@ {
        TokenType::Super
    } else if l == "this"@ {
        TokenType::This
    } else if l == "print"@ {
        TokenType::Print
    } else if l == "return"@ {
        TokenType::Return
    } else {
        TokenType::Identifier
    }
}

/// The kind of an operator or punctuation lexeme.
pub open spec fn symbol_kind(l: Seq<char>) -> Option<TokenType> {
    if l.len() == 1 {
        let c = l[0];
        if c == '(' {
            Some(TokenType::LeftParen)
        } else if c == ')' {
            Some(TokenType::RightParen)
        } else if c == '{' {
            Some(TokenType::LeftBrace)
        } else if c == '}' {
            Some(TokenType::RightBrace)
        } else if c == '.' {
            Some(TokenType::Dot)
        } else if c == ',' {
            Some(TokenType::Comma)
        } else if c == ';' {
            Some(TokenType::Semicolon)
        } else if c == '-' {
            Some(TokenType::Minus)
        } else if c == '+' {
            Some(TokenType::Plus)
        } else if c == '*' {
            Some(TokenType::Star)
        } else if c == '/' {
            Some(TokenType::Slash)
        } else if c == '!' {
            Some(TokenType::Bang)
        } else if c == '=' {
            Some(TokenType::Equal)
        } else if c == '<' {
            Some(TokenType::Less)
        } else if c == '>' {
            Some(TokenType::Greater)
        } else {
            None
        }
    } else if l.len() == 2 && l[1] == '=' {
        let c = l[0];
        if c == '!' {
            Some(TokenType::BangEqual)
        } else if c == '=' {
            Some(TokenType::EqualEqual)
        } else if c == '<' {
            Some(TokenType::LessEqual)
        } else if c == '>' {
            Some(TokenType::GreaterEqual)
        } else {
            None
        }
    } else {
        None
    }
}

/// A number lexeme: digits, then optionally `.` and digits that are all zero; its
/// value is that of the digits before the dot.
pub open spec fn number_ok(l: Seq<char>, n: i64) -> bool {
    exists|k: int|
        0 < k <= l.len() && all_digits(#[trigger] l.subrange(0, k)) && n == digits_value(
            l.subrange(0, k),
        ) && (k == l.len() || (l[k] == '.' && k + 1 < l.len() && forall|m: int|
            k < m < l.len() ==> #[trigger] l[m] == '0'))
}

/// The kind and payload of a token agree with its lexeme.
pub open spec fn kind_ok(t: Token) -> bool {
    parts_ok(t._type, t.literal, t.lexeme@)
}

/// A token of kind `kind` with payload `literal` may have the lexeme `l`.
pub open spec fn parts_ok(kind: TokenType, literal: Literal, l: Seq<char>) -> bool {
    match kind {
        TokenType::String => {
            &&& l.len() >= 2
            &&& l[0] == '"'
            &&& l.last() == '"'
            &&& literal is Str
            &&& literal->Str_0@ == l.subrange(1, l.len() - 1)
            &&& !literal->Str_0@.contains('"')
        },
        TokenType::Number => literal is Num && number_ok(l, literal->Num_0),
        TokenType::Identifier => literal is Nothing && l.len() > 0 && keyword_kind(l) == TokenType::Identifier,
        TokenType::Eof => l.len() == 0,
        k => literal is Nothing && (keyword_kind(l) == k || symbol_kind(l) == Some(k)),
    }
}

/// A token of kind `kind` and lexeme `l` that ends at `j` in `src` is as long as it can
/// be: a word or a number is not followed by more of itself, a one-character operator
/// that has a two-character form is not followed by `=`, and `/` is not followed by `/`.
pub open spec fn munched(src: Seq<char>, kind: TokenType, l: Seq<char>, j: int) -> bool {
    j < src.len() ==> match kind {
        TokenType::Identifier | TokenType::If | TokenType::Else | TokenType::And | TokenType::Or
        | TokenType::False | TokenType::True | TokenType::For | TokenType::While | TokenType::Var
        | TokenType::Nil | TokenType::Fn | TokenType::Class | TokenType::Super | TokenType::This
        | TokenType::Print | TokenType::Return => !alphanumeric(src[j]),
        TokenType::Number => {
            &&& !is_digit(src[j])
            &&& !l.contains('.') ==> !(src[j] == '.' && j + 1 < src.len() && is_digit(src[j + 1]))
        },
        TokenType::Bang | TokenType::Equal | TokenType::Less | TokenType::Greater => src[j] != '=',
        TokenType::Slash => src[j] != '/',
        _ => true,
    }
}

/// A token in the output of a scan of `src`, before its end marker.
pub open spec fn scanned(src: Seq<char>, t: Token) -> bool {
    from_source(src, t) && kind_ok(t) && t._type != TokenType::Eof
}

pub uninterp spec fn alphabetic(c: char) -> bool;

pub uninterp spec fn alphanumeric(c: char) -> bool;

/// Relies on `char::is_alphabetic`: whether `c` has the Unicode Alphabetic property.
#[verifier::external_body]
fn is_alphabetic(c: char) -> (r: bool)
    ensures
        r == alphabetic(c),
{
    c.is_alphabetic()
}

/// Relies on `char::is_alphanumeric`: whether `c` is Unicode Alphabetic or Numeric.
#[verifier::external_body]
fn is_alphanumeric(c: char) -> (r: bool)
    ensures
        r == alphanumeric(c),
{
    c.is_alphanumeric()
}

/// The kind of a word: a reserved word's own kind, else `Identifier`.
fn keyword_of(text: &String) -> (r: TokenType)
    ensures
        r == keyword_kind(text@),
{
    if *text == String::from_str("if") {
        TokenType::If
    } else if *text == String::from_str("else") {
        TokenType::Else
    } else if *text == String::from_str("and") {
        TokenType::And
    } else if *text == String::from_str("or") {
        TokenType::Or
    } else if *text == String::from_str("false") {
        TokenType::False
    } else if *text == String::from_str("true") {
        TokenType::True
    } else if *text == String::from_str("for") {
        TokenType::For
    } else if *text == String::from_str("while") {
        TokenType::While
    } else if *text == String::from_str("var") {
        TokenType::Var
    } else if *text == String::from_str("nil") {
        TokenType::Nil
    } else if *text == String::from_str("fn") {
        TokenType::Fn
    } else if *text == String::from_str("class") {
        TokenType::Class
    } else if *text == String::from_str("super") {
        TokenType::Super
    } else if *text == String::from_str("this") {
        TokenType::This
    } else if *text == String::from_str("print") {
        TokenType::Print
    } else if *text == String::from_str("return") {
        TokenType::Return
    } else {
        TokenType::Identifier
    }
}

/// The payload of a token, as a model.
pub enum Pay {
    Nothing,
    Str(Seq<char>),
    Num(int),
}

pub open spec fn pay_of(l: Literal) -> Pay {
    match l {
        Literal::Nothing => Pay::Nothing,
        Literal::Str(s) => Pay::Str(s@),
        Literal::Num(n) => Pay::Num(n as int),
    }
}

/// What scanning does at one position: skips to a later one, reads a token of a kind
/// and payload that ends at a later one, or finds a fault with a message and an end.
pub enum Step {
    Skip(int),
    Tok(TokenType, Pay, int),
    Fault(Seq<char>, int),
}

/// The first index from `k` on that holds a newline, or the end.
pub open spec fn line_end(src: Seq<char>, k: int) -> int
    decreases src.len() - k,
{
    if k >= src.len() || src[k] == '\n' {
        k
    } else {
        line_end(src, k + 1)
    }
}

/// The first index from `k` on that holds a double quote, or the end.
pub open spec fn quote_end(src: Seq<char>, k: int) -> int
    decreases src.len() - k,
{
    if k >= src.len() || src[k] == '"' {
        k
    } else {
        quote_end(src, k + 1)
    }
}

/// The first index from `k` on that holds no decimal digit, or the end.
pub open spec fn digits_end(src: Seq<char>, k: int) -> int
    decreases src.len() - k,
{
    if k >= src.len() || !is_digit(src[k]) {
        k
    } else {
        digits_end(src, k + 1)
    }
}

/// The first index from `k` on that holds no alphanumeric character, or the end.
pub open spec fn alnum_end(src: Seq<char>, k: int) -> int
    decreases src.len() - k,
{
    if k >= src.len() || !alphanumeric(src[k]) {
        k
    } else {
        alnum_end(src, k + 1)
    }
}

/// A one- or two-character operator at `i`, `=` making the two-character form.
pub open spec fn pair_step(src: Seq<char>, i: int, one: TokenType, both: TokenType) -> Step {
    if i + 1 < src.len() && src[i + 1] == '=' {
        Step::Tok(both, Pay::Nothing, i + 2)
    } else {
        Step::Tok(one, Pay::Nothing, i + 1)
    }
}

/// A number literal at `i`: digits, and a fraction where a dot is followed by a digit.
/// It must fit in an `i64`, and its fraction must be zeros.
pub open spec fn number_step(src: Seq<char>, i: int) -> Step {
    let d = digits_end(src, i);
    let e = if d + 1 < src.len() && src[d] == '.' && is_digit(src[d + 1]) {
        digits_end(src, d + 1)
    } else {
        d
    };
    let v = digits_value(src.subrange(i, d));
    if in_range(v) && forall|m: int| d < m < e ==> #[trigger] src[m] == '0' {
        Step::Tok(TokenType::Number, Pay::Num(v), e)
    } else {
        Step::Fault("Not a number"@, e)
    }
}

/// Scanning at index `i` of `src`, which must hold a character.
pub open spec fn step(src: Seq<char>, i: int) -> Step {
    let c = src[i];
    let one = seq![c];
    if symbol_kind(one) is Some && c != '/' && c != '!' && c != '=' && c != '<' && c != '>' {
        Step::Tok(symbol_kind(one)->Some_0, Pay::Nothing, i + 1)
    } else if c == '/' {
        if i + 1 < src.len() && src[i + 1] == '/' {
            Step::Skip(line_end(src, i + 2))
        } else {
            Step::Tok(TokenType::Slash, Pay::Nothing, i + 1)
        }
    } else if c == '!' {
        pair_step(src, i, TokenType::Bang, TokenType::BangEqual)
    } else if c == '=' {
        pair_step(src, i, TokenType::Equal, TokenType::EqualEqual)
    } else if c == '<' {
        pair_step(src, i, TokenType::Less, TokenType::LessEqual)
    } else if c == '>' {
        pair_step(src, i, TokenType::Greater, TokenType::GreaterEqual)
    } else if is_whitespace(c) {
        Step::Skip(i + 1)
    } else if c == '"' {
        let q = quote_end(src, i + 1);
        if q >= src.len() {
            Step::Fault("Unterminated string"@, src.len() as int)
        } else {
            Step::Tok(TokenType::String, Pay::Str(src.subrange(i + 1, q)), q + 1)
        }
    } else if is_digit(c) {
        number_step(src, i)
    } else if alphabetic(c) {
        let w = alnum_end(src, i + 1);
        Step::Tok(keyword_kind(src.subrange(i, w)), Pay::Nothing, w)
    } else {
        Step::Fault("Unexpected char: "@ + one, i + 1)
    }
}

/// The end of a step.
pub open spec fn step_end(st: Step) -> int {
    match st {
        Step::Skip(j) => j,
        Step::Tok(_, _, j) => j,
        Step::Fault(_, j) => j,
    }
}

/// A scanner fault over the characters `i..j` of `src`.
pub open spec fn scan_fault(src: Seq<char>, msg: Seq<char>, i: int, j: int) -> Fault {
    Fault { phase: Phase::Scanner, span: (byte_offset(src, i) as usize, byte_offset(src, j) as usize), msg }
}

/// A token read over `i..j` of `src`, as scanning gives it: kind, payload, start, end.
pub type Lexed = (TokenType, Pay, int, int);

/// Scanning `src` from index `i` to the end: the tokens read and the faults found, in
/// order. Scanning goes on after a fault.
pub open spec fn lex_from(src: Seq<char>, i: int) -> (Seq<Lexed>, Seq<Fault>)
    decreases src.len() - i,
{
    if i < 0 || i >= src.len() {
        (Seq::empty(), Seq::empty())
    } else {
        let st = step(src, i);
        let j = step_end(st);
        if j <= i || j > src.len() {
            (Seq::empty(), Seq::empty())
        } else {
            let rest = lex_from(src, j);
            match st {
                Step::Skip(_) => rest,
                Step::Tok(k, p, _) => (seq![(k, p, i, j)] + rest.0, rest.1),
                Step::Fault(m, _) => (rest.0, seq![scan_fault(src, m, i, j)] + rest.1),
            }
        }
    }
}

/// Scanning all of `src`.
pub open spec fn lex(src: Seq<char>) -> (Seq<Lexed>, Seq<Fault>) {
    lex_from(src, 0)
}

/// `t` is the token `m` read from `src`.
pub open spec fn token_is(src: Seq<char>, t: Token, m: Lexed) -> bool {
    &&& t._type == m.0
    &&& pay_of(t.literal) == m.1
    &&& spans(src, t, m.2, m.3)
}

/// `r` reports the fault of step `st` taken at `i`, or success where it found none.
pub open spec fn reports(r: Result<(), CompileError>, src: Seq<char>, st: Step, i: int) -> bool {
    match st {
        Step::Fault(m, j) => r is Err && r->Err_0@ == scan_fault(src, m, i, j),
        _ => r is Ok,
    }
}

/// Scanning from index `pos` on found, so far, the tokens `found` and the faults `faults`,
/// as scanning the whole of `src` does.
pub open spec fn progress(src: Seq<char>, found: Seq<Token>, faults: Seq<Fault>, pos: int) -> bool {
    let rest = lex_from(src, pos);
    &&& lex(src).0.len() == found.len() + rest.0.len()
    &&& forall|k: int| 0 <= k < found.len() ==> token_is(src, #[trigger] found[k], lex(src).0[k])
    &&& forall|k: int| 0 <= k < rest.0.len() ==> #[trigger] lex(src).0[found.len() + k] == rest.0[k]
    &&& lex(src).1 == faults + rest.1
}

proof fn lemma_progress_step(
    src: Seq<char>,
    f0: Seq<Token>,
    ev0: Seq<Fault>,
    pos: int,
    f1: Seq<Token>,
    ev1: Seq<Fault>,
)
    requires
        progress(src, f0, ev0, pos),
        0 <= pos < src.len(),
        pos < step_end(step(src, pos)) <= src.len(),
        match step(src, pos) {
            Step::Tok(k, p, j) => {
                &&& f1.len() == f0.len() + 1
                &&& f1.subrange(0, f0.len() as int) == f0
                &&& token_is(src, f1.last(), (k, p, pos, j))
                &&& ev1 == ev0
            },
            Step::Fault(m, j) => f1 == f0 && ev1 == ev0.push(scan_fault(src, m, pos, j)),
            Step::Skip(_) => f1 == f0 && ev1 == ev0,
        },
    ensures
        progress(src, f1, ev1, step_end(step(src, pos))),
{
    let st = step(src, pos);
    let j = step_end(st);
    let rest = lex_from(src, pos);
    let next = lex_from(src, j);
    match st {
        Step::Tok(k, p, _) => {
            assert(rest == (seq![(k, p, pos, j)] + next.0, next.1));
            assert forall|q: int| 0 <= q < f1.len() implies token_is(src, #[trigger] f1[q], lex(src).0[q]) by {
                if q < f0.len() {
                    assert(f1[q] == f1.subrange(0, f0.len() as int)[q]);
                } else {
                    assert(lex(src).0[f0.len() + 0int] == rest.0[0]);
                }
            }
            assert forall|q: int| 0 <= q < next.0.len() implies #[trigger] lex(src).0[f1.len() + q] == next.0[q] by {
                assert(lex(src).0[f0.len() + (q + 1)] == rest.0[q + 1]);
            }
        },
        Step::Fault(m, _) => {
            assert(rest == (next.0, seq![scan_fault(src, m, pos, j)] + next.1));
            assert(lex(src).1 =~= ev1 + next.1);
        },
        Step::Skip(_) => {
            assert(rest == next);
        },
    }
}

/// The result of scanning `src`: success exactly where scanning finds no fault, with
/// the tokens that scanning reads followed by the end marker; else every fault, in order.
pub open spec fn lexes_to(src: Seq<char>, r: Result<Vec<Token>, Vec<CompileError>>) -> bool {
    &&& r is Ok <==> lex(src).1.len() == 0
    &&& r is Ok ==> {
        let ts = r->Ok_0@;
        &&& ts.len() == lex(src).0.len() + 1
        &&& forall|k: int| 0 <= k < lex(src).0.len() ==> token_is(src, #[trigger] ts[k], lex(src).0[k])
    }
    &&& r is Err ==> r->Err_0@.map_values(|e: CompileError| e@) == lex(src).1
}

/// Turns source text into tokens.
pub struct Scanner<'s> {
    pub source_raw: &'s str,
    source: PeekMoreIterator<IntoIter<char>>,
    read: Vec<char>,
    tokens: Vec<Token>,
    start: usize,
    start_char: usize,
    current: usize,
    ranges: Ghost<Seq<(int, int)>>,
}


impl<'s> Scanner<'s> {
    /// The source text.
    pub closed spec fn text(&self) -> Seq<char> {
        self.source_raw@
    }

    /// The characters read so far.
    pub closed spec fn consumed(&self) -> Seq<char> {
        self.read@
    }

    /// The tokens found so far.
    pub closed spec fn found(&self) -> Seq<Token> {
        self.tokens@
    }

    /// Where the token being read starts, as a character index.
    pub closed spec fn token_start(&self) -> nat {
        self.start_char as nat
    }

    /// The text of the token being read.
    pub open spec fn lexeme_so_far(&self) -> Seq<char> {
        self.consumed().subrange(self.token_start() as int, self.consumed().len() as int)
    }

    pub closed spec fn wf(&self) -> bool {
        let src = self.source_raw@;
        &&& self.read@ + pending(self.source) == src
        &&& self.current == byte_offset(src, self.read@.len() as int)
        &&& self.start_char <= self.read@.len()
        &&& self.start == byte_offset(src, self.start_char as int)
        &&& encode_utf8(src).len() <= usize::MAX
        &&& forall|k: int| 0 <= k < self.tokens@.len() ==> scanned(src, #[trigger] self.tokens@[k])
        &&& self.ranges@.len() == self.tokens@.len()
        &&& forall|k: int|
            0 <= k < self.tokens@.len() ==> spans(src, #[trigger] self.tokens@[k], self.ranges@[k].0, self.ranges@[k].1)
        &&& ordered(src, self.ranges@)
        &&& forall|k: int| 0 <= k < self.ranges@.len() ==> #[trigger] self.ranges@[k].1 <= self.read@.len()
        &&& forall|k: int|
            0 <= k < self.tokens@.len() ==> munched(src, (#[trigger] self.tokens@[k])._type, self.tokens@[k].lexeme@, self.ranges@[k].1)
    }

    /// Everything read and not in a token found so far is whitespace or comments.
    pub closed spec fn clean(&self) -> bool {
        gaps_ok(self.source_raw@, self.ranges@, self.read@.len() as int)
    }

    /// `self` is `prev` with one more token, running from where `prev` was to start a
    /// token up to what `self` has read.
    pub open spec fn added_token(&self, prev: Scanner<'s>) -> bool {
        &&& self.token_ranges() == prev.token_ranges().push(
            (prev.token_start() as int, self.consumed().len() as int),
        )
        &&& self.found().len() == prev.found().len() + 1
        &&& self.found().subrange(0, prev.found().len() as int) == prev.found()
    }

    /// What one step of scanning did, from `prev`, where the token being read starts.
    pub open spec fn did(&self, prev: Scanner<'s>, st: Step) -> bool {
        &&& self.text() == prev.text()
        &&& self.token_start() == prev.token_start()
        &&& self.consumed().len() == step_end(st)
        &&& match st {
            Step::Tok(k, p, j) => self.added_token(prev) && token_is(
                self.text(),
                self.found().last(),
                (k, p, prev.token_start() as int, j),
            ),
            _ => self.found() == prev.found() && self.token_ranges() == prev.token_ranges(),
        }
    }

    /// Every token found so far ends before the token being read starts.
    pub closed spec fn settled(&self) -> bool {
        forall|k: int| 0 <= k < self.ranges@.len() ==> #[trigger] self.ranges@[k].1 <= self.start_char
    }

    /// Where each token found so far lies, as character ranges.
    pub closed spec fn token_ranges(&self) -> Seq<(int, int)> {
        self.ranges@
    }

    proof fn lemma_wf(&self)
        requires
            self.wf(),
        ensures
            self.consumed() == self.source_raw@.subrange(0, self.consumed().len() as int),
            self.consumed().len() <= self.source_raw@.len(),
            self.token_start() <= self.consumed().len(),
            forall|k: int| 0 <= k < self.found().len() ==> scanned(self.source_raw@, #[trigger] self.found()[k]),
    {
        assert(self.read@ =~= self.source_raw@.subrange(0, self.read@.len() as int));
    }

    pub fn new(source_raw: &'s str) -> (r: Scanner<'s>)
        ensures
            r.wf(),
            r.text() == source_raw@,
            r.consumed() == Seq::<char>::empty(),
            r.found() == Seq::<Token>::empty(),
            r.token_start() == 0,
            r.clean(),
    {
        // The source's length in bytes fits in a `usize`, which bounds every span.
        let bytes = source_raw.as_bytes();
        let _n = bytes.len();
        let r = Scanner {
            source_raw,
            source: lookahead(source_raw),
            read: Vec::new(),
            tokens: Vec::new(),
            start: 0,
            start_char: 0,
            current: 0,
            ranges: Ghost(Seq::empty()),
        };
        proof {
            assert(r.read@ + pending(r.source) =~= source_raw@);
            assert(source_raw@.subrange(0, 0) =~= Seq::<char>::empty());
            assert(skippable(source_raw@.subrange(0, 0)));
        }
        r
    }

    /// Reads the next character, if any.
    pub fn advance(&mut self) -> (r: Option<char>)
        requires
            old(self).wf(),
        ensures
            final(self).wf(),
            final(self).text() == old(self).text(),
            final(self).found() == old(self).found(),
            final(self).token_start() == old(self).token_start(),
            final(self).token_ranges() == old(self).token_ranges(),
            old(self).consumed().len() < old(self).text().len() ==> r == Some(
                old(self).text()[old(self).consumed().len() as int],
            ) && final(self).consumed() == old(self).consumed().push(r->Some_0),
            old(self).consumed().len() >= old(self).text().len() ==> r is None
                && final(self).consumed() == old(self).consumed(),
    {
        let ghost src = self.source_raw@;
        proof {
            self.lemma_wf();
        }
        let r = next_char(&mut self.source);
        match r {
            Some(c) => {
                proof {
                    let n = self.read@.len() as int;
                    assert(src[n] == (self.read@ + pending(old(self).source))[n]);
                    lemma_encode_push(self.read@, c);
                    assert(src.subrange(0, n + 1) =~= self.read@.push(c));
                    assert(src.subrange(0, n) =~= self.read@);
                    lemma_prefix_bytes(src, n + 1);
                }
                self.current = self.current + width_of(c);
                self.read.push(c);
                proof {
                    assert(self.read@ + pending(self.source) =~= src);
                }
            },
            None => {
                proof {
                    assert(pending(self.source).len() == 0);
                }
            },
        }
        r
    }

    /// The next character, without reading it.
    pub fn peek(&mut self) -> (r: Option<char>)
        requires
            old(self).wf(),
        ensures
            final(self).wf(),
            final(self).text() == old(self).text(),
            final(self).found() == old(self).found(),
            final(self).token_start() == old(self).token_start(),
            final(self).token_ranges() == old(self).token_ranges(),
            final(self).consumed() == old(self).consumed(),
            old(self).consumed().len() < old(self).text().len() ==> r == Some(
                old(self).text()[old(self).consumed().len() as int],
            ),
            old(self).consumed().len() >= old(self).text().len() ==> r is None,
    {
        proof {
            self.lemma_wf();
            let n = self.read@.len() as int;
            if n < self.source_raw@.len() {
                assert(self.source_raw@[n] == (self.read@ + pending(self.source))[n]);
            }
        }
        peek_at(&mut self.source, 0)
    }

    /// The character after the next one, without reading either.
    fn peek_next(&mut self) -> (r: Option<char>)
        requires
            old(self).wf(),
        ensures
            final(self).wf(),
            final(self).text() == old(self).text(),
            final(self).found() == old(self).found(),
            final(self).token_start() == old(self).token_start(),
            final(self).token_ranges() == old(self).token_ranges(),
            final(self).consumed() == old(self).consumed(),
            old(self).consumed().len() + 1 < old(self).text().len() ==> r == Some(
                old(self).text()[old(self).consumed().len() + 1int],
            ),
            old(self).consumed().len() + 1 >= old(self).text().len() ==> r is None,
    {
        proof {
            self.lemma_wf();
            let n = self.read@.len() as int;
            if n + 1 < self.source_raw@.len() {
                assert(self.source_raw@[n + 1] == (self.read@ + pending(self.source))[n + 1]);
            }
        }
        peek_at(&mut self.source, 1)
    }

    /// Records a token of the text read since the token's start.
    fn add_token(&mut self, kind: TokenType, literal: Literal)
        requires
            old(self).wf(),
            old(self).settled(),
            kind != TokenType::Eof,
            parts_ok(kind, literal, old(self).lexeme_so_far()),
            munched(old(self).text(), kind, old(self).lexeme_so_far(), old(self).consumed().len() as int),
        ensures
            final(self).wf(),
            final(self).text() == old(self).text(),
            final(self).consumed() == old(self).consumed(),
            final(self).token_start() == old(self).token_start(),
            final(self).added_token(*old(self)),
            token_is(
                final(self).text(),
                final(self).found().last(),
                (kind, pay_of(literal), old(self).token_start() as int, old(self).consumed().len() as int),
            ),
    {
        proof {
            self.lemma_wf();
        }
        let text = string_of(slice_subrange(self.read.as_slice(), self.start_char, self.read.len()));
        let t = Token::new(kind, literal, text, (self.start, self.current));
        proof {
            let src = self.source_raw@;
            let i = self.start_char as int;
            let j = self.read@.len() as int;
            assert(src.subrange(i, j) =~= self.read@.subrange(i, j));
            assert(spans(src, t, i, j));
            assert(from_source(src, t));
        }
        self.tokens.push(t);
        self.ranges = Ghost(self.ranges@.push((self.start_char as int, self.read@.len() as int)));
        proof {
            assert(self.tokens@.subrange(0, old(self).tokens@.len() as int) =~= old(self).tokens@);
            let n = self.ranges@.len() - 1;
            assert(self.ranges@[n] == (self.start_char as int, self.read@.len() as int));
            assert forall|k: int| 0 <= k < self.tokens@.len() implies spans(
                self.source_raw@,
                #[trigger] self.tokens@[k],
                self.ranges@[k].0,
                self.ranges@[k].1,
            ) by {
                if k < n {
                    assert(self.tokens@[k] == old(self).tokens@[k]);
                    assert(self.ranges@[k] == old(self).ranges@[k]);
                }
            }
            assert forall|k: int| 0 <= k < self.tokens@.len() implies munched(
                self.source_raw@,
                (#[trigger] self.tokens@[k])._type,
                self.tokens@[k].lexeme@,
                self.ranges@[k].1,
            ) by {
                if k < n {
                    assert(self.tokens@[k] == old(self).tokens@[k]);
                    assert(self.ranges@[k] == old(self).ranges@[k]);
                }
            }
        }
    }

    /// Records an operator or punctuation token.
    fn add_symbol(&mut self, kind: TokenType)
        requires
            old(self).wf(),
            old(self).settled(),
            kind != TokenType::Eof,
            symbol_kind(old(self).lexeme_so_far()) == Some(kind),
            munched(old(self).text(), kind, old(self).lexeme_so_far(), old(self).consumed().len() as int),
        ensures
            final(self).wf(),
            final(self).text() == old(self).text(),
            final(self).consumed() == old(self).consumed(),
            final(self).token_start() == old(self).token_start(),
            final(self).added_token(*old(self)),
            token_is(
                final(self).text(),
                final(self).found().last(),
                (kind, Pay::Nothing, old(self).token_start() as int, old(self).consumed().len() as int),
            ),
    {
        self.add_token(kind, Literal::Nothing);
    }

    /// The rest of a string literal, after its opening quote.
    fn string(&mut self) -> (r: Result<(), CompileError>)
        requires
            old(self).wf(),
            old(self).settled(),
            old(self).consumed().len() == old(self).token_start() + 1,
            old(self).consumed()[old(self).token_start() as int] == '"',
        ensures
            final(self).wf(),
            final(self).text() == old(self).text(),
            final(self).token_start() == old(self).token_start(),
            final(self).consumed().len() >= old(self).consumed().len(),
            final(self).found().len() >= old(self).found().len(),
            final(self).found().subrange(0, old(self).found().len() as int) == old(self).found(),
            r is Err ==> r->Err_0@.phase == Phase::Scanner,
            r is Ok ==> final(self).added_token(*old(self)),
            final(self).did(*old(self), step(old(self).text(), old(self).token_start() as int)),
            reports(r, old(self).text(), step(old(self).text(), old(self).token_start() as int), old(self).token_start() as int),
    {
        let ghost src = self.text();
        let ghost st = self.start_char as int;
        loop
            invariant
                self.wf(),
                self.text() == old(self).text(),
                self.token_start() == old(self).token_start(),
                self.found() == old(self).found(),
                self.token_ranges() == old(self).token_ranges(),
                self.settled(),
                self.consumed().len() > st,
                self.consumed().len() >= old(self).consumed().len(),
                st == self.token_start(),
                self.consumed()[st] == '"',
                forall|m: int| st < m < self.consumed().len() ==> #[trigger] self.consumed()[m] != '"',
                src == self.text(),
                quote_end(src, st + 1) == quote_end(src, self.consumed().len() as int),
            ensures
                self.wf(),
                self.text() == old(self).text(),
                self.token_start() == old(self).token_start(),
                self.found() == old(self).found(),
                self.token_ranges() == old(self).token_ranges(),
                self.settled(),
                self.consumed().len() > st,
                self.consumed().len() >= old(self).consumed().len(),
                st == self.token_start(),
                self.consumed()[st] == '"',
                forall|m: int| st < m < self.consumed().len() ==> #[trigger] self.consumed()[m] != '"',
                src == self.text(),
                quote_end(src, st + 1) == quote_end(src, self.consumed().len() as int),
                self.consumed().len() == src.len() || src[self.consumed().len() as int] == '"',
            decreases self.source_raw@.len() - self.consumed().len(),
        {
            proof {
                self.lemma_wf();
            }
            match self.peek() {
                Some(c) => {
                    if c == '"' {
                        break;
                    }
                    let ghost was = self.consumed();
                    self.advance();
                    assert(forall|m: int| 0 <= m < was.len() ==> #[trigger] self.consumed()[m] == was[m]);
                },
                None => {
                    break;
                },
            }
        }
        let closing = self.peek();
        let terminated = match closing {
            Some(c) => c == '"',
            None => false,
        };
        if !terminated {
            proof {
                self.lemma_wf();
                assert(quote_end(src, self.consumed().len() as int) == src.len());
            }
            return Err(
                CompileError::Scanner(
                    (self.start, self.current),
                    String::from_str("Unterminated string"),
                ),
            );
        }
        proof {
            self.lemma_wf();
        }
        let ghost n0 = self.consumed().len();
        proof {
            assert(quote_end(src, n0 as int) == n0);
        }
        self.advance();
        proof {
            self.lemma_wf();
            assert(self.consumed().len() == n0 + 1);
            assert(self.consumed()[n0 as int] == '"');
            assert(self.start_char + 1 < self.read@.len());
        }
        let to = self.read.len() - 1;
        let from = self.start_char + 1;
        let value = string_of(slice_subrange(self.read.as_slice(), from, to));
        proof {
            let l = self.lexeme_so_far();
            assert(l.subrange(1, l.len() - 1) =~= self.read@.subrange(st + 1, self.read@.len() - 1));
            assert(l[0] == '"');
            assert(l.last() == '"');
            let inner = l.subrange(1, l.len() - 1);
            assert forall|m: int| 0 <= m < inner.len() implies #[trigger] inner[m] != '"' by {
                assert(inner[m] == self.consumed()[st + 1 + m]);
            }
        }
        proof {
            assert(value@ =~= src.subrange(st + 1, n0 as int));
        }
        self.add_token(TokenType::String, Literal::Str(value));
        Ok(())
    }

    /// The rest of a number literal, after its first digit.
    #[verifier::rlimit(40)]
    fn number(&mut self) -> (r: Result<(), CompileError>)
        requires
            old(self).wf(),
            old(self).settled(),
            old(self).consumed().len() == old(self).token_start() + 1,
            is_digit(old(self).consumed()[old(self).token_start() as int]),
        ensures
            final(self).wf(),
            final(self).text() == old(self).text(),
            final(self).token_start() == old(self).token_start(),
            final(self).consumed().len() >= old(self).consumed().len(),
            final(self).found().len() >= old(self).found().len(),
            final(self).found().subrange(0, old(self).found().len() as int) == old(self).found(),
            r is Err ==> r->Err_0@.phase == Phase::Scanner,
            r is Ok ==> final(self).added_token(*old(self)),
            final(self).did(*old(self), step(old(self).text(), old(self).token_start() as int)),
            reports(r, old(self).text(), step(old(self).text(), old(self).token_start() as int), old(self).token_start() as int),
    {
        let ghost st = self.start_char as int;
        let ghost src = self.text();
        loop
            invariant
                self.wf(),
                self.text() == old(self).text(),
                self.token_start() == old(self).token_start(),
                self.found() == old(self).found(),
                self.token_ranges() == old(self).token_ranges(),
                self.settled(),
                st == self.token_start(),
                self.consumed().len() > st,
                forall|m: int| st <= m < self.consumed().len() ==> is_digit(#[trigger] self.consumed()[m]),
                src == self.text(),
                digits_end(src, st) == digits_end(src, self.consumed().len() as int),
            ensures
                self.wf(),
                self.text() == old(self).text(),
                self.token_start() == old(self).token_start(),
                self.found() == old(self).found(),
                self.token_ranges() == old(self).token_ranges(),
                self.settled(),
                st == self.token_start(),
                self.consumed().len() > st,
                forall|m: int| st <= m < self.consumed().len() ==> is_digit(#[trigger] self.consumed()[m]),
                src == self.text(),
                digits_end(src, st) == digits_end(src, self.consumed().len() as int),
                self.consumed().len() < self.text().len() ==> !is_digit(self.text()[self.consumed().len() as int]),
            decreases self.text().len() - self.consumed().len(),
        {
            proof {
                self.lemma_wf();
            }
            match self.peek() {
                Some(c) => {
                    if '0' <= c && c <= '9' {
                        self.advance();
                    } else {
                        break;
                    }
                },
                None => {
                    break;
                },
            }
        }
        let int_end = self.read.len();
        let mut zeros = true;
        let next = self.peek();
        let after = self.peek_next();
        let fraction = match (next, after) {
            (Some(d), Some(c)) => d == '.' && '0' <= c && c <= '9',
            _ => false,
        };
        if fraction {
            proof {
                self.lemma_wf();
            }
            self.advance();
            loop
                invariant
                    self.wf(),
                    self.text() == old(self).text(),
                    self.token_start() == old(self).token_start(),
                    self.found() == old(self).found(),
                    self.token_ranges() == old(self).token_ranges(),
                    self.settled(),
                    st == self.token_start(),
                    int_end < self.consumed().len(),
                    self.consumed()[int_end as int] == '.',
                    st < int_end,
                    forall|m: int| st <= m < int_end ==> is_digit(#[trigger] self.consumed()[m]),
                    src == self.text(),
                    digits_end(src, int_end + 1) == digits_end(src, self.consumed().len() as int),
                    !zeros ==> exists|m: int| int_end < m < self.consumed().len() && #[trigger] src[m] != '0',
                    zeros ==> forall|m: int| int_end < m < self.consumed().len() ==> #[trigger] self.consumed()[m] == '0',
                    self.consumed().len() == int_end + 1 ==> (self.consumed().len() < self.text().len()
                        && is_digit(self.text()[int_end + 1])),
                ensures
                    self.wf(),
                    self.text() == old(self).text(),
                    self.token_start() == old(self).token_start(),
                    self.found() == old(self).found(),
                    self.token_ranges() == old(self).token_ranges(),
                    self.settled(),
                    self.consumed().len() < self.text().len() ==> !is_digit(self.text()[self.consumed().len() as int]),
                    self.consumed().len() > int_end + 1,
                    self.consumed()[int_end as int] == '.',
                    forall|m: int| st <= m < int_end ==> is_digit(#[trigger] self.consumed()[m]),
                    src == self.text(),
                    digits_end(src, int_end + 1) == digits_end(src, self.consumed().len() as int),
                    !zeros ==> exists|m: int| int_end < m < self.consumed().len() && #[trigger] src[m] != '0',
                    zeros ==> forall|m: int| int_end < m < self.consumed().len() ==> #[trigger] self.consumed()[m] == '0',
                decreases self.text().len() - self.consumed().len(),
            {
                proof {
                    self.lemma_wf();
                }
                match self.peek() {
                    Some(c) => {
                        if '0' <= c && c <= '9' {
                            if c != '0' {
                                zeros = false;
                            }
                            self.advance();
                        } else {
                            break;
                        }
                    },
                    None => {
                        break;
                    },
                }
            }
        }
        proof {
            self.lemma_wf();
        }
        let int_text = string_of(slice_subrange(self.read.as_slice(), self.start_char, int_end));
        let ghost l = self.lexeme_so_far();
        let ghost k = int_end - st;
        proof {
            assert(int_text@ =~= l.subrange(0, k));
            assert(all_digits(int_text@));
        }
        match parse_i64(int_text.as_str()) {
            Some(n) => {
                if zeros {
                    proof {
                        assert(parse_int(int_text@) == Some(digits_value(int_text@)));
                        if !fraction {
                            assert(l.len() == k);
                        } else {
                            assert(l[k] == '.');
                            assert(k + 1 < l.len());
                            assert forall|m: int| k < m < l.len() implies #[trigger] l[m] == '0' by {
                                assert(l[m] == self.consumed()[m + st]);
                            }
                        }
                        assert(int_text@ == l.subrange(0, k));
                        assert(0 < k <= l.len());
                        assert(all_digits(l.subrange(0, k)));
                        assert(n == digits_value(l.subrange(0, k)));
                        assert(number_ok(l, n));
                        let src = self.text();
                        let j = self.consumed().len() as int;
                        if !fraction {
                            assert forall|m: int| 0 <= m < l.len() implies #[trigger] l[m] != '.' by {
                                assert(is_digit(self.consumed()[m + st]));
                            }
                            assert(!l.contains('.'));
                        } else {
                            assert(l[k] == '.');
                            assert(l.contains('.'));
                        }
                        assert(munched(src, TokenType::Number, l, j));
                    }
                    proof {
                        let e = self.consumed().len() as int;
                        assert(int_text@ == src.subrange(st, int_end as int));
                        assert(digits_end(src, st) == int_end);
                        if fraction {
                            assert(digits_end(src, int_end + 1) == e);
                        }
                        assert(number_step(src, st) == Step::Tok(TokenType::Number, Pay::Num(n as int), e));
                    }
                    self.add_token(TokenType::Number, Literal::Num(n));
                    return Ok(());
                }
            },
            None => {},
        }
        proof {
            self.lemma_wf();
            let e = self.consumed().len() as int;
            assert(int_text@ == src.subrange(st, int_end as int));
            assert(digits_end(src, st) == int_end);
            if fraction {
                assert(digits_end(src, int_end + 1) == e);
            }
            assert(parse_int(int_text@) == Some(digits_value(int_text@)));
            assert(number_step(src, st) == Step::Fault("Not a number"@, e));
        }
        Err(CompileError::Scanner((self.start, self.current), String::from_str("Not a number")))
    }

    /// The rest of a word, after its first letter.
    fn identifier(&mut self)
        requires
            old(self).wf(),
            old(self).settled(),
            old(self).consumed().len() == old(self).token_start() + 1,
        ensures
            final(self).wf(),
            final(self).text() == old(self).text(),
            final(self).token_start() == old(self).token_start(),
            final(self).consumed().len() >= old(self).consumed().len(),
            final(self).added_token(*old(self)),
            final(self).did(
                *old(self),
                Step::Tok(
                    keyword_kind(old(self).text().subrange(old(self).token_start() as int, alnum_end(old(self).text(), old(self).token_start() + 1int))),
                    Pay::Nothing,
                    alnum_end(old(self).text(), old(self).token_start() + 1int),
                ),
            ),
    {
        let ghost st = self.start_char as int;
        let ghost src = self.text();
        loop
            invariant
                self.wf(),
                self.text() == old(self).text(),
                self.token_start() == old(self).token_start(),
                self.found() == old(self).found(),
                self.token_ranges() == old(self).token_ranges(),
                self.settled(),
                st == self.token_start(),
                self.consumed().len() > st,
                src == self.text(),
                alnum_end(src, st + 1) == alnum_end(src, self.consumed().len() as int),
            ensures
                self.wf(),
                self.text() == old(self).text(),
                self.token_start() == old(self).token_start(),
                self.found() == old(self).found(),
                self.token_ranges() == old(self).token_ranges(),
                self.settled(),
                self.consumed().len() > st,
                self.consumed().len() < self.text().len() ==> !alphanumeric(self.text()[self.consumed().len() as int]),
            decreases self.text().len() - self.consumed().len(),
        {
            proof {
                self.lemma_wf();
            }
            match self.peek() {
                Some(c) => {
                    if is_alphanumeric(c) {
                        self.advance();
                    } else {
                        break;
                    }
                },
                None => {
                    break;
                },
            }
        }
        proof {
            self.lemma_wf();
        }
        let text = string_of(slice_subrange(self.read.as_slice(), self.start_char, self.read.len()));
        let kind = keyword_of(&text);
        proof {
            assert(text@ =~= src.subrange(st, self.consumed().len() as int));
        }
        self.add_token(kind, Literal::Nothing);
    }

    /// Adds the one- or two-character operator that starts with the character just
    /// read: the two-character form where `=` follows.
    fn operator(&mut self, one: TokenType, both: TokenType)
        requires
            old(self).wf(),
            old(self).settled(),
            old(self).consumed().len() == old(self).token_start() + 1,
            one != TokenType::Eof,
            both != TokenType::Eof,
            symbol_kind(old(self).lexeme_so_far()) == Some(one),
            symbol_kind(old(self).lexeme_so_far().push('=')) == Some(both),
        ensures
            final(self).wf(),
            final(self).text() == old(self).text(),
            final(self).token_start() == old(self).token_start(),
            final(self).consumed().len() >= old(self).consumed().len(),
            final(self).added_token(*old(self)),
            final(self).did(*old(self), pair_step(old(self).text(), old(self).token_start() as int, one, both)),
    {
        let next = self.peek();
        let pair = match next {
            Some(c) => c == '=',
            None => false,
        };
        if pair {
            proof {
                self.lemma_wf();
            }
            self.advance();
            proof {
                assert(self.lexeme_so_far() =~= old(self).lexeme_so_far().push('='));
            }
            self.add_symbol(both);
        } else {
            self.add_symbol(one);
        }
    }

    /// The rest of a line comment, after its first `/`: up to the newline or the end.
    fn line_comment(&mut self)
        requires
            old(self).wf(),
            old(self).consumed().len() == old(self).token_start() + 1,
            old(self).consumed()[old(self).token_start() as int] == '/',
            old(self).consumed().len() < old(self).text().len(),
            old(self).text()[old(self).consumed().len() as int] == '/',
        ensures
            final(self).did(*old(self), Step::Skip(line_end(old(self).text(), old(self).token_start() + 2int))),
            final(self).wf(),
            final(self).text() == old(self).text(),
            final(self).found() == old(self).found(),
            final(self).token_ranges() == old(self).token_ranges(),
            final(self).token_start() == old(self).token_start(),
            final(self).consumed().len() >= old(self).consumed().len() + 1,
            final(self).consumed()[old(self).token_start() as int] == '/',
            final(self).consumed()[old(self).token_start() + 1int] == '/',
            forall|m: int|
                old(self).token_start() + 2 <= m < final(self).consumed().len()
                    ==> #[trigger] final(self).consumed()[m] != '\n',
    {
        let ghost n0 = self.token_start() as int;
        let ghost src = self.text();
        loop
            invariant
                self.wf(),
                self.text() == src,
                self.found() == old(self).found(),
                self.token_ranges() == old(self).token_ranges(),
                self.token_start() == old(self).token_start(),
                n0 == self.token_start(),
                n0 >= 0,
                self.consumed().len() > n0,
                self.consumed()[n0] == '/',
                n0 + 1 < src.len(),
                src[n0 + 1] == '/',
                forall|m: int| n0 + 2 <= m < self.consumed().len() ==> #[trigger] self.consumed()[m] != '\n',
                self.consumed().len() >= n0 + 2 ==> line_end(src, n0 + 2) == line_end(src, self.consumed().len() as int),
            ensures
                self.wf(),
                self.text() == src,
                self.found() == old(self).found(),
                self.token_ranges() == old(self).token_ranges(),
                self.token_start() == old(self).token_start(),
                self.consumed().len() >= n0 + 2,
                self.consumed()[n0] == '/',
                self.consumed()[n0 + 1] == '/',
                forall|m: int| n0 + 2 <= m < self.consumed().len() ==> #[trigger] self.consumed()[m] != '\n',
                self.consumed().len() >= n0 + 2 ==> line_end(src, n0 + 2) == line_end(src, self.consumed().len() as int),
                line_end(src, n0 + 2) == self.consumed().len(),
            decreases self.text().len() - self.consumed().len(),
        {
            proof {
                self.lemma_wf();
            }
            match self.peek() {
                Some(d) => {
                    if d == '\n' {
                        break;
                    }
                    let ghost was = self.consumed();
                    self.advance();
                    assert(forall|m: int| 0 <= m < was.len() ==> #[trigger] self.consumed()[m] == was[m]);
                },
                None => {
                    break;
                },
            }
        }
    }

    fn scan_token(&mut self) -> (r: Result<(), CompileError>)
        requires
            old(self).wf(),
            old(self).consumed().len() < old(self).text().len(),
            old(self).token_start() == old(self).consumed().len(),
            old(self).settled(),
        ensures
            old(self).clean() && r is Ok ==> final(self).clean(),
            final(self).wf(),
            final(self).text() == old(self).text(),
            final(self).consumed().len() > old(self).consumed().len(),
            final(self).found().len() >= old(self).found().len(),
            final(self).found().subrange(0, old(self).found().len() as int) == old(self).found(),
            r is Err ==> r->Err_0@.phase == Phase::Scanner,
            all_whitespace(final(self).consumed()) ==> r is Ok && final(self).found() == old(self).found(),
            final(self).did(*old(self), step(old(self).text(), old(self).token_start() as int)),
            reports(r, old(self).text(), step(old(self).text(), old(self).token_start() as int), old(self).token_start() as int),
    {
        proof {
            self.lemma_wf();
        }
        let ghost n0 = self.consumed().len() as int;
        let ghost src = self.text();
        let ghost r0 = self.token_ranges();
        let c = match self.advance() {
            Some(c) => c,
            None => {
                return Ok(());
            },
        };
        proof {
            assert(self.lexeme_so_far() =~= seq![c]);
            assert(self.consumed()[n0] == c);
            assert(self.lexeme_so_far().push('=') =~= seq![c, '=']);
        }
        let ghost mid = *self;
        // 0: a token was added; 1: whitespace; 2: a comment
        let ghost mut what: int = 0;
        match c {
            '(' => self.add_symbol(TokenType::LeftParen),
            ')' => self.add_symbol(TokenType::RightParen),
            '{' => self.add_symbol(TokenType::LeftBrace),
            '}' => self.add_symbol(TokenType::RightBrace),
            '.' => self.add_symbol(TokenType::Dot),
            ',' => self.add_symbol(TokenType::Comma),
            ';' => self.add_symbol(TokenType::Semicolon),
            '-' => self.add_symbol(TokenType::Minus),
            '+' => self.add_symbol(TokenType::Plus),
            '*' => self.add_symbol(TokenType::Star),
            '/' => {
                let next = self.peek();
                let comment = match next {
                    Some(d) => d == '/',
                    None => false,
                };
                if comment {
                    proof {
                        what = 2;
                    }
                    self.line_comment();
                } else {
                    self.add_symbol(TokenType::Slash);
                }
            },
            '!' => self.operator(TokenType::Bang, TokenType::BangEqual),
            '=' => self.operator(TokenType::Equal, TokenType::EqualEqual),
            '<' => self.operator(TokenType::Less, TokenType::LessEqual),
            '>' => self.operator(TokenType::Greater, TokenType::GreaterEqual),
            ' ' | '\r' | '\t' | '\n' => {
                proof {
                    what = 1;
                }
            },
            '"' => {
                let r = self.string();
                proof {
                    if old(self).clean() && r is Ok {
                        self.lemma_wf();
                        lemma_gaps_push(src, r0, n0, self.consumed().len() as int);
                    }
                }
                return r;
            },
            '0'..='9' => {
                let r = self.number();
                proof {
                    if old(self).clean() && r is Ok {
                        self.lemma_wf();
                        lemma_gaps_push(src, r0, n0, self.consumed().len() as int);
                    }
                }
                return r;
            },
            _ => {
                if is_alphabetic(c) {
                    self.identifier();
                } else {
                    let one = string_of(slice_subrange(self.read.as_slice(), self.start_char, self.read.len()));
                    proof {
                        reveal_strlit("");
                        assert(one@ =~= seq![c]);
                        assert(("Unexpected char: "@ + one@ + ""@) =~= "Unexpected char: "@ + seq![c]);
                    }
                    return Err(
                        CompileError::Scanner(
                            (self.start, self.current),
                            join3("Unexpected char: ", one.as_str(), ""),
                        ),
                    );
                }
            },
        }
        proof {
            self.lemma_wf();
            if old(self).clean() {
                if what == 0 {
                    assert(self.added_token(mid));
                    lemma_gaps_push(src, r0, n0, self.consumed().len() as int);
                } else if what == 1 {
                    lemma_gaps_whitespace(src, r0, n0);
                } else {
                    lemma_gaps_comment(src, r0, n0, self.consumed().len() as int);
                }
            }
        }
        Ok(())
    }

    /// Scans the whole source: the tokens, ending with the end-of-input token, or
    /// every scanner diagnostic found.
    pub fn scan_tokens(&mut self) -> (r: Result<Vec<Token>, Vec<CompileError>>)
        requires
            old(self).wf(),
        ensures
            match r {
                Ok(ts) => {
                    &&& ts@.len() >= 1
                    &&& forall|k: int| 0 <= k < ts@.len() - 1 ==> scanned(old(self).text(), #[trigger] ts@[k])
                    &&& ts@.last()._type == TokenType::Eof
                    &&& ts@.last().literal is Nothing
                    &&& ts@.last().lexeme@ == Seq::<char>::empty()
                    &&& ts@.last().place.0 == encode_utf8(old(self).text()).len()
                    &&& ts@.last().place.1 == encode_utf8(old(self).text()).len()
                    &&& old(self).clean() ==> exists|rs: Seq<(int, int)>| covers(old(self).text(), ts@, rs)
                },
                Err(es) => es@.len() >= 1 && forall|k: int| 0 <= k < es@.len() ==> (#[trigger] es@[k])@.phase == Phase::Scanner,
            },
            old(self).consumed().len() == 0 && old(self).found().len() == 0 && all_whitespace(old(self).text())
                ==> r is Ok && r->Ok_0@.len() == 1,
            old(self).consumed().len() == 0 && old(self).found().len() == 0 ==> lexes_to(old(self).text(), r),
    {
        let mut errors: Vec<CompileError> = Vec::new();
        let ghost fresh = self.consumed().len() == 0 && self.found().len() == 0;
        loop
            invariant
                self.wf(),
                self.text() == old(self).text(),
                forall|k: int| 0 <= k < errors@.len() ==> (#[trigger] errors@[k])@.phase == Phase::Scanner,
                fresh == (old(self).consumed().len() == 0 && old(self).found().len() == 0),
                fresh && all_whitespace(self.consumed()) ==> self.found().len() == 0 && errors@.len() == 0,
                old(self).clean() && errors@.len() == 0 ==> self.clean(),
                fresh ==> progress(self.text(), self.found(), errors@.map_values(|e: CompileError| e@), self.consumed().len() as int),
            ensures
                fresh ==> progress(self.text(), self.found(), errors@.map_values(|e: CompileError| e@), self.consumed().len() as int),

                old(self).clean() && errors@.len() == 0 ==> self.clean(),
                self.wf(),
                self.text() == old(self).text(),
                forall|k: int| 0 <= k < errors@.len() ==> (#[trigger] errors@[k])@.phase == Phase::Scanner,
                fresh == (old(self).consumed().len() == 0 && old(self).found().len() == 0),
                fresh && all_whitespace(self.consumed()) ==> self.found().len() == 0 && errors@.len() == 0,
                self.consumed().len() == self.text().len(),
            decreases self.text().len() - self.consumed().len(),
        {
            proof {
                self.lemma_wf();
            }
            match self.peek() {
                None => {
                    break;
                },
                Some(_) => {},
            }
            self.start = self.current;
            self.start_char = self.read.len();
            proof {
                assert(self.settled());
            }
            let ghost before = self.consumed();
            let ghost pos = before.len() as int;
            let ghost ev0 = errors@.map_values(|e: CompileError| e@);
            let ghost f0 = self.found();
            match self.scan_token() {
                Err(e) => {
                    errors.push(e);
                },
                Ok(()) => {},
            }
            proof {
                let ev1 = errors@.map_values(|e: CompileError| e@);
                if fresh {
                    let src = self.text();
                    let st = step(src, pos);
                    let j = step_end(st);
                    assert(lex_from(src, pos) == match st {
                        Step::Skip(_) => lex_from(src, j),
                        Step::Tok(k, p, _) => (seq![(k, p, pos, j)] + lex_from(src, j).0, lex_from(src, j).1),
                        Step::Fault(m, _) => (lex_from(src, j).0, seq![scan_fault(src, m, pos, j)] + lex_from(src, j).1),
                    });
                    match st {
                        Step::Fault(m, _) => {
                            assert(ev1 =~= ev0.push(scan_fault(src, m, pos, j)));
                        },
                        _ => {
                            assert(ev1 =~= ev0);
                        },
                    }
                    lemma_progress_step(src, f0, ev0, pos, self.found(), ev1);
                }
            }
            proof {
                self.lemma_wf();
                if all_whitespace(self.consumed()) {
                    assert forall|i: int| 0 <= i < before.len() implies is_whitespace(#[trigger] before[i]) by {
                        assert(before[i] == self.consumed()[i]);
                    }
                }
            }
        }
        proof {
            self.lemma_wf();
            assert(self.text().subrange(0, self.text().len() as int) =~= self.text());
        }
        let ghost ev = errors@.map_values(|e: CompileError| e@);
        let eof = Token::new(TokenType::Eof, Literal::Nothing, String::new(), (self.current, self.current));
        let mut tokens: Vec<Token> = Vec::new();
        let ghost found = self.found();
        let ghost rs = self.token_ranges();
        std::mem::swap(&mut tokens, &mut self.tokens);
        tokens.push(eof);
        proof {
            assert forall|k: int| 0 <= k < tokens@.len() - 1 implies scanned(old(self).text(), #[trigger] tokens@[k]) by {
                assert(tokens@[k] == found[k]);
            }
            if fresh {
                let src = old(self).text();
                assert(lex_from(src, src.len() as int) == (Seq::<Lexed>::empty(), Seq::<Fault>::empty()));
                assert forall|k: int| 0 <= k < lex(src).0.len() implies token_is(src, #[trigger] tokens@[k], lex(src).0[k]) by {
                    assert(tokens@[k] == found[k]);
                }
                if errors@.len() > 0 {
                    assert(ev.len() > 0);
                }
                assert(ev =~= lex(src).1);
            }
            if fresh && all_whitespace(old(self).text()) {
                assert(self.consumed() =~= old(self).text());
            }
            if old(self).clean() && errors@.len() == 0 {
                assert forall|k: int| 0 <= k < rs.len() implies spans(
                    old(self).text(),
                    #[trigger] tokens@[k],
                    rs[k].0,
                    rs[k].1,
                ) by {
                    assert(tokens@[k] == found[k]);
                }
                assert(covers(old(self).text(), tokens@, rs));
            }
        }
        if errors.len() == 0 {
            Ok(tokens)
        } else {
            Err(errors)
        }
    }
}

} // verus!
