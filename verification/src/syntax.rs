//! The syntax layer: recognises the text of a document and builds its
//! syntax tree. Nothing is evaluated here; numbers and names stay spans of
//! the source text.
//!
//! ```text
//! document   := statement*
//! statement  := "(" "def" NAME value ")" ";" | (list | dictionary | expression) ";"?
//! list       := "(" "list" value* ")"
//! dictionary := "$[" [ NAME ":" value ( "," NAME ":" value )* ] "]"
//! expression := "^{" expr "}"
//! expr       := factor ( OPERATOR factor )*
//! factor     := NUMBER | "pow" "(" expr "," expr ")" | NAME | "(" expr ")"
//! value      := NUMBER | NAME | list | dictionary | expression
//! ```
//!
//! Blanks may stand between any two tokens. An OPERATOR is one of
//! `+ - * / %`; the syntax accepts all five, and resolving rejects the
//! last three. The word `pow` followed, blanks apart, by `(` is a call;
//! anywhere else it is a name like any other. A value may stand inside
//! fewer than `MAX_DEPTH` lists, dictionaries, expressions, parentheses
//! and arguments, and no deeper.
//!
//! The grammar is given as functions from a text and a position to a
//! node and the position behind it. Where one rule follows another, the
//! function tests that the first has moved forward: that is what makes
//! the definition well founded, and it never fails: every rule that
//! succeeds ends behind the position where it began.

use vstd::prelude::*;

verus! {

pub const OPEN_PAREN: u8 = 40;
pub const CLOSE_PAREN: u8 = 41;
pub const OPEN_BRACKET: u8 = 91;
pub const CLOSE_BRACKET: u8 = 93;
pub const OPEN_BRACE: u8 = 123;
pub const CLOSE_BRACE: u8 = 125;
pub const DOLLAR: u8 = 36;
pub const CARET: u8 = 94;
pub const COMMA: u8 = 44;
pub const COLON: u8 = 58;
pub const SEMICOLON: u8 = 59;
pub const PLUS: u8 = 43;
pub const MINUS: u8 = 45;
pub const STAR: u8 = 42;
pub const SLASH: u8 = 47;
pub const PERCENT: u8 = 37;

/// The limit of nesting: a value may stand inside fewer than this many
/// lists, dictionaries, expressions, parentheses and arguments of `pow`.
pub const MAX_DEPTH: usize = 128;

/// A stretch of the source text, from `start` up to `end`.
#[derive(Clone, Copy, Debug, PartialEq, Eq, Structural)]
pub struct Span {
    pub start: usize,
    pub end: usize,
}

/// Why a text is no document; each carries the offset where recognition
/// stopped.
#[derive(Clone, Copy, Debug, PartialEq, Eq, Structural)]
pub enum SyntaxError {
    /// The text ends inside a list.
    UnclosedList(usize),
    /// An entry of a dictionary is not `name : value`, or the dictionary
    /// is not closed.
    MalformedDictionary(usize),
    /// An operand is missing or a delimiter of an expression is not closed.
    MalformedExpression(usize),
    /// Anything else that no rule of the grammar allows.
    UnexpectedInput(usize),
    /// A value stands inside `MAX_DEPTH` constructs or more.
    TooDeep(usize),
}

/// A node of the syntax tree.
#[derive(Debug, PartialEq, Eq)]
pub enum Node {
    /// A number literal; the span covers sign and digits.
    Number(Span),
    /// A reference to a constant.
    Name(Span),
    /// A list; each link is labelled with the span of its element.
    List(Box<Chain>),
    /// A dictionary; each link is labelled with the span of its key.
    Dictionary(Box<Chain>),
    /// A first operand and the further ones, each labelled with the span
    /// of the operator in front of it.
    Sum(Box<Node>, Box<Chain>),
    /// `pow(base, exponent)`; the span covers the word `pow`.
    Pow(Span, Box<Node>, Box<Node>),
    /// A definition of the constant named by the span.
    Define(Span, Box<Node>),
}

/// A sequence of labelled nodes, in source order.
#[derive(Debug, PartialEq, Eq)]
pub enum Chain {
    End,
    Link(Span, Box<Node>, Box<Chain>),
}

impl Chain {
    /// The number of links.
    pub open spec fn length(self) -> nat
        decreases self,
    {
        match self {
            Chain::End => 0,
            Chain::Link(_, _, rest) => 1 + rest.length(),
        }
    }

    /// The node of link `i`, counted from 0.
    pub open spec fn element(self, i: nat) -> Node
        recommends
            i < self.length(),
        decreases self,
    {
        match self {
            Chain::End => arbitrary(),
            Chain::Link(_, n, rest) => if i == 0 {
                *n
            } else {
                rest.element((i - 1) as nat)
            },
        }
    }
}

/// The classes of bytes that make up runs.
#[derive(Clone, Copy, Debug, PartialEq, Eq, Structural)]
pub enum Class {
    Blank,
    Digit,
    NamePart,
}

pub open spec fn is_blank(b: u8) -> bool {
    b == 32 || b == 9 || b == 10 || b == 13
}

pub open spec fn is_digit(b: u8) -> bool {
    48 <= b <= 57
}

pub open spec fn is_name_start(b: u8) -> bool {
    65 <= b <= 90 || 97 <= b <= 122 || b == 95
}

pub open spec fn is_operator(b: u8) -> bool {
    b == PLUS || b == MINUS || b == STAR || b == SLASH || b == PERCENT
}

impl Class {
    /// Whether `b` belongs to the class.
    pub open spec fn holds(self, b: u8) -> bool {
        match self {
            Class::Blank => is_blank(b),
            Class::Digit => is_digit(b),
            Class::NamePart => is_name_start(b) || is_digit(b),
        }
    }

    pub fn contains(self, b: u8) -> (r: bool)
        ensures
            r == self.holds(b),
    {
        match self {
            Class::Blank => b == 32 || b == 9 || b == 10 || b == 13,
            Class::Digit => 48 <= b && b <= 57,
            Class::NamePart => (65 <= b && b <= 90) || (97 <= b && b <= 122) || b == 95 || (48 <= b
                && b <= 57),
        }
    }
}

/// The depth that is left inside a construct that stands at `depth`.
pub open spec fn inner(depth: usize) -> usize {
    (depth - 1) as usize
}

/// The position after `p`.
pub open spec fn next(p: usize) -> usize {
    (p + 1) as usize
}

/// Whether the byte at `p` is `b`.
pub open spec fn at(s: Seq<u8>, p: usize, b: u8) -> bool {
    p < s.len() && s[p as int] == b
}

/// The end of the longest run of bytes of `class` that starts at `pos`.
pub open spec fn run_end(s: Seq<u8>, pos: usize, class: Class) -> usize
    decreases s.len() - pos
        when s.len() <= usize::MAX
{
    if pos < s.len() && class.holds(s[pos as int]) {
        run_end(s, next(pos), class)
    } else {
        pos
    }
}

/// The end of the number literal that starts at `p`, or `p` where none does.
pub open spec fn number_end(s: Seq<u8>, p: usize) -> usize {
    let q = if at(s, p, PLUS) || at(s, p, MINUS) {
        next(p)
    } else {
        p
    };
    let e = run_end(s, q, Class::Digit);
    if e > q {
        e
    } else {
        p
    }
}

pub open spec fn is_list_word(s: Seq<u8>, a: usize, e: usize) -> bool {
    e <= s.len() && e - a == 4 && s[a as int] == 108 && s[a + 1] == 105 && s[a + 2] == 115 && s[a
        + 3] == 116
}

pub open spec fn is_def_word(s: Seq<u8>, a: usize, e: usize) -> bool {
    e <= s.len() && e - a == 3 && s[a as int] == 100 && s[a + 1] == 101 && s[a + 2] == 102
}

pub open spec fn is_pow_word(s: Seq<u8>, a: usize, e: usize) -> bool {
    e <= s.len() && e - a == 3 && s[a as int] == 112 && s[a + 1] == 111 && s[a + 2] == 119
}

/// The value that starts at or after `pos`, and where it ends.
pub open spec fn value_at(s: Seq<u8>, pos: usize, depth: usize) -> Result<(Node, usize), SyntaxError>
    decreases s.len() - pos, 1int
        when s.len() <= usize::MAX
{
    let p = run_end(s, pos, Class::Blank);
    if p < pos || p >= s.len() {
        Err(SyntaxError::UnexpectedInput(p))
    } else if depth == 0 {
        Err(SyntaxError::TooDeep(p))
    } else if number_end(s, p) > p {
        let e = number_end(s, p);
        Ok((Node::Number(Span { start: p, end: e }), e))
    } else if is_name_start(s[p as int]) {
        let e = run_end(s, p, Class::NamePart);
        Ok((Node::Name(Span { start: p, end: e }), e))
    } else if s[p as int] == OPEN_PAREN {
        let k = run_end(s, next(p), Class::Blank);
        let e = run_end(s, k, Class::NamePart);
        if k > p && is_list_word(s, k, e) {
            match items_at(s, e, inner(depth)) {
                Ok((c, q)) => Ok((Node::List(Box::new(c)), q)),
                Err(x) => Err(x),
            }
        } else {
            Err(SyntaxError::UnexpectedInput(k))
        }
    } else if s[p as int] == DOLLAR && at(s, next(p), OPEN_BRACKET) {
        match entries_at(s, next(next(p)), true, inner(depth)) {
            Ok((c, q)) => Ok((Node::Dictionary(Box::new(c)), q)),
            Err(x) => Err(x),
        }
    } else if s[p as int] == CARET && at(s, next(p), OPEN_BRACE) {
        match expr_at(s, next(next(p)), inner(depth)) {
            Ok((n, q)) => {
                let c = run_end(s, q, Class::Blank);
                if at(s, c, CLOSE_BRACE) {
                    Ok((n, next(c)))
                } else {
                    Err(SyntaxError::MalformedExpression(c))
                }
            },
            Err(x) => Err(x),
        }
    } else {
        Err(SyntaxError::UnexpectedInput(p))
    }
}

/// The elements of a list from `pos` up to its closing parenthesis.
pub open spec fn items_at(s: Seq<u8>, pos: usize, depth: usize) -> Result<(Chain, usize), SyntaxError>
    decreases s.len() - pos, 2int
        when s.len() <= usize::MAX
{
    let p = run_end(s, pos, Class::Blank);
    if p < pos || p >= s.len() {
        Err(SyntaxError::UnclosedList(p))
    } else if s[p as int] == CLOSE_PAREN {
        Ok((Chain::End, next(p)))
    } else {
        match value_at(s, p, depth) {
            Ok((n, q)) => if p < q <= s.len() {
                match items_at(s, q, depth) {
                    Ok((rest, r)) => Ok(
                        (Chain::Link(Span { start: p, end: q }, Box::new(n), Box::new(rest)), r),
                    ),
                    Err(x) => Err(x),
                }
            } else {
                Err(SyntaxError::UnexpectedInput(p))
            },
            Err(x) => Err(x),
        }
    }
}

/// The entries of a dictionary from `pos` up to its closing bracket;
/// every entry but the first has a comma in front of it.
pub open spec fn entries_at(s: Seq<u8>, pos: usize, first: bool, depth: usize) -> Result<
    (Chain, usize),
    SyntaxError,
>
    decreases s.len() - pos, 2int
        when s.len() <= usize::MAX
{
    let p = run_end(s, pos, Class::Blank);
    if p < pos || p >= s.len() {
        Err(SyntaxError::MalformedDictionary(p))
    } else if s[p as int] == CLOSE_BRACKET {
        Ok((Chain::End, next(p)))
    } else if !first && s[p as int] != COMMA {
        Err(SyntaxError::MalformedDictionary(p))
    } else {
        let k = if first {
            p
        } else {
            run_end(s, next(p), Class::Blank)
        };
        let e = run_end(s, k, Class::NamePart);
        let c = run_end(s, e, Class::Blank);
        if k < p || k >= s.len() || !is_name_start(s[k as int]) {
            Err(SyntaxError::MalformedDictionary(k))
        } else if c < k || !at(s, c, COLON) {
            Err(SyntaxError::MalformedDictionary(c))
        } else {
            match value_at(s, next(c), depth) {
                Ok((n, q)) => if p < q <= s.len() {
                    match entries_at(s, q, false, depth) {
                        Ok((rest, r)) => Ok(
                            (
                                Chain::Link(Span { start: k, end: e }, Box::new(n), Box::new(rest)),
                                r,
                            ),
                        ),
                        Err(x) => Err(x),
                    }
                } else {
                    Err(SyntaxError::UnexpectedInput(p))
                },
                Err(x) => Err(x),
            }
        }
    }
}

/// The operand that starts at or after `pos`.
pub open spec fn factor_at(s: Seq<u8>, pos: usize, depth: usize) -> Result<(Node, usize), SyntaxError>
    decreases s.len() - pos, 3int
        when s.len() <= usize::MAX
{
    let p = run_end(s, pos, Class::Blank);
    if p < pos || p >= s.len() {
        Err(SyntaxError::MalformedExpression(p))
    } else if depth == 0 {
        Err(SyntaxError::TooDeep(p))
    } else if number_end(s, p) > p {
        let e = number_end(s, p);
        Ok((Node::Number(Span { start: p, end: e }), e))
    } else if is_name_start(s[p as int]) {
        let e = run_end(s, p, Class::NamePart);
        let k = run_end(s, e, Class::Blank);
        if k > p && is_pow_word(s, p, e) && at(s, k, OPEN_PAREN) {
            match expr_at(s, next(k), inner(depth)) {
                Ok((base, q)) => {
                    let c = run_end(s, q, Class::Blank);
                    if c > p && at(s, c, COMMA) {
                        match expr_at(s, next(c), inner(depth)) {
                            Ok((exponent, q2)) => {
                                let c2 = run_end(s, q2, Class::Blank);
                                if at(s, c2, CLOSE_PAREN) {
                                    Ok(
                                        (
                                            Node::Pow(
                                                Span { start: p, end: e },
                                                Box::new(base),
                                                Box::new(exponent),
                                            ),
                                            next(c2),
                                        ),
                                    )
                                } else {
                                    Err(SyntaxError::MalformedExpression(c2))
                                }
                            },
                            Err(x) => Err(x),
                        }
                    } else {
                        Err(SyntaxError::MalformedExpression(c))
                    }
                },
                Err(x) => Err(x),
            }
        } else {
            Ok((Node::Name(Span { start: p, end: e }), e))
        }
    } else if s[p as int] == OPEN_PAREN {
        match expr_at(s, next(p), inner(depth)) {
            Ok((n, q)) => {
                let c = run_end(s, q, Class::Blank);
                if at(s, c, CLOSE_PAREN) {
                    Ok((n, next(c)))
                } else {
                    Err(SyntaxError::MalformedExpression(c))
                }
            },
            Err(x) => Err(x),
        }
    } else {
        Err(SyntaxError::MalformedExpression(p))
    }
}

/// The operands that follow the first one, from `pos` on, each with its
/// operator.
pub open spec fn terms_at(s: Seq<u8>, pos: usize, depth: usize) -> Result<(Chain, usize), SyntaxError>
    decreases s.len() - pos, 4int
        when s.len() <= usize::MAX
{
    let p = run_end(s, pos, Class::Blank);
    if p >= pos && p < s.len() && is_operator(s[p as int]) {
        match factor_at(s, next(p), depth) {
            Ok((n, q)) => if p < q <= s.len() {
                match terms_at(s, q, depth) {
                    Ok((rest, r)) => Ok(
                        (
                            Chain::Link(Span { start: p, end: next(p) }, Box::new(n), Box::new(rest)),
                            r,
                        ),
                    ),
                    Err(x) => Err(x),
                }
            } else {
                Err(SyntaxError::UnexpectedInput(p))
            },
            Err(x) => Err(x),
        }
    } else {
        Ok((Chain::End, p))
    }
}

/// The arithmetic expression that starts at or after `pos`.
pub open spec fn expr_at(s: Seq<u8>, pos: usize, depth: usize) -> Result<(Node, usize), SyntaxError>
    decreases s.len() - pos, 5int
        when s.len() <= usize::MAX
{
    match factor_at(s, pos, depth) {
        Ok((n, q)) => if pos < q <= s.len() {
            match terms_at(s, q, depth) {
                Ok((rest, r)) => Ok((Node::Sum(Box::new(n), Box::new(rest)), r)),
                Err(x) => Err(x),
            }
        } else {
            Err(SyntaxError::UnexpectedInput(pos))
        },
        Err(x) => Err(x),
    }
}

/// The statement that starts at `p`, where a byte that is no blank stands.
pub open spec fn statement_at(s: Seq<u8>, p: usize) -> Result<(Node, usize), SyntaxError> {
    if p >= s.len() {
        Err(SyntaxError::UnexpectedInput(p))
    } else {
        let k = run_end(s, next(p), Class::Blank);
        let e = run_end(s, k, Class::NamePart);
        if s[p as int] == OPEN_PAREN && is_def_word(s, k, e) {
            let n = run_end(s, e, Class::Blank);
            let ne = run_end(s, n, Class::NamePart);
            if n < s.len() && is_name_start(s[n as int]) {
                match value_at(s, ne, MAX_DEPTH) {
                    Ok((v, q)) => {
                        let c = run_end(s, q, Class::Blank);
                        let c2 = run_end(s, next(c), Class::Blank);
                        if !at(s, c, CLOSE_PAREN) {
                            Err(SyntaxError::UnexpectedInput(c))
                        } else if !at(s, c2, SEMICOLON) {
                            Err(SyntaxError::UnexpectedInput(c2))
                        } else {
                            Ok((Node::Define(Span { start: n, end: ne }, Box::new(v)), next(c2)))
                        }
                    },
                    Err(x) => Err(x),
                }
            } else {
                Err(SyntaxError::UnexpectedInput(n))
            }
        } else if s[p as int] == OPEN_PAREN || s[p as int] == DOLLAR || s[p as int] == CARET {
            match value_at(s, p, MAX_DEPTH) {
                Ok((v, q)) => {
                    let c = run_end(s, q, Class::Blank);
                    if at(s, c, SEMICOLON) {
                        Ok((v, next(c)))
                    } else {
                        Ok((v, q))
                    }
                },
                Err(x) => Err(x),
            }
        } else {
            Err(SyntaxError::UnexpectedInput(p))
        }
    }
}

/// The statements from `pos` to the end of the text, each labelled with
/// its span.
pub open spec fn statements_at(s: Seq<u8>, pos: usize) -> Result<Chain, SyntaxError>
    decreases s.len() - pos
        when s.len() <= usize::MAX
{
    let p = run_end(s, pos, Class::Blank);
    if p < pos || p >= s.len() {
        Ok(Chain::End)
    } else {
        match statement_at(s, p) {
            Ok((n, q)) => if p < q <= s.len() {
                match statements_at(s, q) {
                    Ok(rest) => Ok(
                        Chain::Link(Span { start: p, end: q }, Box::new(n), Box::new(rest)),
                    ),
                    Err(x) => Err(x),
                }
            } else {
                Err(SyntaxError::UnexpectedInput(p))
            },
            Err(x) => Err(x),
        }
    }
}

/// The syntax tree of the document `s`: its statements in source order.
pub open spec fn document(s: Seq<u8>) -> Result<Chain, SyntaxError> {
    statements_at(s, 0)
}

/// A run ends at or after its start and within the text, and behind its
/// first byte where that belongs to the class.
pub proof fn lemma_run_end(s: Seq<u8>, pos: usize, class: Class)
    requires
        pos <= s.len() <= usize::MAX,
    ensures
        pos <= run_end(s, pos, class) <= s.len(),
        pos < s.len() && class.holds(s[pos as int]) ==> pos < run_end(s, pos, class),
    decreases s.len() - pos,
{
    if pos < s.len() && class.holds(s[pos as int]) {
        lemma_run_end(s, next(pos), class);
    }
}

/// Whether `r`, where it is a success, ends behind `pos` and within a
/// text of length `len`.
pub open spec fn moves_forward<T>(r: Result<(T, usize), SyntaxError>, pos: usize, len: nat) -> bool {
    r matches Ok((_, q)) ==> pos < q <= len
}

/// A value that is recognised ends behind the position it was looked for
/// at, so the test for that in the grammar never fails.
pub proof fn law_value_moves_forward(s: Seq<u8>, pos: usize, depth: usize)
    requires
        pos <= s.len() <= usize::MAX,
    ensures
        moves_forward(value_at(s, pos, depth), pos, s.len()),
    decreases s.len() - pos, 1int,
{
    lemma_run_end(s, pos, Class::Blank);
    let p = run_end(s, pos, Class::Blank);
    if p < s.len() && depth > 0 {
        let d = if at(s, p, PLUS) || at(s, p, MINUS) {
            next(p)
        } else {
            p
        };
        lemma_run_end(s, d, Class::Digit);
        lemma_run_end(s, p, Class::NamePart);
        lemma_run_end(s, next(p), Class::Blank);
        let k = run_end(s, next(p), Class::Blank);
        lemma_run_end(s, k, Class::NamePart);
        let e = run_end(s, k, Class::NamePart);
        if number_end(s, p) > p {
        } else if is_name_start(s[p as int]) {
        } else if s[p as int] == OPEN_PAREN {
            if k > p && is_list_word(s, k, e) {
                law_items_move_forward(s, e, inner(depth));
            }
        } else if s[p as int] == DOLLAR && at(s, next(p), OPEN_BRACKET) {
            law_entries_move_forward(s, next(next(p)), true, inner(depth));
        } else if s[p as int] == CARET && at(s, next(p), OPEN_BRACE) {
            law_expr_moves_forward(s, next(next(p)), inner(depth));
            match expr_at(s, next(next(p)), inner(depth)) {
                Ok((_, q)) => lemma_run_end(s, q, Class::Blank),
                Err(_) => {},
            }
        }
    }
}

/// The elements of a list end behind the position they were looked for at.
pub proof fn law_items_move_forward(s: Seq<u8>, pos: usize, depth: usize)
    requires
        pos <= s.len() <= usize::MAX,
    ensures
        moves_forward(items_at(s, pos, depth), pos, s.len()),
    decreases s.len() - pos, 2int,
{
    lemma_run_end(s, pos, Class::Blank);
    let p = run_end(s, pos, Class::Blank);
    if p < s.len() && s[p as int] != CLOSE_PAREN {
        law_value_moves_forward(s, p, depth);
        match value_at(s, p, depth) {
            Ok((_, q)) => law_items_move_forward(s, q, depth),
            Err(_) => {},
        }
    }
}

/// The entries of a dictionary end behind the position they were looked
/// for at.
pub proof fn law_entries_move_forward(s: Seq<u8>, pos: usize, first: bool, depth: usize)
    requires
        pos <= s.len() <= usize::MAX,
    ensures
        moves_forward(entries_at(s, pos, first, depth), pos, s.len()),
    decreases s.len() - pos, 2int,
{
    lemma_run_end(s, pos, Class::Blank);
    let p = run_end(s, pos, Class::Blank);
    if p < s.len() && s[p as int] != CLOSE_BRACKET && (first || s[p as int] == COMMA) {
        if !first {
            lemma_run_end(s, next(p), Class::Blank);
        }
        let k = if first {
            p
        } else {
            run_end(s, next(p), Class::Blank)
        };
        lemma_run_end(s, k, Class::NamePart);
        let e = run_end(s, k, Class::NamePart);
        lemma_run_end(s, e, Class::Blank);
        let c = run_end(s, e, Class::Blank);
        if k < s.len() && is_name_start(s[k as int]) && at(s, c, COLON) {
            law_value_moves_forward(s, next(c), depth);
            match value_at(s, next(c), depth) {
                Ok((_, q)) => law_entries_move_forward(s, q, false, depth),
                Err(_) => {},
            }
        }
    }
}

/// An operand that is recognised ends behind the position it was looked
/// for at.
pub proof fn law_factor_moves_forward(s: Seq<u8>, pos: usize, depth: usize)
    requires
        pos <= s.len() <= usize::MAX,
    ensures
        moves_forward(factor_at(s, pos, depth), pos, s.len()),
    decreases s.len() - pos, 3int,
{
    lemma_run_end(s, pos, Class::Blank);
    let p = run_end(s, pos, Class::Blank);
    if p < s.len() && depth > 0 {
        let d = if at(s, p, PLUS) || at(s, p, MINUS) {
            next(p)
        } else {
            p
        };
        lemma_run_end(s, d, Class::Digit);
        lemma_run_end(s, p, Class::NamePart);
        let e = run_end(s, p, Class::NamePart);
        lemma_run_end(s, e, Class::Blank);
        let k = run_end(s, e, Class::Blank);
        if number_end(s, p) > p {
        } else if is_name_start(s[p as int]) {
            if k > p && is_pow_word(s, p, e) && at(s, k, OPEN_PAREN) {
                law_expr_moves_forward(s, next(k), inner(depth));
                match expr_at(s, next(k), inner(depth)) {
                    Ok((_, q)) => {
                        lemma_run_end(s, q, Class::Blank);
                        let c = run_end(s, q, Class::Blank);
                        if c > p && at(s, c, COMMA) {
                            law_expr_moves_forward(s, next(c), inner(depth));
                            match expr_at(s, next(c), inner(depth)) {
                                Ok((_, q2)) => lemma_run_end(s, q2, Class::Blank),
                                Err(_) => {},
                            }
                        }
                    },
                    Err(_) => {},
                }
            }
        } else if s[p as int] == OPEN_PAREN {
            law_expr_moves_forward(s, next(p), inner(depth));
            match expr_at(s, next(p), inner(depth)) {
                Ok((_, q)) => lemma_run_end(s, q, Class::Blank),
                Err(_) => {},
            }
        }
    }
}

/// The further operands of a sum end at or behind the position they were
/// looked for at, and within the text.
pub proof fn law_terms_stay_within(s: Seq<u8>, pos: usize, depth: usize)
    requires
        pos <= s.len() <= usize::MAX,
    ensures
        terms_at(s, pos, depth) matches Ok((_, q)) ==> pos <= q <= s.len(),
    decreases s.len() - pos, 4int,
{
    lemma_run_end(s, pos, Class::Blank);
    let p = run_end(s, pos, Class::Blank);
    if p < s.len() && is_operator(s[p as int]) {
        law_factor_moves_forward(s, next(p), depth);
        match factor_at(s, next(p), depth) {
            Ok((_, q)) => law_terms_stay_within(s, q, depth),
            Err(_) => {},
        }
    }
}

/// An expression that is recognised ends behind the position it was
/// looked for at.
pub proof fn law_expr_moves_forward(s: Seq<u8>, pos: usize, depth: usize)
    requires
        pos <= s.len() <= usize::MAX,
    ensures
        moves_forward(expr_at(s, pos, depth), pos, s.len()),
    decreases s.len() - pos, 5int,
{
    law_factor_moves_forward(s, pos, depth);
    match factor_at(s, pos, depth) {
        Ok((_, q)) => law_terms_stay_within(s, q, depth),
        Err(_) => {},
    }
}

/// A statement that is recognised ends behind the position it starts at.
pub proof fn law_statement_moves_forward(s: Seq<u8>, p: usize)
    requires
        p <= s.len() <= usize::MAX,
    ensures
        moves_forward(statement_at(s, p), p, s.len()),
{
    if p < s.len() {
        lemma_run_end(s, next(p), Class::Blank);
        let k = run_end(s, next(p), Class::Blank);
        lemma_run_end(s, k, Class::NamePart);
        let e = run_end(s, k, Class::NamePart);
        lemma_run_end(s, e, Class::Blank);
        let n = run_end(s, e, Class::Blank);
        lemma_run_end(s, n, Class::NamePart);
        let ne = run_end(s, n, Class::NamePart);
        if s[p as int] == OPEN_PAREN && is_def_word(s, k, e) {
            law_value_moves_forward(s, ne, MAX_DEPTH);
            match value_at(s, ne, MAX_DEPTH) {
                Ok((_, q)) => {
                    lemma_run_end(s, q, Class::Blank);
                    let c = run_end(s, q, Class::Blank);
                    if at(s, c, CLOSE_PAREN) {
                        lemma_run_end(s, next(c), Class::Blank);
                    }
                },
                Err(_) => {},
            }
        } else {
            law_value_moves_forward(s, p, MAX_DEPTH);
            match value_at(s, p, MAX_DEPTH) {
                Ok((_, q)) => lemma_run_end(s, q, Class::Blank),
                Err(_) => {},
            }
        }
    }
}

/// Finds the end of the run of bytes of `class` that starts at `pos`.
pub fn scan(s: &[u8], pos: usize, class: Class) -> (r: usize)
    requires
        pos <= s.len(),
    ensures
        r == run_end(s@, pos, class),
        pos <= r <= s.len(),
        pos < s.len() && class.holds(s@[pos as int]) ==> pos < r,
{
    let mut i = pos;
    while i < s.len() && class.contains(s[i])
        invariant
            pos <= i <= s.len(),
            s@.len() <= usize::MAX,
            run_end(s@, pos, class) == run_end(s@, i, class),
            pos < s.len() && class.holds(s@[pos as int]) ==> pos < i || i == pos,
            i == pos || (pos < s.len() && class.holds(s@[pos as int])),
        decreases s.len() - i,
    {
        i += 1;
    }
    i
}

/// Tells whether the byte at `p` is `b`.
pub fn peek(s: &[u8], p: usize, b: u8) -> (r: bool)
    ensures
        r == at(s@, p, b),
{
    p < s.len() && s[p] == b
}

/// Finds the end of the number literal that starts at `p`; `p` itself
/// where none starts there.
pub fn scan_number(s: &[u8], p: usize) -> (r: usize)
    requires
        p <= s.len(),
    ensures
        r == number_end(s@, p),
        p <= r <= s.len(),
{
    let q = if peek(s, p, PLUS) || peek(s, p, MINUS) {
        p + 1
    } else {
        p
    };
    let e = scan(s, q, Class::Digit);
    if e > q {
        e
    } else {
        p
    }
}

fn list_word(s: &[u8], a: usize, e: usize) -> (r: bool)
    requires
        a <= e <= s.len(),
    ensures
        r == is_list_word(s@, a, e),
{
    e - a == 4 && s[a] == 108 && s[a + 1] == 105 && s[a + 2] == 115 && s[a + 3] == 116
}

fn def_word(s: &[u8], a: usize, e: usize) -> (r: bool)
    requires
        a <= e <= s.len(),
    ensures
        r == is_def_word(s@, a, e),
{
    e - a == 3 && s[a] == 100 && s[a + 1] == 101 && s[a + 2] == 102
}

fn pow_word(s: &[u8], a: usize, e: usize) -> (r: bool)
    requires
        a <= e <= s.len(),
    ensures
        r == is_pow_word(s@, a, e),
{
    e - a == 3 && s[a] == 112 && s[a + 1] == 111 && s[a + 2] == 119
}

/// Recognises the value that starts at or after `pos`.
pub fn parse_value(s: &[u8], pos: usize, depth: usize) -> (r: Result<(Node, usize), SyntaxError>)
    requires
        pos <= s.len(),
    ensures
        r == value_at(s@, pos, depth),
        r matches Ok((_, q)) ==> pos < q <= s.len(),
    decreases s.len() - pos, 1int,
{
    let p = scan(s, pos, Class::Blank);
    if p >= s.len() {
        return Err(SyntaxError::UnexpectedInput(p));
    }
    if depth == 0 {
        return Err(SyntaxError::TooDeep(p));
    }
    let e = scan_number(s, p);
    if e > p {
        return Ok((Node::Number(Span { start: p, end: e }), e));
    }
    let b = s[p];
    if Class::NamePart.contains(b) && !Class::Digit.contains(b) {
        let e = scan(s, p, Class::NamePart);
        Ok((Node::Name(Span { start: p, end: e }), e))
    } else if b == OPEN_PAREN {
        let k = scan(s, p + 1, Class::Blank);
        let e = scan(s, k, Class::NamePart);
        if list_word(s, k, e) {
            match parse_items(s, e, depth - 1) {
                Ok((c, q)) => Ok((Node::List(Box::new(c)), q)),
                Err(x) => Err(x),
            }
        } else {
            Err(SyntaxError::UnexpectedInput(k))
        }
    } else if b == DOLLAR && peek(s, p + 1, OPEN_BRACKET) {
        match parse_entries(s, p + 2, true, depth - 1) {
            Ok((c, q)) => Ok((Node::Dictionary(Box::new(c)), q)),
            Err(x) => Err(x),
        }
    } else if b == CARET && peek(s, p + 1, OPEN_BRACE) {
        match parse_expr(s, p + 2, depth - 1) {
            Ok((n, q)) => {
                let c = scan(s, q, Class::Blank);
                if peek(s, c, CLOSE_BRACE) {
                    Ok((n, c + 1))
                } else {
                    Err(SyntaxError::MalformedExpression(c))
                }
            },
            Err(x) => Err(x),
        }
    } else {
        Err(SyntaxError::UnexpectedInput(p))
    }
}

/// Recognises the elements of a list up to its closing parenthesis.
pub fn parse_items(s: &[u8], pos: usize, depth: usize) -> (r: Result<(Chain, usize), SyntaxError>)
    requires
        pos <= s.len(),
    ensures
        r == items_at(s@, pos, depth),
        r matches Ok((_, q)) ==> pos < q <= s.len(),
    decreases s.len() - pos, 2int,
{
    let p = scan(s, pos, Class::Blank);
    if p >= s.len() {
        return Err(SyntaxError::UnclosedList(p));
    }
    if s[p] == CLOSE_PAREN {
        return Ok((Chain::End, p + 1));
    }
    match parse_value(s, p, depth) {
        Ok((n, q)) => match parse_items(s, q, depth) {
            Ok((rest, r)) => Ok(
                (Chain::Link(Span { start: p, end: q }, Box::new(n), Box::new(rest)), r),
            ),
            Err(x) => Err(x),
        },
        Err(x) => Err(x),
    }
}

/// Recognises the entries of a dictionary up to its closing bracket.
pub fn parse_entries(s: &[u8], pos: usize, first: bool, depth: usize) -> (r: Result<
    (Chain, usize),
    SyntaxError,
>)
    requires
        pos <= s.len(),
    ensures
        r == entries_at(s@, pos, first, depth),
        r matches Ok((_, q)) ==> pos < q <= s.len(),
    decreases s.len() - pos, 2int,
{
    let p = scan(s, pos, Class::Blank);
    if p >= s.len() {
        return Err(SyntaxError::MalformedDictionary(p));
    }
    if s[p] == CLOSE_BRACKET {
        return Ok((Chain::End, p + 1));
    }
    if !first && s[p] != COMMA {
        return Err(SyntaxError::MalformedDictionary(p));
    }
    let k = if first {
        p
    } else {
        scan(s, p + 1, Class::Blank)
    };
    let e = scan(s, k, Class::NamePart);
    let c = scan(s, e, Class::Blank);
    if k >= s.len() || !(Class::NamePart.contains(s[k]) && !Class::Digit.contains(s[k])) {
        return Err(SyntaxError::MalformedDictionary(k));
    }
    if !peek(s, c, COLON) {
        return Err(SyntaxError::MalformedDictionary(c));
    }
    match parse_value(s, c + 1, depth) {
        Ok((n, q)) => match parse_entries(s, q, false, depth) {
            Ok((rest, r)) => Ok(
                (Chain::Link(Span { start: k, end: e }, Box::new(n), Box::new(rest)), r),
            ),
            Err(x) => Err(x),
        },
        Err(x) => Err(x),
    }
}

/// Recognises the operand that starts at or after `pos`.
pub fn parse_factor(s: &[u8], pos: usize, depth: usize) -> (r: Result<(Node, usize), SyntaxError>)
    requires
        pos <= s.len(),
    ensures
        r == factor_at(s@, pos, depth),
        r matches Ok((_, q)) ==> pos < q <= s.len(),
    decreases s.len() - pos, 3int,
{
    let p = scan(s, pos, Class::Blank);
    if p >= s.len() {
        return Err(SyntaxError::MalformedExpression(p));
    }
    if depth == 0 {
        return Err(SyntaxError::TooDeep(p));
    }
    let e = scan_number(s, p);
    if e > p {
        return Ok((Node::Number(Span { start: p, end: e }), e));
    }
    let b = s[p];
    if Class::NamePart.contains(b) && !Class::Digit.contains(b) {
        let e = scan(s, p, Class::NamePart);
        let k = scan(s, e, Class::Blank);
        if pow_word(s, p, e) && peek(s, k, OPEN_PAREN) {
            match parse_expr(s, k + 1, depth - 1) {
                Ok((base, q)) => {
                    let c = scan(s, q, Class::Blank);
                    if peek(s, c, COMMA) {
                        match parse_expr(s, c + 1, depth - 1) {
                            Ok((exponent, q2)) => {
                                let c2 = scan(s, q2, Class::Blank);
                                if peek(s, c2, CLOSE_PAREN) {
                                    Ok(
                                        (
                                            Node::Pow(
                                                Span { start: p, end: e },
                                                Box::new(base),
                                                Box::new(exponent),
                                            ),
                                            c2 + 1,
                                        ),
                                    )
                                } else {
                                    Err(SyntaxError::MalformedExpression(c2))
                                }
                            },
                            Err(x) => Err(x),
                        }
                    } else {
                        Err(SyntaxError::MalformedExpression(c))
                    }
                },
                Err(x) => Err(x),
            }
        } else {
            Ok((Node::Name(Span { start: p, end: e }), e))
        }
    } else if b == OPEN_PAREN {
        match parse_expr(s, p + 1, depth - 1) {
            Ok((n, q)) => {
                let c = scan(s, q, Class::Blank);
                if peek(s, c, CLOSE_PAREN) {
                    Ok((n, c + 1))
                } else {
                    Err(SyntaxError::MalformedExpression(c))
                }
            },
            Err(x) => Err(x),
        }
    } else {
        Err(SyntaxError::MalformedExpression(p))
    }
}

/// Recognises the operators and operands that follow a first operand.
pub fn parse_terms(s: &[u8], pos: usize, depth: usize) -> (r: Result<(Chain, usize), SyntaxError>)
    requires
        pos <= s.len(),
    ensures
        r == terms_at(s@, pos, depth),
        r matches Ok((_, q)) ==> pos <= q <= s.len(),
    decreases s.len() - pos, 4int,
{
    let p = scan(s, pos, Class::Blank);
    if p < s.len() && (s[p] == PLUS || s[p] == MINUS || s[p] == STAR || s[p] == SLASH || s[p]
        == PERCENT) {
        match parse_factor(s, p + 1, depth) {
            Ok((n, q)) => match parse_terms(s, q, depth) {
                Ok((rest, r)) => Ok(
                    (Chain::Link(Span { start: p, end: p + 1 }, Box::new(n), Box::new(rest)), r),
                ),
                Err(x) => Err(x),
            },
            Err(x) => Err(x),
        }
    } else {
        Ok((Chain::End, p))
    }
}

/// Recognises the arithmetic expression that starts at or after `pos`.
pub fn parse_expr(s: &[u8], pos: usize, depth: usize) -> (r: Result<(Node, usize), SyntaxError>)
    requires
        pos <= s.len(),
    ensures
        r == expr_at(s@, pos, depth),
        r matches Ok((_, q)) ==> pos < q <= s.len(),
    decreases s.len() - pos, 5int,
{
    match parse_factor(s, pos, depth) {
        Ok((n, q)) => match parse_terms(s, q, depth) {
            Ok((rest, r)) => Ok((Node::Sum(Box::new(n), Box::new(rest)), r)),
            Err(x) => Err(x),
        },
        Err(x) => Err(x),
    }
}

/// Recognises the statement that starts at `p`.
pub fn parse_statement(s: &[u8], p: usize) -> (r: Result<(Node, usize), SyntaxError>)
    requires
        p <= s.len(),
    ensures
        r == statement_at(s@, p),
        r matches Ok((_, q)) ==> p < q <= s.len(),
{
    if p >= s.len() {
        return Err(SyntaxError::UnexpectedInput(p));
    }
    let k = scan(s, p + 1, Class::Blank);
    let e = scan(s, k, Class::NamePart);
    let b = s[p];
    if b == OPEN_PAREN && def_word(s, k, e) {
        let n = scan(s, e, Class::Blank);
        let ne = scan(s, n, Class::NamePart);
        if n < s.len() && Class::NamePart.contains(s[n]) && !Class::Digit.contains(s[n]) {
            match parse_value(s, ne, MAX_DEPTH) {
                Ok((v, q)) => {
                    let c = scan(s, q, Class::Blank);
                    if !peek(s, c, CLOSE_PAREN) {
                        return Err(SyntaxError::UnexpectedInput(c));
                    }
                    let c2 = scan(s, c + 1, Class::Blank);
                    if !peek(s, c2, SEMICOLON) {
                        Err(SyntaxError::UnexpectedInput(c2))
                    } else {
                        Ok((Node::Define(Span { start: n, end: ne }, Box::new(v)), c2 + 1))
                    }
                },
                Err(x) => Err(x),
            }
        } else {
            Err(SyntaxError::UnexpectedInput(n))
        }
    } else if b == OPEN_PAREN || b == DOLLAR || b == CARET {
        match parse_value(s, p, MAX_DEPTH) {
            Ok((v, q)) => {
                let c = scan(s, q, Class::Blank);
                if peek(s, c, SEMICOLON) {
                    Ok((v, c + 1))
                } else {
                    Ok((v, q))
                }
            },
            Err(x) => Err(x),
        }
    } else {
        Err(SyntaxError::UnexpectedInput(p))
    }
}

/// Recognises the statements from `pos` to the end of the text.
pub fn parse_statements(s: &[u8], pos: usize) -> (r: Result<Chain, SyntaxError>)
    requires
        pos <= s.len(),
    ensures
        r == statements_at(s@, pos),
    decreases s.len() - pos,
{
    let p = scan(s, pos, Class::Blank);
    if p >= s.len() {
        return Ok(Chain::End);
    }
    match parse_statement(s, p) {
        Ok((n, q)) => match parse_statements(s, q) {
            Ok(rest) => Ok(Chain::Link(Span { start: p, end: q }, Box::new(n), Box::new(rest))),
            Err(x) => Err(x),
        },
        Err(x) => Err(x),
    }
}

/// Recognises a whole document: `Ok` with its statements in source order
/// exactly when the text follows the grammar, else the first violation.
pub fn parse_document(s: &[u8]) -> (r: Result<Chain, SyntaxError>)
    ensures
        r == document(s@),
{
    parse_statements(s, 0)
}

} // verus!
