//! What a node of the syntax tree means: the value it resolves to against
//! the constants defined so far, or the error that stops resolving.

use crate::number::{fits, literal_value, power};
use crate::syntax::{Chain, Node, Span, SyntaxError, MINUS, PLUS};
use crate::value::{bytes_eq, dict_insert, entries_view, lemma_entries_view, Value, ValueView};
use vstd::prelude::*;
use vstd::slice::slice_subrange;

verus! {

/// Why a document has no value. The span points at the offending name,
/// literal, operator or function in the source text.
#[derive(Clone, Copy, Debug, PartialEq, Eq, Structural)]
pub enum ConfigError {
    /// The text does not follow the grammar.
    Syntax(SyntaxError),
    /// A name is used that no earlier statement defines.
    UndefinedConstant(Span),
    /// An operator other than `+` and `-`, or an operand that is no number.
    UnsupportedOperation(Span),
    /// `pow` with a negative exponent.
    InvalidExponent(Span),
    /// A literal or a result that does not fit in 32 bits.
    NumericOverflow(Span),
}

/// Names bound to values, in the order of their definitions; of two
/// bindings of one name the later is the visible one.
pub type Bindings = Seq<(Seq<u8>, ValueView)>;

/// The text that `span` covers; empty where the span does not lie in `src`.
pub open spec fn text(src: Seq<u8>, span: Span) -> Seq<u8> {
    if span.start <= span.end <= src.len() {
        src.subrange(span.start as int, span.end as int)
    } else {
        Seq::empty()
    }
}

/// The value that `name` is bound to: that of its last binding.
pub open spec fn lookup(env: Bindings, name: Seq<u8>) -> Option<ValueView>
    decreases env.len(),
{
    if env.len() == 0 {
        None
    } else if env.last().0 == name {
        Some(env.last().1)
    } else {
        lookup(env.drop_last(), name)
    }
}

/// Every bound value is well formed.
pub open spec fn bindings_wf(env: Bindings) -> bool {
    forall|i: int| 0 <= i < env.len() ==> (#[trigger] env[i]).1.wf()
}

/// The number that a literal stands for.
pub open spec fn number_of(src: Seq<u8>, span: Span) -> Result<ValueView, ConfigError> {
    let v = literal_value(text(src, span));
    if fits(v) {
        Ok(ValueView::Number(v))
    } else {
        Err(ConfigError::NumericOverflow(span))
    }
}

/// The value of the constant that a name refers to.
pub open spec fn constant_of(src: Seq<u8>, env: Bindings, span: Span) -> Result<
    ValueView,
    ConfigError,
> {
    match lookup(env, text(src, span)) {
        Some(v) => Ok(v),
        None => Err(ConfigError::UndefinedConstant(span)),
    }
}

/// One step of a sum: `left` and `right` joined by the operator at `op`.
pub open spec fn combine(src: Seq<u8>, op: Span, left: ValueView, right: ValueView) -> Result<
    ValueView,
    ConfigError,
> {
    let t = text(src, op);
    if t.len() != 1 || (t[0] != PLUS && t[0] != MINUS) {
        Err(ConfigError::UnsupportedOperation(op))
    } else {
        match (left, right) {
            (ValueView::Number(l), ValueView::Number(r)) => {
                let v = if t[0] == PLUS {
                    l + r
                } else {
                    l - r
                };
                if fits(v) {
                    Ok(ValueView::Number(v))
                } else {
                    Err(ConfigError::NumericOverflow(op))
                }
            },
            _ => Err(ConfigError::UnsupportedOperation(op)),
        }
    }
}

/// `pow(base, exponent)`, written at `span`.
pub open spec fn raise(span: Span, base: ValueView, exponent: ValueView) -> Result<
    ValueView,
    ConfigError,
> {
    match (base, exponent) {
        (ValueView::Number(b), ValueView::Number(e)) => {
            if e < 0 {
                Err(ConfigError::InvalidExponent(span))
            } else if fits(power(b, e as nat)) {
                Ok(ValueView::Number(power(b, e as nat)))
            } else {
                Err(ConfigError::NumericOverflow(span))
            }
        },
        _ => Err(ConfigError::UnsupportedOperation(span)),
    }
}

/// The value of a node against the constants `env`. Operands are
/// resolved from left to right and the first error ends resolving.
pub open spec fn resolve(src: Seq<u8>, env: Bindings, n: Node) -> Result<ValueView, ConfigError>
    decreases n,
{
    match n {
        Node::Number(span) => number_of(src, span),
        Node::Name(span) => constant_of(src, env, span),
        Node::List(c) => match resolve_items(src, env, *c, Seq::empty()) {
            Ok(items) => Ok(ValueView::List(items)),
            Err(e) => Err(e),
        },
        Node::Dictionary(c) => match resolve_entries(src, env, *c, Seq::empty()) {
            Ok(d) => Ok(ValueView::Dictionary(d)),
            Err(e) => Err(e),
        },
        Node::Sum(first, terms) => match resolve(src, env, *first) {
            Ok(v) => resolve_terms(src, env, v, *terms),
            Err(e) => Err(e),
        },
        Node::Pow(span, base, exponent) => match resolve(src, env, *base) {
            Ok(b) => match resolve(src, env, *exponent) {
                Ok(e) => raise(span, b, e),
                Err(e) => Err(e),
            },
            Err(e) => Err(e),
        },
        Node::Define(_, v) => resolve(src, env, *v),
    }
}

/// `acc` followed by the values of the elements of `c`, in source order.
pub open spec fn resolve_items(src: Seq<u8>, env: Bindings, c: Chain, acc: Seq<ValueView>) -> Result<
    Seq<ValueView>,
    ConfigError,
>
    decreases c,
{
    match c {
        Chain::End => Ok(acc),
        Chain::Link(_, n, rest) => match resolve(src, env, *n) {
            Ok(v) => resolve_items(src, env, *rest, acc.push(v)),
            Err(e) => Err(e),
        },
    }
}

/// `acc` with the entries of `c` bound one after the other, so that of
/// two entries with one key the later stays.
pub open spec fn resolve_entries(src: Seq<u8>, env: Bindings, c: Chain, acc: Bindings) -> Result<
    Bindings,
    ConfigError,
>
    decreases c,
{
    match c {
        Chain::End => Ok(acc),
        Chain::Link(key, n, rest) => match resolve(src, env, *n) {
            Ok(v) => resolve_entries(src, env, *rest, dict_insert(acc, text(src, key), v)),
            Err(e) => Err(e),
        },
    }
}

/// `left` joined with the operands of `c`, one after the other.
pub open spec fn resolve_terms(src: Seq<u8>, env: Bindings, left: ValueView, c: Chain) -> Result<
    ValueView,
    ConfigError,
>
    decreases c,
{
    match c {
        Chain::End => Ok(left),
        Chain::Link(op, n, rest) => match resolve(src, env, *n) {
            Ok(right) => match combine(src, op, left, right) {
                Ok(v) => resolve_terms(src, env, v, *rest),
                Err(e) => Err(e),
            },
            Err(e) => Err(e),
        },
    }
}

/// Whether the outcome `r` is the outcome `m` of the model.
pub open spec fn agrees(r: Result<Value, ConfigError>, m: Result<ValueView, ConfigError>) -> bool {
    match r {
        Ok(v) => m == Ok::<ValueView, ConfigError>(v@),
        Err(e) => m == Err::<ValueView, ConfigError>(e),
    }
}

/// The part of `src` that `span` covers.
pub fn slice_of<'a>(src: &'a [u8], span: Span) -> (r: &'a [u8])
    ensures
        r@ == text(src@, span),
{
    if span.start <= span.end && span.end <= src.len() {
        slice_subrange(src, span.start, span.end)
    } else {
        let e = slice_subrange(src, 0, 0);
        assert(e@ =~= Seq::<u8>::empty());
        e
    }
}

/// The constants of a document, in the order of their definitions.
#[derive(Debug, PartialEq, Eq)]
pub struct Constants {
    pub bindings: Vec<(Vec<u8>, Value)>,
}

impl View for Constants {
    type V = Bindings;

    open spec fn view(&self) -> Bindings {
        entries_view(self.bindings@)
    }
}

impl Constants {
    /// No constants.
    pub fn new() -> (r: Constants)
        ensures
            r@ == Seq::<(Seq<u8>, ValueView)>::empty(),
    {
        Constants { bindings: Vec::new() }
    }

    /// Binds `name` to `value`; an earlier binding of the name is
    /// shadowed from now on.
    pub fn define(&mut self, name: Vec<u8>, value: Value)
        ensures
            final(self)@ == old(self)@.push((name@, value@)),
    {
        let ghost before = self.bindings@;
        self.bindings.push((name, value));
        assert(self.bindings@.drop_last() =~= before);
    }

    /// A deep copy of the value that `name` is bound to, if it is bound.
    pub fn lookup(&self, name: &[u8]) -> (r: Option<Value>)
        ensures
            match r {
                Some(v) => lookup(self@, name@) == Some(v@),
                None => lookup(self@, name@) is None,
            },
    {
        let ghost d = self@;
        proof {
            lemma_entries_view(self.bindings@);
            assert(d.subrange(0, d.len() as int) =~= d);
        }
        let mut i: usize = self.bindings.len();
        while i > 0
            invariant
                i <= self.bindings.len(),
                d == self@,
                d.len() == self.bindings@.len(),
                forall|j: int|
                    0 <= j < d.len() ==> #[trigger] d[j] == (
                        self.bindings@[j].0@,
                        self.bindings@[j].1@,
                    ),
                lookup(d, name@) == lookup(d.subrange(0, i as int), name@),
            decreases i,
        {
            i -= 1;
            assert(d.subrange(0, i + 1).drop_last() =~= d.subrange(0, i as int));
            assert(d.subrange(0, i + 1).last() == d[i as int]);
            if bytes_eq(self.bindings[i].0.as_slice(), name) {
                return Some(self.bindings[i].1.deep_copy());
            }
        }
        None
    }
}

} // verus!
