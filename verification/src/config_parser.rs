//! The document assembler: resolves the statements of a document in
//! source order, applies its definitions, and merges what the other
//! statements produce into the output dictionary.
//!
//! Policies: a later definition of a name shadows the earlier one; of two
//! entries with one key the later stays; a list at the top level goes
//! under the key `List`; a bare number at the top level is resolved, so
//! its errors count, and contributes nothing to the output.

use crate::laws::{law_output_sorted, law_resolved_well_formed};
use crate::number::{checked_power, read_number};
use crate::resolver::{
    agrees, bindings_wf, combine, constant_of, number_of, raise, resolve, resolve_entries, resolve_items,
    resolve_terms, slice_of, text, Bindings, ConfigError, Constants,
};
use crate::syntax::{document, parse_document, Chain, Node, Span, MINUS, PLUS};
use crate::value::{
    copy_bytes, dict_insert, dict_put, entries_view, lemma_entries_view, list_view, Value,
    ValueView,
};
use vstd::prelude::*;
use vstd::string::*;

verus! {

/// The key under which a list at the top level is stored: `List`.
pub open spec fn list_key() -> Seq<u8> {
    seq![76u8, 105u8, 115u8, 116u8]
}

/// `out` with the entries of `d` bound one after the other.
pub open spec fn merge_entries(out: Bindings, d: Bindings) -> Bindings
    decreases d.len(),
{
    if d.len() == 0 {
        out
    } else {
        merge_entries(dict_insert(out, d[0].0, d[0].1), d.drop_first())
    }
}

/// `out` after a statement has produced `v`.
pub open spec fn merged(out: Bindings, v: ValueView) -> Bindings {
    match v {
        ValueView::Dictionary(d) => merge_entries(out, d),
        ValueView::List(_) => dict_insert(out, list_key(), v),
        ValueView::Number(_) => out,
    }
}

/// The output dictionary and the constants after the statements of `c`,
/// starting from the constants `env` and the output `out`.
pub open spec fn assembled(src: Seq<u8>, c: Chain, env: Bindings, out: Bindings) -> Result<
    (Bindings, Bindings),
    ConfigError,
>
    decreases c,
{
    match c {
        Chain::End => Ok((out, env)),
        Chain::Link(_, n, rest) => match *n {
            Node::Define(name, v) => match resolve(src, env, *v) {
                Ok(val) => assembled(src, *rest, env.push((text(src, name), val)), out),
                Err(e) => Err(e),
            },
            _ => match resolve(src, env, *n) {
                Ok(val) => assembled(src, *rest, env, merged(out, val)),
                Err(e) => Err(e),
            },
        },
    }
}

/// What a document means: its output dictionary, sorted by key, and its
/// constants; or the error that stops it. A text outside the grammar is
/// a syntax error whatever else is wrong with it.
pub open spec fn meaning(input: Seq<u8>) -> Result<(Bindings, Bindings), ConfigError> {
    match document(input) {
        Err(e) => Err(ConfigError::Syntax(e)),
        Ok(c) => assembled(input, c, Seq::empty(), Seq::empty()),
    }
}

/// Whether `r` is the outcome that the text `input` has: its output
/// dictionary and constants, or its error.
pub open spec fn is_outcome(
    r: Result<(Vec<(Vec<u8>, Value)>, Constants), ConfigError>,
    input: Seq<u8>,
) -> bool {
    match r {
        Ok((out, constants)) => meaning(input) == Ok::<(Bindings, Bindings), ConfigError>(
            (entries_view(out@), constants@),
        ),
        Err(e) => meaning(input) == Err::<(Bindings, Bindings), ConfigError>(e),
    }
}

/// Joins two values by the operator at `op`.
pub fn apply_operator(src: &[u8], op: Span, left: &Value, right: &Value) -> (r: Result<
    Value,
    ConfigError,
>)
    ensures
        agrees(r, combine(src@, op, left@, right@)),
{
    let t = slice_of(src, op);
    if t.len() != 1 || (t[0] != PLUS && t[0] != MINUS) {
        return Err(ConfigError::UnsupportedOperation(op));
    }
    match (left, right) {
        (Value::Number(l), Value::Number(r)) => {
            let wide: i64 = if t[0] == PLUS {
                (*l as i64) + (*r as i64)
            } else {
                (*l as i64) - (*r as i64)
            };
            if wide > 2147483647 || wide < -2147483648 {
                Err(ConfigError::NumericOverflow(op))
            } else {
                Ok(Value::Number(wide as i32))
            }
        },
        _ => Err(ConfigError::UnsupportedOperation(op)),
    }
}

/// Raises `base` to `exponent` for the call of `pow` written at `span`.
pub fn apply_pow(span: Span, base: &Value, exponent: &Value) -> (r: Result<Value, ConfigError>)
    ensures
        agrees(r, raise(span, base@, exponent@)),
{
    match (base, exponent) {
        (Value::Number(b), Value::Number(e)) => {
            if *e < 0 {
                Err(ConfigError::InvalidExponent(span))
            } else {
                match checked_power(*b, *e as u32) {
                    Some(p) => Ok(Value::Number(p)),
                    None => Err(ConfigError::NumericOverflow(span)),
                }
            }
        },
        _ => Err(ConfigError::UnsupportedOperation(span)),
    }
}

/// Merges what a statement has produced into the output dictionary.
pub fn merge(out: &mut Vec<(Vec<u8>, Value)>, value: Value)
    ensures
        entries_view(final(out)@) == merged(entries_view(old(out)@), value@),
{
    match value {
        Value::Dictionary(entries) => {
            let ghost d = entries_view(entries@);
            let ghost start = entries_view(out@);
            proof {
                lemma_entries_view(entries@);
                assert(d.skip(0) =~= d);
            }
            let mut i: usize = 0;
            while i < entries.len()
                invariant
                    i <= entries.len(),
                    d == entries_view(entries@),
                    d.len() == entries@.len(),
                    forall|j: int|
                        0 <= j < d.len() ==> #[trigger] d[j] == (entries@[j].0@, entries@[j].1@),
                    merge_entries(start, d) == merge_entries(entries_view(out@), d.skip(i as int)),
                decreases entries.len() - i,
            {
                let key = copy_bytes(entries[i].0.as_slice());
                let v = entries[i].1.deep_copy();
                assert(d.skip(i as int).drop_first() =~= d.skip(i + 1));
                assert(d.skip(i as int)[0] == d[i as int]);
                dict_put(out, key, v);
                i += 1;
            }
        },
        Value::List(items) => {
            let key: Vec<u8> = vec![76u8, 105u8, 115u8, 116u8];
            assert(key@ =~= list_key());
            dict_put(out, key, Value::List(items));
        },
        Value::Number(_) => {},
    }
}

/// The resolver of one document, holding the constants defined so far.
#[derive(Debug)]
pub struct ConfigParser {
    pub constants: Constants,
}

impl ConfigParser {
    /// A resolver with no constants.
    pub fn new() -> (r: ConfigParser)
        ensures
            r.constants@ == Seq::<(Seq<u8>, ValueView)>::empty(),
    {
        ConfigParser { constants: Constants::new() }
    }

    /// The number of the literal at `span`.
    pub fn number(src: &[u8], span: Span) -> (r: Result<Value, ConfigError>)
        ensures
            agrees(r, number_of(src@, span)),
    {
        match read_number(slice_of(src, span)) {
            Some(n) => Ok(Value::Number(n)),
            None => Err(ConfigError::NumericOverflow(span)),
        }
    }

    /// A copy of the value of the constant named at `span`.
    pub fn constant(&self, src: &[u8], span: Span) -> (r: Result<Value, ConfigError>)
        ensures
            agrees(r, constant_of(src@, self.constants@, span)),
    {
        match self.constants.lookup(slice_of(src, span)) {
            Some(v) => Ok(v),
            None => Err(ConfigError::UndefinedConstant(span)),
        }
    }

    /// Resolves a node in value position: a literal, a name, a list, a
    /// dictionary or an expression.
    pub fn parse_value(&self, src: &[u8], node: &Node) -> (r: Result<Value, ConfigError>)
        ensures
            agrees(r, resolve(src@, self.constants@, *node)),
            bindings_wf(self.constants@) ==> (r matches Ok(v) ==> v@.wf()),
        decreases node, 1int,
    {
        proof {
            if bindings_wf(self.constants@) {
                law_resolved_well_formed(src@, self.constants@, *node);
            }
        }
        match node {
            Node::Number(span) => Self::number(src, *span),
            Node::Name(span) => self.constant(src, *span),
            Node::List(c) => match self.parse_items(src, c, Vec::new()) {
                Ok(items) => Ok(Value::List(items)),
                Err(e) => Err(e),
            },
            Node::Dictionary(c) => match self.parse_entries(src, c, Vec::new()) {
                Ok(entries) => Ok(Value::Dictionary(entries)),
                Err(e) => Err(e),
            },
            Node::Sum(_, _) => self.parse_expression(src, node),
            Node::Pow(_, _, _) => self.parse_expression(src, node),
            Node::Define(_, v) => self.parse_value(src, v),
        }
    }

    /// Resolves a node in operand position: sums are folded from the
    /// left, `pow` is applied to its two resolved arguments, and wrappers
    /// give way to what they hold.
    pub fn parse_expression(&self, src: &[u8], node: &Node) -> (r: Result<Value, ConfigError>)
        ensures
            agrees(r, resolve(src@, self.constants@, *node)),
        decreases node, 0int,
    {
        match node {
            Node::Sum(first, terms) => match self.parse_value(src, first) {
                Ok(left) => self.parse_terms(src, left, terms),
                Err(e) => Err(e),
            },
            Node::Pow(span, base, exponent) => match self.parse_value(src, base) {
                Ok(b) => match self.parse_value(src, exponent) {
                    Ok(e) => apply_pow(*span, &b, &e),
                    Err(e) => Err(e),
                },
                Err(e) => Err(e),
            },
            Node::Number(span) => Self::number(src, *span),
            Node::Name(span) => self.constant(src, *span),
            Node::List(c) => match self.parse_items(src, c, Vec::new()) {
                Ok(items) => Ok(Value::List(items)),
                Err(e) => Err(e),
            },
            Node::Dictionary(c) => match self.parse_entries(src, c, Vec::new()) {
                Ok(entries) => Ok(Value::Dictionary(entries)),
                Err(e) => Err(e),
            },
            Node::Define(_, v) => self.parse_value(src, v),
        }
    }

    /// Resolves the elements of a list and appends them to `acc`.
    pub fn parse_items(&self, src: &[u8], c: &Chain, acc: Vec<Value>) -> (r: Result<
        Vec<Value>,
        ConfigError,
    >)
        ensures
            match r {
                Ok(items) => resolve_items(src@, self.constants@, *c, list_view(acc@)) == Ok::<
                    Seq<ValueView>,
                    ConfigError,
                >(list_view(items@)),
                Err(e) => resolve_items(src@, self.constants@, *c, list_view(acc@)) == Err::<
                    Seq<ValueView>,
                    ConfigError,
                >(e),
            },
        decreases c, 0int,
    {
        match c {
            Chain::End => Ok(acc),
            Chain::Link(_, n, rest) => match self.parse_value(src, n) {
                Ok(v) => {
                    let mut acc = acc;
                    let ghost before = acc@;
                    acc.push(v);
                    assert(acc@.drop_last() =~= before);
                    self.parse_items(src, rest, acc)
                },
                Err(e) => Err(e),
            },
        }
    }

    /// Resolves the entries of a dictionary and binds them in `acc`.
    pub fn parse_entries(&self, src: &[u8], c: &Chain, acc: Vec<(Vec<u8>, Value)>) -> (r: Result<
        Vec<(Vec<u8>, Value)>,
        ConfigError,
    >)
        ensures
            match r {
                Ok(d) => resolve_entries(src@, self.constants@, *c, entries_view(acc@)) == Ok::<
                    Bindings,
                    ConfigError,
                >(entries_view(d@)),
                Err(e) => resolve_entries(src@, self.constants@, *c, entries_view(acc@)) == Err::<
                    Bindings,
                    ConfigError,
                >(e),
            },
        decreases c, 0int,
    {
        match c {
            Chain::End => Ok(acc),
            Chain::Link(key, n, rest) => match self.parse_value(src, n) {
                Ok(v) => {
                    let mut acc = acc;
                    dict_put(&mut acc, copy_bytes(slice_of(src, *key)), v);
                    self.parse_entries(src, rest, acc)
                },
                Err(e) => Err(e),
            },
        }
    }

    /// Joins `left` with the operands of `c`, one after the other.
    pub fn parse_terms(&self, src: &[u8], left: Value, c: &Chain) -> (r: Result<
        Value,
        ConfigError,
    >)
        ensures
            agrees(r, resolve_terms(src@, self.constants@, left@, *c)),
        decreases c, 0int,
    {
        match c {
            Chain::End => Ok(left),
            Chain::Link(op, n, rest) => match self.parse_value(src, n) {
                Ok(right) => match apply_operator(src, *op, &left, &right) {
                    Ok(v) => self.parse_terms(src, v, rest),
                    Err(e) => Err(e),
                },
                Err(e) => Err(e),
            },
        }
    }

    /// Applies a definition: resolves `value` against the constants as
    /// they are, then binds the name at `name` to the result. On an
    /// error the constants stay as they were.
    pub fn parse_def_statement(&mut self, src: &[u8], name: Span, value: &Node) -> (r: Result<
        (),
        ConfigError,
    >)
        ensures
            match r {
                Ok(_) => exists|v: ValueView|
                    resolve(src@, old(self).constants@, *value) == Ok::<ValueView, ConfigError>(v)
                        && final(self).constants@ == old(self).constants@.push(
                        (text(src@, name), v),
                    ),
                Err(e) => resolve(src@, old(self).constants@, *value) == Err::<
                    ValueView,
                    ConfigError,
                >(e) && final(self).constants@ == old(self).constants@,
            },
    {
        match self.parse_value(src, value) {
            Ok(v) => {
                self.constants.define(copy_bytes(slice_of(src, name)), v);
                Ok(())
            },
            Err(e) => Err(e),
        }
    }

    /// Runs the statements of `c` in source order: definitions change
    /// the constants, the other statements are merged into `out`.
    pub fn assemble(&mut self, src: &[u8], c: &Chain, out: &mut Vec<(Vec<u8>, Value)>) -> (r:
        Result<(), ConfigError>)
        ensures
            match r {
                Ok(_) => assembled(src@, *c, old(self).constants@, entries_view(old(out)@)) == Ok::<
                    (Bindings, Bindings),
                    ConfigError,
                >((entries_view(final(out)@), final(self).constants@)),
                Err(e) => assembled(src@, *c, old(self).constants@, entries_view(old(out)@))
                    == Err::<(Bindings, Bindings), ConfigError>(e),
            },
        decreases c,
    {
        match c {
            Chain::End => Ok(()),
            Chain::Link(_, n, rest) => {
                let node: &Node = n;
                match node {
                    Node::Define(name, v) => match self.parse_def_statement(src, *name, v) {
                        Ok(_) => self.assemble(src, rest, out),
                        Err(e) => Err(e),
                    },
                    _ => match self.parse_value(src, node) {
                        Ok(v) => {
                            merge(out, v);
                            self.assemble(src, rest, out)
                        },
                        Err(e) => Err(e),
                    },
                }
            },
        }
    }

    /// Parses and resolves a whole document: `Ok` with the output
    /// dictionary, sorted by key, and the constants, exactly when the
    /// document has a meaning; else its error.
    pub fn parse(input: &str) -> (r: Result<(Vec<(Vec<u8>, Value)>, Constants), ConfigError>)
        ensures
            is_outcome(r, input.spec_bytes()),
            r matches Ok((out, constants)) ==> ValueView::Dictionary(entries_view(out@)).wf()
                && bindings_wf(constants@),
    {
        proof {
            law_output_sorted(input.spec_bytes());
        }
        let src = input.as_bytes();
        match parse_document(src) {
            Err(e) => Err(ConfigError::Syntax(e)),
            Ok(c) => {
                let mut parser = ConfigParser::new();
                let mut out: Vec<(Vec<u8>, Value)> = Vec::new();
                match parser.assemble(src, &c, &mut out) {
                    Ok(_) => Ok((out, parser.constants)),
                    Err(e) => Err(e),
                }
            },
        }
    }
}

} // verus!
