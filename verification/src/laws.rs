//! What holds of every document: definitions are seen only by what
//! follows them, lists keep their order, and every dictionary comes out
//! sorted by key.

use crate::config_parser::{assembled, is_outcome, meaning, merge_entries, merged};
use crate::resolver::{
    bindings_wf, combine, lookup, resolve, resolve_entries, resolve_items, resolve_terms, text,
    Bindings, ConfigError, Constants,
};
use crate::syntax::{Chain, Node, Span, MINUS, PLUS};
use crate::value::{
    dict_insert, entries_view, lemma_dict_insert, lemma_list_wf, Value, ValueView,
};
use vstd::prelude::*;

verus! {

/// A name stays bound to the value of its last definition, whatever
/// other names are defined after it.
pub proof fn law_lookup_latest(env: Bindings, name: Seq<u8>, v: ValueView, more: Bindings)
    requires
        forall|i: int| 0 <= i < more.len() ==> (#[trigger] more[i]).0 != name,
    ensures
        lookup(env.push((name, v)) + more, name) == Some(v),
    decreases more.len(),
{
    let all = env.push((name, v)) + more;
    if more.len() == 0 {
        assert(all =~= env.push((name, v)));
    } else {
        assert(all.last() == more.last());
        assert(all.drop_last() =~= env.push((name, v)) + more.drop_last());
        law_lookup_latest(env, name, v, more.drop_last());
    }
}

/// A definition whose value is a name defined just before it resolves,
/// and binds its own name to the value that the first definition had
/// when it was made.
pub proof fn law_reference_after_definition(
    src: Seq<u8>,
    env: Bindings,
    out: Bindings,
    first: Span,
    value: Node,
    second: Span,
    reference: Span,
    s1: Span,
    s2: Span,
    rest: Chain,
    x: ValueView,
)
    requires
        text(src, reference) == text(src, first),
        resolve(src, env, value) == Ok::<ValueView, ConfigError>(x),
    ensures
        assembled(
            src,
            Chain::Link(
                s1,
                Box::new(Node::Define(first, Box::new(value))),
                Box::new(
                    Chain::Link(
                        s2,
                        Box::new(Node::Define(second, Box::new(Node::Name(reference)))),
                        Box::new(rest),
                    ),
                ),
            ),
            env,
            out,
        ) == assembled(
            src,
            rest,
            env.push((text(src, first), x)).push((text(src, second), x)),
            out,
        ),
{
    let env1 = env.push((text(src, first), x));
    let tail = Chain::Link(
        s2,
        Box::new(Node::Define(second, Box::new(Node::Name(reference)))),
        Box::new(rest),
    );
    assert(env1.last() == (text(src, first), x));
    assert(lookup(env1, text(src, reference)) == Some(x));
    assert(resolve(src, env1, Node::Name(reference)) == Ok::<ValueView, ConfigError>(x));
    assert(assembled(src, tail, env1, out) == assembled(
        src,
        rest,
        env1.push((text(src, second), x)),
        out,
    ));
}

/// A definition whose value is a name that nothing before it defines
/// stops the document, whatever follows.
pub proof fn law_reference_before_definition(
    src: Seq<u8>,
    env: Bindings,
    out: Bindings,
    name: Span,
    reference: Span,
    s: Span,
    rest: Chain,
)
    requires
        lookup(env, text(src, reference)) is None,
    ensures
        assembled(
            src,
            Chain::Link(
                s,
                Box::new(Node::Define(name, Box::new(Node::Name(reference)))),
                Box::new(rest),
            ),
            env,
            out,
        ) == Err::<(Bindings, Bindings), ConfigError>(ConfigError::UndefinedConstant(reference)),
{
}

/// The elements of a resolved list follow `acc` one for one, in the
/// order of the chain.
pub proof fn lemma_items_in_order(src: Seq<u8>, env: Bindings, c: Chain, acc: Seq<ValueView>)
    ensures
        resolve_items(src, env, c, acc) matches Ok(items) ==> {
            &&& items.len() == acc.len() + c.length()
            &&& forall|i: int| 0 <= i < acc.len() ==> items[i] == acc[i]
            &&& forall|i: nat|
                i < c.length() ==> resolve(src, env, #[trigger] c.element(i)) == Ok::<
                    ValueView,
                    ConfigError,
                >(items[(acc.len() + i) as int])
        },
    decreases c,
{
    match c {
        Chain::End => {},
        Chain::Link(_, n, rest) => {
            match resolve(src, env, *n) {
                Ok(v) => {
                    lemma_items_in_order(src, env, *rest, acc.push(v));
                    match resolve_items(src, env, *rest, acc.push(v)) {
                        Ok(items) => {
                            assert(items[acc.len() as int] == acc.push(v)[acc.len() as int]);
                            assert forall|i: int| 0 <= i < acc.len() implies items[i]
                                == acc[i] by {
                                assert(acc.push(v)[i] == acc[i]);
                            }
                            assert forall|i: nat| i < c.length() implies resolve(
                                src,
                                env,
                                #[trigger] c.element(i),
                            ) == Ok::<ValueView, ConfigError>(items[(acc.len() + i) as int]) by {
                                if i > 0 {
                                    assert(c.element(i) == rest.element((i - 1) as nat));
                                }
                            }
                        },
                        Err(_) => {},
                    }
                },
                Err(_) => {},
            }
        },
    }
}

/// List order is preserved: a list resolves to as many values as it has
/// elements, and the value at each place is that of the element there.
pub proof fn law_list_order(src: Seq<u8>, env: Bindings, c: Chain)
    ensures
        resolve(src, env, Node::List(Box::new(c))) matches Ok(v) ==> {
            &&& v matches ValueView::List(items)
            &&& items.len() == c.length()
            &&& forall|i: nat|
                i < c.length() ==> resolve(src, env, #[trigger] c.element(i)) == Ok::<
                    ValueView,
                    ConfigError,
                >(items[i as int])
        },
{
    lemma_items_in_order(src, env, c, Seq::empty());
}

/// An operator other than `+` and `-` gives no number: the step fails
/// with `UnsupportedOperation`, whatever the operands are.
pub proof fn law_other_operator_rejected(src: Seq<u8>, op: Span, left: ValueView, right: ValueView)
    requires
        text(src, op) != seq![PLUS],
        text(src, op) != seq![MINUS],
    ensures
        combine(src, op, left, right) == Err::<ValueView, ConfigError>(
            ConfigError::UnsupportedOperation(op),
        ),
{
    let t = text(src, op);
    if t.len() == 1 {
        assert(t =~= seq![t[0]]);
    }
}

/// A constant that is bound to a well-formed value is looked up as one.
pub proof fn lemma_lookup_wf(env: Bindings, name: Seq<u8>)
    requires
        bindings_wf(env),
    ensures
        lookup(env, name) matches Some(v) ==> v.wf(),
    decreases env.len(),
{
    if env.len() > 0 && env.last().0 != name {
        let shorter = env.drop_last();
        assert forall|i: int| 0 <= i < shorter.len() implies (#[trigger] shorter[i]).1.wf() by {
            assert(shorter[i] == env[i]);
        }
        lemma_lookup_wf(shorter, name);
    }
}

/// Whatever a node resolves to is well formed: its numbers fit and its
/// dictionaries, at every depth, are sorted by key.
pub proof fn law_resolved_well_formed(src: Seq<u8>, env: Bindings, n: Node)
    requires
        bindings_wf(env),
    ensures
        resolve(src, env, n) matches Ok(v) ==> v.wf(),
    decreases n,
{
    match n {
        Node::Number(_) => {},
        Node::Name(span) => lemma_lookup_wf(env, text(src, span)),
        Node::List(c) => lemma_items_wf(src, env, *c, Seq::empty()),
        Node::Dictionary(c) => lemma_entries_wf(src, env, *c, Seq::empty()),
        Node::Sum(first, terms) => {
            law_resolved_well_formed(src, env, *first);
            match resolve(src, env, *first) {
                Ok(v) => lemma_terms_wf(src, env, v, *terms),
                Err(_) => {},
            }
        },
        Node::Pow(_, _, _) => {},
        Node::Define(_, v) => law_resolved_well_formed(src, env, *v),
    }
}

pub proof fn lemma_items_wf(src: Seq<u8>, env: Bindings, c: Chain, acc: Seq<ValueView>)
    requires
        bindings_wf(env),
        ValueView::List(acc).wf(),
    ensures
        resolve_items(src, env, c, acc) matches Ok(items) ==> ValueView::List(items).wf(),
    decreases c,
{
    match c {
        Chain::End => {},
        Chain::Link(_, n, rest) => {
            law_resolved_well_formed(src, env, *n);
            match resolve(src, env, *n) {
                Ok(v) => {
                    let longer = acc.push(v);
                    lemma_list_wf(acc);
                    lemma_list_wf(longer);
                    assert forall|i: int| 0 <= i < longer.len() implies (
                    #[trigger] longer[i]).wf() by {
                        if i < acc.len() {
                            assert(longer[i] == acc[i]);
                        } else {
                            assert(longer[i] == v);
                        }
                    }
                    lemma_items_wf(src, env, *rest, longer);
                },
                Err(_) => {},
            }
        },
    }
}

pub proof fn lemma_entries_wf(src: Seq<u8>, env: Bindings, c: Chain, acc: Bindings)
    requires
        bindings_wf(env),
        ValueView::Dictionary(acc).wf(),
    ensures
        resolve_entries(src, env, c, acc) matches Ok(d) ==> ValueView::Dictionary(d).wf(),
    decreases c,
{
    match c {
        Chain::End => {},
        Chain::Link(key, n, rest) => {
            law_resolved_well_formed(src, env, *n);
            match resolve(src, env, *n) {
                Ok(v) => {
                    lemma_dict_insert(acc, text(src, key), v);
                    lemma_entries_wf(
                        src,
                        env,
                        *rest,
                        dict_insert(acc, text(src, key), v),
                    );
                },
                Err(_) => {},
            }
        },
    }
}

pub proof fn lemma_terms_wf(src: Seq<u8>, env: Bindings, left: ValueView, c: Chain)
    requires
        bindings_wf(env),
        left.wf(),
    ensures
        resolve_terms(src, env, left, c) matches Ok(v) ==> v.wf(),
    decreases c,
{
    match c {
        Chain::End => {},
        Chain::Link(op, n, rest) => {
            match resolve(src, env, *n) {
                Ok(right) => match combine(src, op, left, right) {
                    Ok(v) => lemma_terms_wf(src, env, v, *rest),
                    Err(_) => {},
                },
                Err(_) => {},
            }
        },
    }
}

pub proof fn lemma_merge_entries_wf(out: Bindings, d: Bindings)
    requires
        ValueView::Dictionary(out).wf(),
        forall|i: int| 0 <= i < d.len() ==> (#[trigger] d[i]).1.wf(),
    ensures
        ValueView::Dictionary(merge_entries(out, d)).wf(),
    decreases d.len(),
{
    if d.len() > 0 {
        lemma_dict_insert(out, d[0].0, d[0].1);
        let t = d.drop_first();
        assert forall|i: int| 0 <= i < t.len() implies (#[trigger] t[i]).1.wf() by {
            assert(t[i] == d[i + 1]);
        }
        lemma_merge_entries_wf(dict_insert(out, d[0].0, d[0].1), t);
    }
}

/// Statements keep the output dictionary sorted and the constants well
/// formed.
pub proof fn law_assembled_well_formed(src: Seq<u8>, c: Chain, env: Bindings, out: Bindings)
    requires
        bindings_wf(env),
        ValueView::Dictionary(out).wf(),
    ensures
        assembled(src, c, env, out) matches Ok((o, e)) ==> ValueView::Dictionary(o).wf()
            && bindings_wf(e),
    decreases c,
{
    match c {
        Chain::End => {},
        Chain::Link(_, n, rest) => {
            match *n {
                Node::Define(name, v) => {
                    law_resolved_well_formed(src, env, *v);
                    match resolve(src, env, *v) {
                        Ok(val) => {
                            let longer = env.push((text(src, name), val));
                            assert forall|i: int| 0 <= i < longer.len() implies (
                            #[trigger] longer[i]).1.wf() by {
                                if i < env.len() {
                                    assert(longer[i] == env[i]);
                                }
                            }
                            law_assembled_well_formed(src, *rest, longer, out);
                        },
                        Err(_) => {},
                    }
                },
                _ => {
                    law_resolved_well_formed(src, env, *n);
                    match resolve(src, env, *n) {
                        Ok(val) => {
                            match val {
                                ValueView::Dictionary(d) => lemma_merge_entries_wf(out, d),
                                ValueView::List(_) => lemma_dict_insert(
                                    out,
                                    crate::config_parser::list_key(),
                                    val,
                                ),
                                ValueView::Number(_) => {},
                            }
                            law_assembled_well_formed(src, *rest, env, merged(out, val));
                        },
                        Err(_) => {},
                    }
                },
            }
        },
    }
}

/// The output dictionary of every document is sorted by key, at every
/// depth, in whatever order the text gives the keys.
pub proof fn law_output_sorted(input: Seq<u8>)
    ensures
        meaning(input) matches Ok((o, e)) ==> ValueView::Dictionary(o).wf() && bindings_wf(e),
{
    match crate::syntax::document(input) {
        Ok(c) => law_assembled_well_formed(input, c, Seq::empty(), Seq::empty()),
        Err(_) => {},
    }
}

/// One text has one outcome: two runs on the same text agree on whether
/// it succeeds, on the output dictionary and the constants, and on the
/// error.
pub proof fn law_one_outcome(
    input: Seq<u8>,
    r1: Result<(Vec<(Vec<u8>, Value)>, Constants), ConfigError>,
    r2: Result<(Vec<(Vec<u8>, Value)>, Constants), ConfigError>,
)
    requires
        is_outcome(r1, input),
        is_outcome(r2, input),
    ensures
        match (r1, r2) {
            (Ok((o1, c1)), Ok((o2, c2))) => entries_view(o1@) == entries_view(o2@) && c1@ == c2@,
            (Err(e1), Err(e2)) => e1 == e2,
            _ => false,
        },
{
}

} // verus!
