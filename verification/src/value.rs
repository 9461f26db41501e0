//! The value model: numbers, ordered lists, and dictionaries whose
//! entries are kept sorted by key.

use vstd::prelude::*;

verus! {

/// An evaluated value. A dictionary holds its entries sorted by key, each
/// key once; keys are the bytes of an identifier.
#[derive(Debug, PartialEq, Eq)]
pub enum Value {
    Number(i32),
    List(Vec<Value>),
    Dictionary(Vec<(Vec<u8>, Value)>),
}

/// The mathematical model of a [`Value`].
pub enum ValueView {
    Number(int),
    List(Seq<ValueView>),
    Dictionary(Seq<(Seq<u8>, ValueView)>),
}

/// The models of the values of `s`, in order.
pub open spec fn list_view(s: Seq<Value>) -> Seq<ValueView>
    decreases s, 0int,
{
    if s.len() == 0 {
        Seq::empty()
    } else {
        list_view(s.drop_last()).push(s.last().view())
    }
}

/// The models of the entries of `s`, in order.
pub open spec fn entries_view(s: Seq<(Vec<u8>, Value)>) -> Seq<(Seq<u8>, ValueView)>
    decreases s, 0int,
{
    if s.len() == 0 {
        Seq::empty()
    } else {
        entries_view(s.drop_last()).push((s.last().0@, s.last().1.view()))
    }
}

impl View for Value {
    type V = ValueView;

    open spec fn view(&self) -> ValueView
        decreases self, 1int,
    {
        match self {
            Value::Number(n) => ValueView::Number(*n as int),
            Value::List(items) => ValueView::List(list_view(items@)),
            Value::Dictionary(entries) => ValueView::Dictionary(entries_view(entries@)),
        }
    }
}

/// `list_view` works element by element.
pub proof fn lemma_list_view(s: Seq<Value>)
    ensures
        list_view(s).len() == s.len(),
        forall|i: int| 0 <= i < s.len() ==> #[trigger] list_view(s)[i] == s[i]@,
    decreases s.len(),
{
    if s.len() > 0 {
        lemma_list_view(s.drop_last());
        assert(list_view(s) == list_view(s.drop_last()).push(s.last()@));
    } else {
        assert(list_view(s) == Seq::<ValueView>::empty());
    }
}

/// `entries_view` works entry by entry.
pub proof fn lemma_entries_view(s: Seq<(Vec<u8>, Value)>)
    ensures
        entries_view(s).len() == s.len(),
        forall|i: int| 0 <= i < s.len() ==> #[trigger] entries_view(s)[i] == (s[i].0@, s[i].1@),
    decreases s.len(),
{
    if s.len() > 0 {
        lemma_entries_view(s.drop_last());
        assert(entries_view(s) == entries_view(s.drop_last()).push((s.last().0@, s.last().1@)));
    } else {
        assert(entries_view(s) == Seq::<(Seq<u8>, ValueView)>::empty());
    }
}

/// Lexicographic order on byte strings: `a` comes strictly before `b`.
pub open spec fn key_lt(a: Seq<u8>, b: Seq<u8>) -> bool
    decreases a.len(),
{
    if b.len() == 0 {
        false
    } else if a.len() == 0 {
        true
    } else if a[0] != b[0] {
        a[0] < b[0]
    } else {
        key_lt(a.drop_first(), b.drop_first())
    }
}

/// The order of keys is transitive.
pub proof fn lemma_key_lt_transitive(a: Seq<u8>, b: Seq<u8>, c: Seq<u8>)
    requires
        key_lt(a, b),
        key_lt(b, c),
    ensures
        key_lt(a, c),
    decreases a.len(),
{
    if a.len() > 0 && a[0] == b[0] && b[0] == c[0] {
        lemma_key_lt_transitive(a.drop_first(), b.drop_first(), c.drop_first());
    }
}

/// No key comes before itself.
pub proof fn lemma_key_lt_irreflexive(a: Seq<u8>)
    ensures
        !key_lt(a, a),
    decreases a.len(),
{
    if a.len() > 0 {
        lemma_key_lt_irreflexive(a.drop_first());
    }
}

/// Of two different keys one comes before the other.
pub proof fn lemma_key_lt_total(a: Seq<u8>, b: Seq<u8>)
    ensures
        key_lt(a, b) || key_lt(b, a) || a == b,
    decreases a.len(),
{
    if a.len() > 0 && b.len() > 0 {
        if a[0] == b[0] {
            lemma_key_lt_total(a.drop_first(), b.drop_first());
            if a.drop_first() == b.drop_first() {
                assert(a =~= seq![a[0]] + a.drop_first());
                assert(b =~= seq![b[0]] + b.drop_first());
            }
        }
    } else if a.len() == 0 && b.len() == 0 {
        assert(a =~= b);
    }
}

/// The keys of `d` strictly increase.
pub open spec fn sorted(d: Seq<(Seq<u8>, ValueView)>) -> bool {
    forall|i: int, j: int| 0 <= i < j < d.len() ==> key_lt(#[trigger] d[i].0, #[trigger] d[j].0)
}

impl ValueView {
    /// Numbers fit in 32 bits and every dictionary, at any depth, has its
    /// keys in strictly increasing order.
    pub open spec fn wf(self) -> bool
        decreases self,
    {
        match self {
            ValueView::Number(n) => i32::MIN <= n <= i32::MAX,
            ValueView::List(items) => forall|i: int|
                0 <= i < items.len() ==> (#[trigger] items[i]).wf(),
            ValueView::Dictionary(d) => sorted(d) && forall|i: int|
                0 <= i < d.len() ==> (#[trigger] d[i]).1.wf(),
        }
    }
}

/// A list is well formed exactly when each of its elements is.
pub proof fn lemma_list_wf(items: Seq<ValueView>)
    ensures
        ValueView::List(items).wf() <==> forall|i: int|
            0 <= i < items.len() ==> (#[trigger] items[i]).wf(),
{
    assert(ValueView::List(items)->List_0 == items);
}

/// The number of leading entries of a sorted `d` whose key comes before `k`.
pub open spec fn rank(d: Seq<(Seq<u8>, ValueView)>, k: Seq<u8>) -> int
    decreases d.len(),
{
    if d.len() == 0 || !key_lt(d[0].0, k) {
        0
    } else {
        1 + rank(d.drop_first(), k)
    }
}

/// `d` with `k` bound to `v`: an entry with key `k` is replaced, otherwise
/// the new entry goes where the order of the keys puts it.
pub open spec fn dict_insert(d: Seq<(Seq<u8>, ValueView)>, k: Seq<u8>, v: ValueView) -> Seq<
    (Seq<u8>, ValueView),
> {
    let i = rank(d, k);
    if i < d.len() && d[i].0 == k {
        d.update(i, (k, v))
    } else {
        d.insert(i, (k, v))
    }
}

/// The value that `d` binds `k` to.
pub open spec fn dict_get(d: Seq<(Seq<u8>, ValueView)>, k: Seq<u8>) -> Option<ValueView> {
    let i = rank(d, k);
    if i < d.len() && d[i].0 == k {
        Some(d[i].1)
    } else {
        None
    }
}

/// `rank` is the one index that splits a sorted `d` at `k`.
pub proof fn lemma_rank(d: Seq<(Seq<u8>, ValueView)>, k: Seq<u8>, i: int)
    requires
        0 <= i <= d.len(),
        forall|j: int| 0 <= j < i ==> key_lt(#[trigger] d[j].0, k),
        i < d.len() ==> !key_lt(d[i].0, k),
    ensures
        rank(d, k) == i,
    decreases d.len(),
{
    if i > 0 {
        assert(key_lt(d[0].0, k));
        let t = d.drop_first();
        assert forall|j: int| 0 <= j < i - 1 implies key_lt(#[trigger] t[j].0, k) by {
            assert(t[j] == d[j + 1]);
        }
        lemma_rank(t, k, i - 1);
    }
}

/// `rank` stays within `d`, everything before it has a smaller key, and in
/// a sorted `d` nothing from it on has.
pub proof fn lemma_rank_bounds(d: Seq<(Seq<u8>, ValueView)>, k: Seq<u8>)
    ensures
        0 <= rank(d, k) <= d.len(),
        forall|j: int| 0 <= j < rank(d, k) ==> key_lt(#[trigger] d[j].0, k),
        rank(d, k) < d.len() ==> !key_lt(d[rank(d, k)].0, k),
    decreases d.len(),
{
    if d.len() != 0 && key_lt(d[0].0, k) {
        let t = d.drop_first();
        lemma_rank_bounds(t, k);
        assert forall|j: int| 0 <= j < rank(d, k) implies key_lt(#[trigger] d[j].0, k) by {
            if j > 0 {
                assert(d[j] == t[j - 1]);
            }
        }
        if rank(d, k) < d.len() {
            assert(d[rank(d, k)] == t[rank(t, k)]);
        }
    }
}

/// Binding a key in a well-formed dictionary leaves it well formed, with
/// the key bound to the new value and every other key bound as before.
pub proof fn lemma_dict_insert(d: Seq<(Seq<u8>, ValueView)>, k: Seq<u8>, v: ValueView)
    requires
        ValueView::Dictionary(d).wf(),
        v.wf(),
    ensures
        ValueView::Dictionary(dict_insert(d, k, v)).wf(),
        dict_get(dict_insert(d, k, v), k) == Some(v),
{
    let i = rank(d, k);
    let r = dict_insert(d, k, v);
    lemma_rank_bounds(d, k);
    lemma_key_lt_irreflexive(k);
    assert(r[i] == (k, v));
    assert forall|a: int, b: int| 0 <= a < b < r.len() implies key_lt(
        #[trigger] r[a].0,
        #[trigger] r[b].0,
    ) by {
        if i < d.len() && d[i].0 == k {
            assert(r[a].0 == d[a].0 && r[b].0 == d[b].0);
        } else {
            let a0 = if a < i { a } else { a - 1 };
            let b0 = if b < i { b } else { b - 1 };
            if a == i {
                assert(r[b] == d[b0]);
                // k < d[i] <= d[b0]
                lemma_key_lt_total(d[i].0, k);
                if b0 > i {
                    assert(key_lt(d[i].0, d[b0].0));
                    lemma_key_lt_transitive(k, d[i].0, d[b0].0);
                }
            } else if b == i {
                assert(r[a] == d[a0]);
            } else {
                assert(r[a] == d[a0] && r[b] == d[b0]);
            }
        }
    }
    assert forall|a: int| 0 <= a < r.len() implies (#[trigger] r[a]).1.wf() by {
        if i < d.len() && d[i].0 == k {
            if a != i {
                assert(r[a] == d[a]);
            }
        } else {
            if a < i {
                assert(r[a] == d[a]);
            } else if a > i {
                assert(r[a] == d[a - 1]);
            }
        }
    }
    lemma_rank(r, k, i);
}

/// Tells whether two byte strings are equal.
pub fn bytes_eq(a: &[u8], b: &[u8]) -> (r: bool)
    ensures
        r == (a@ == b@),
{
    if a.len() != b.len() {
        return false;
    }
    let mut i: usize = 0;
    while i < a.len()
        invariant
            i <= a.len(),
            a.len() == b.len(),
            forall|j: int| 0 <= j < i ==> a@[j] == b@[j],
        decreases a.len() - i,
    {
        if a[i] != b[i] {
            return false;
        }
        i += 1;
    }
    assert(a@ =~= b@);
    true
}

/// Tells whether `a` comes before `b` in the order of keys.
pub fn bytes_lt(a: &[u8], b: &[u8]) -> (r: bool)
    ensures
        r == key_lt(a@, b@),
{
    let mut i: usize = 0;
    assert(a@.skip(0) =~= a@ && b@.skip(0) =~= b@);
    while i < a.len() && i < b.len()
        invariant
            i <= a.len(),
            i <= b.len(),
            key_lt(a@, b@) == key_lt(a@.skip(i as int), b@.skip(i as int)),
        decreases a.len() - i,
    {
        if a[i] != b[i] {
            return a[i] < b[i];
        }
        assert(a@.skip(i as int).drop_first() =~= a@.skip(i + 1));
        assert(b@.skip(i as int).drop_first() =~= b@.skip(i + 1));
        i += 1;
    }
    i < b.len()
}

/// Binds `key` to `value` in the sorted `entries`: replaces the entry
/// with that key, or inserts a new one where the order puts it.
pub fn dict_put(entries: &mut Vec<(Vec<u8>, Value)>, key: Vec<u8>, value: Value)
    ensures
        entries_view(final(entries)@) == dict_insert(entries_view(old(entries)@), key@, value@),
{
    let mut i: usize = 0;
    while i < entries.len() && bytes_lt(entries[i].0.as_slice(), key.as_slice())
        invariant
            i <= entries.len(),
            forall|j: int| 0 <= j < i ==> key_lt(#[trigger] entries@[j].0@, key@),
        decreases entries.len() - i,
    {
        i += 1;
    }
    let ghost before = entries@;
    proof {
        lemma_entries_view(before);
        let d = entries_view(before);
        assert forall|j: int| 0 <= j < i implies key_lt(#[trigger] d[j].0, key@) by {
            assert(d[j].0 == before[j].0@);
        }
        lemma_rank(d, key@, i as int);
    }
    if i < entries.len() && bytes_eq(entries[i].0.as_slice(), key.as_slice()) {
        entries.set(i, (key, value));
    } else {
        entries.insert(i, (key, value));
    }
    proof {
        lemma_entries_view(entries@);
        assert(entries_view(entries@) =~= dict_insert(entries_view(before), key@, value@));
    }
}

/// Copies a byte string.
pub fn copy_bytes(s: &[u8]) -> (r: Vec<u8>)
    ensures
        r@ == s@,
{
    let mut out: Vec<u8> = Vec::new();
    let mut i: usize = 0;
    while i < s.len()
        invariant
            i <= s.len(),
            out@ == s@.subrange(0, i as int),
        decreases s.len() - i,
    {
        out.push(s[i]);
        assert(out@ =~= s@.subrange(0, i + 1));
        i += 1;
    }
    assert(out@ =~= s@);
    out
}

/// Deep copies of the values of `items`, in order.
pub fn copy_list(items: &Vec<Value>) -> (out: Vec<Value>)
    ensures
        list_view(out@) == list_view(items@),
    decreases items,
{
    let mut out: Vec<Value> = Vec::new();
    let mut i: usize = 0;
    while i < items.len()
        invariant
            i <= items.len(),
            out@.len() == i,
            forall|j: int| 0 <= j < i ==> (#[trigger] out@[j])@ == items@[j]@,
        decreases items.len() - i,
    {
        out.push(items[i].deep_copy());
        i += 1;
    }
    proof {
        lemma_list_view(out@);
        lemma_list_view(items@);
        assert(list_view(out@) =~= list_view(items@));
    }
    out
}

/// Deep copies of the entries of a dictionary, in order.
pub fn copy_entries(entries: &Vec<(Vec<u8>, Value)>) -> (out: Vec<(Vec<u8>, Value)>)
    ensures
        entries_view(out@) == entries_view(entries@),
    decreases entries,
{
    let mut out: Vec<(Vec<u8>, Value)> = Vec::new();
    let mut i: usize = 0;
    while i < entries.len()
        invariant
            i <= entries.len(),
            out@.len() == i,
            forall|j: int|
                0 <= j < i ==> (#[trigger] out@[j]).0@ == entries@[j].0@ && out@[j].1@
                    == entries@[j].1@,
        decreases entries.len() - i,
    {
        let key = copy_bytes(entries[i].0.as_slice());
        let value = entries[i].1.deep_copy();
        out.push((key, value));
        i += 1;
    }
    proof {
        lemma_entries_view(out@);
        lemma_entries_view(entries@);
        assert(entries_view(out@) =~= entries_view(entries@));
    }
    out
}

impl Value {
    /// A deep, independent copy of the value.
    pub fn deep_copy(&self) -> (r: Value)
        ensures
            r@ == self@,
        decreases self,
    {
        match self {
            Value::Number(n) => Value::Number(*n),
            Value::List(items) => Value::List(copy_list(items)),
            Value::Dictionary(entries) => Value::Dictionary(copy_entries(entries)),
        }
    }
}

} // verus!
