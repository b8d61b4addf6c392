//! Value type for parsed configuration entries, and the ordered map of
//! entries that holds a namespace.

use vstd::prelude::*;

use crate::text::{
    compare_chars, key_lt, lemma_key_lt_asymmetric, lemma_key_lt_irreflexive,
    lemma_key_lt_total, lemma_key_lt_transitive, to_chars, KeyOrder,
};

verus! {

/// The mathematical model of a [`Value`]: a leaf string, or a namespace given
/// by its entries `(key, child)` in the order in which they are kept.
pub enum Tree {
    Leaf(Seq<char>),
    Branch(Seq<(Seq<char>, Tree)>),
}

/// Number of leading entries whose key is below `k`: where `k` is, or would be put.
pub open spec fn insert_pos<T>(es: Seq<(Seq<char>, T)>, k: Seq<char>) -> nat
    decreases es.len(),
{
    if es.len() > 0 && key_lt(es[0].0, k) {
        1 + insert_pos(es.drop_first(), k)
    } else {
        0
    }
}

/// The child stored under `k`, looked for where the keys, kept in order, would hold it.
pub open spec fn lookup<T>(es: Seq<(Seq<char>, T)>, k: Seq<char>) -> Option<T> {
    let p = insert_pos(es, k) as int;
    if p < es.len() && es[p].0 == k {
        Some(es[p].1)
    } else {
        None
    }
}

/// `es` with `k` bound to `t`: the entry for `k` replaced, or a new entry put
/// where it keeps the keys in order.
pub open spec fn put<T>(es: Seq<(Seq<char>, T)>, k: Seq<char>, t: T) -> Seq<(Seq<char>, T)> {
    let p = insert_pos(es, k) as int;
    if p < es.len() && es[p].0 == k {
        es.update(p, (k, t))
    } else {
        es.insert(p, (k, t))
    }
}

/// Keys strictly increasing: in dictionary order, each key once.
pub open spec fn keys_sorted<T>(es: Seq<(Seq<char>, T)>) -> bool {
    forall|i: int, j: int| 0 <= i < j < es.len() ==> key_lt(#[trigger] es[i].0, #[trigger] es[j].0)
}

/// The entries seen as a map from key to child.
pub open spec fn as_map<T>(es: Seq<(Seq<char>, T)>) -> Map<Seq<char>, T> {
    Map::new(
        |k: Seq<char>| exists|i: int| 0 <= i < es.len() && #[trigger] es[i].0 == k,
        |k: Seq<char>| es[choose|i: int| 0 <= i < es.len() && #[trigger] es[i].0 == k].1,
    )
}

/// What a dotted `path`, given by its segments, leads to in the entries `es`:
/// `None` when a segment is missing or a segment before the last names a leaf.
pub open spec fn tree_get(es: Seq<(Seq<char>, Tree)>, path: Seq<Seq<char>>) -> Option<Tree>
    decreases path.len(),
{
    if path.len() == 0 {
        None
    } else {
        match lookup(es, path[0]) {
            None => None,
            Some(t) => if path.len() == 1 {
                Some(t)
            } else {
                match t {
                    Tree::Leaf(_) => None,
                    Tree::Branch(inner) => tree_get(inner, path.drop_first()),
                }
            },
        }
    }
}

/// `Some` of the model of the value, or `None`.
pub open spec fn opt_tree(v: Option<&Value>) -> Option<Tree> {
    match v {
        Some(v) => Some(v.view()),
        None => None,
    }
}

/// `Some` of the model of an owned value, or `None`.
pub open spec fn opt_owned_tree(v: Option<Value>) -> Option<Tree> {
    match v {
        Some(v) => Some(v.view()),
        None => None,
    }
}

/// The models of a sequence of entries.
pub open spec fn view_of(es: Seq<(String, Value)>) -> Seq<(Seq<char>, Tree)>
    decreases es,
{
    Seq::new(
        es.len(),
        |i: int|
            if 0 <= i < es.len() {
                proof {
                    assert(decreases_to!(es => es[i]));
                }
                (es[i].0@, es[i].1.view())
            } else {
                (Seq::empty(), Tree::Leaf(Seq::empty()))
            },
    )
}

/// Every namespace in `t`, however deep, keeps its keys in order.
pub open spec fn tree_sorted(t: Tree) -> bool
    decreases t,
{
    match t {
        Tree::Leaf(_) => true,
        Tree::Branch(es) => keys_sorted(es) && children_sorted(es),
    }
}

/// `es` and every namespace below it keep their keys in order.
pub open spec fn entries_sorted(es: Seq<(Seq<char>, Tree)>) -> bool {
    keys_sorted(es) && children_sorted(es)
}

/// Every namespace below the entries `es` keeps its keys in order.
pub open spec fn children_sorted(es: Seq<(Seq<char>, Tree)>) -> bool
    decreases es,
{
    if es.len() == 0 {
        true
    } else {
        children_sorted(es.drop_last()) && tree_sorted(es.last().1)
    }
}

/// The children of entries whose namespaces keep their keys in order do too.
pub proof fn lemma_children_sorted(es: Seq<(Seq<char>, Tree)>)
    ensures
        children_sorted(es) <==> forall|i: int| 0 <= i < es.len() ==> #[trigger] tree_sorted(es[i].1),
    decreases es.len(),
{
    if es.len() > 0 {
        lemma_children_sorted(es.drop_last());
        if forall|i: int| 0 <= i < es.len() ==> #[trigger] tree_sorted(es[i].1) {
            assert forall|i: int| 0 <= i < es.drop_last().len() implies #[trigger] tree_sorted(
                es.drop_last()[i].1,
            ) by {
                assert(es.drop_last()[i] == es[i]);
                assert(tree_sorted(es[i].1));
            }
            assert(tree_sorted(es[es.len() - 1].1));
        }
        if children_sorted(es) {
            assert forall|i: int| 0 <= i < es.len() implies #[trigger] tree_sorted(es[i].1) by {
                if i < es.len() - 1 {
                    assert(es.drop_last()[i] == es[i]);
                }
            }
        }
    }
}

/// A configuration value: a leaf string or a nested namespace.
#[derive(Debug, PartialEq, Eq)]
pub enum Value {
    /// The right-hand side of `key = value`.
    String(String),
    /// A nested namespace produced by dotted keys.
    Namespace(ValueMap),
}

/// The entries of a namespace, kept in the order of their keys, each key once.
#[derive(Debug, PartialEq, Eq)]
pub struct ValueMap {
    pub(crate) entries: Vec<(String, Value)>,
}

impl Value {
    pub open spec fn view(&self) -> Tree
        decreases self,
    {
        match self {
            Value::String(s) => Tree::Leaf(s@),
            Value::Namespace(m) => Tree::Branch(m.view()),
        }
    }

    /// Returns the inner string when this is a leaf, otherwise `None`.
    pub fn as_str(&self) -> (r: Option<&str>)
        ensures
            match self.view() {
                Tree::Leaf(s) => r matches Some(x) && x@ == s,
                Tree::Branch(_) => r is None,
            },
    {
        match self {
            Value::String(s) => Some(s.as_str()),
            Value::Namespace(_) => None,
        }
    }

    /// True for [`Value::String`].
    pub fn is_string(&self) -> (b: bool)
        ensures
            b == self.view() is Leaf,
    {
        match self {
            Value::String(_) => true,
            Value::Namespace(_) => false,
        }
    }

    /// True for [`Value::Namespace`].
    pub fn is_map(&self) -> (b: bool)
        ensures
            b == self.view() is Branch,
    {
        match self {
            Value::String(_) => false,
            Value::Namespace(_) => true,
        }
    }
}

impl ValueMap {
    pub closed spec fn view(&self) -> Seq<(Seq<char>, Tree)>
        decreases self,
    {
        proof {
            assert(decreases_to!(self => self.entries));
            assert(decreases_to!(self.entries => self.entries@));
        }
        view_of(self.entries@)
    }

    #[verifier::type_invariant]
    spec fn keys_in_order(&self) -> bool {
        keys_sorted(self.view())
    }

    pub(crate) proof fn lemma_view_entry(m: &ValueMap, i: int)
        requires
            0 <= i < m.entries@.len(),
        ensures
            m.view()[i] == (m.entries@[i].0@, m.entries@[i].1.view()),
            m.view().len() == m.entries@.len(),
    {
    }

    pub(crate) proof fn lemma_view_len(m: &ValueMap)
        ensures
            m.view().len() == m.entries@.len(),
    {
    }

    /// Creates an empty map.
    pub fn new() -> (m: ValueMap)
        ensures
            m@ == Seq::<(Seq<char>, Tree)>::empty(),
    {
        let m = ValueMap { entries: Vec::new() };
        assert(m@ =~= Seq::<(Seq<char>, Tree)>::empty());
        m
    }

    /// Number of entries.
    pub fn len(&self) -> (n: usize)
        ensures
            n == self@.len(),
    {
        self.entries.len()
    }

    /// True when there are no entries.
    pub fn is_empty(&self) -> (b: bool)
        ensures
            b == (self@.len() == 0),
    {
        self.entries.len() == 0
    }

    /// Position of `k`: the number of keys below it, and whether the key there is `k`.
    pub(crate) fn position(&self, k: &Vec<char>) -> (r: (usize, bool))
        ensures
            r.0 == insert_pos(self@, k@),
            r.0 <= self@.len(),
            r.1 == (r.0 < self@.len() && self@[r.0 as int].0 == k@),
    {
        let mut i: usize = 0;
        let n = self.entries.len();
        proof {
            assert(self@.skip(0) =~= self@);
        }
        while i < n
            invariant
                n == self.entries@.len() == self@.len(),
                i <= n,
                insert_pos(self@, k@) == i + insert_pos(self@.skip(i as int), k@),
            decreases n - i,
        {
            let key = to_chars(self.entries[i].0.as_str());
            proof {
                assert(self@[i as int].0 == key@);
                assert(self@.skip(i as int)[0] == self@[i as int]);
            }
            match compare_chars(&key, k) {
                KeyOrder::Less => {
                    assert(self@.skip(i as int).drop_first() =~= self@.skip(i + 1));
                    i = i + 1;
                },
                KeyOrder::Equal => {
                    return (i, true);
                },
                KeyOrder::Greater => {
                    proof {
                        lemma_key_lt_asymmetric(k@, key@);
                    }
                    return (i, false);
                },
            }
        }
        (i, false)
    }

    /// The key and value of entry `i`.
    pub(crate) fn entry(&self, i: usize) -> (r: (&String, &Value))
        requires
            i < self@.len(),
        ensures
            (r.0@, r.1.view()) == self@[i as int],
    {
        let e = &self.entries[i];
        (&e.0, &e.1)
    }

    /// The key and value of entry `i`, entries counted in key order.
    pub fn get_index(&self, i: usize) -> (r: Option<(&String, &Value)>)
        ensures
            i < self@.len() ==> (r matches Some(e) && (e.0@, e.1.view()) == self@[i as int]),
            i >= self@.len() ==> r is None,
    {
        if i < self.entries.len() {
            Some(self.entry(i))
        } else {
            None
        }
    }

    /// Looks up the value stored under `key`.
    pub fn get(&self, key: &str) -> (r: Option<&Value>)
        ensures
            opt_tree(r) == lookup(self@, key@),
    {
        let k = to_chars(key);
        let (p, found) = self.position(&k);
        if found {
            Some(&self.entries[p].1)
        } else {
            None
        }
    }

    /// True when `key` is present.
    pub fn contains_key(&self, key: &str) -> (b: bool)
        ensures
            b == lookup(self@, key@) is Some,
    {
        let k = to_chars(key);
        let (_, found) = self.position(&k);
        found
    }

    /// Binds `key` to `value`, returning what was stored under `key` before.
    pub fn insert(&mut self, key: String, value: Value) -> (r: Option<Value>)
        ensures
            final(self)@ == put(old(self)@, key@, value.view()),
            opt_owned_tree(r) == lookup(old(self)@, key@),
    {
        proof {
            use_type_invariant(&*self);
        }
        let k = to_chars(key.as_str());
        let (p, found) = self.position(&k);
        let ghost old_view = self@;
        let ghost kv = key@;
        let ghost tv = value.view();
        let mut es: Vec<(String, Value)> = Vec::new();
        std::mem::swap(&mut es, &mut self.entries);
        let ghost old_es = es@;
        if found {
            let old = es.remove(p);
            es.insert(p, (key, value));
            proof {
                assert(es@ =~= old_es.update(p as int, es@[p as int]));
                lemma_update_sorted(old_view, p as int, tv);
                assert(view_of(es@) =~= old_view.update(p as int, (kv, tv)));
            }
            self.entries = es;
            Some(old.1)
        } else {
            es.insert(p, (key, value));
            proof {
                lemma_insert_pos_bounds(old_view, kv);
                lemma_insert_sorted(old_view, kv, tv);
                assert(view_of(es@) =~= old_view.insert(p as int, (kv, tv)));
            }
            self.entries = es;
            None
        }
    }

    /// Moves out the value of entry `p`, leaving an empty string in its place.
    pub(crate) fn take_value(&mut self, p: usize) -> (r: Value)
        requires
            p < old(self)@.len(),
        ensures
            final(self)@ == old(self)@.update(
                p as int,
                (old(self)@[p as int].0, Tree::Leaf(Seq::empty())),
            ),
            r.view() == old(self)@[p as int].1,
    {
        proof {
            use_type_invariant(&*self);
        }
        let ghost old_view = self@;
        let mut es: Vec<(String, Value)> = Vec::new();
        std::mem::swap(&mut es, &mut self.entries);
        let (k, v) = es.remove(p);
        es.insert(p, (k, Value::String(String::new())));
        proof {
            lemma_update_sorted(old_view, p as int, Tree::Leaf(Seq::empty()));
            assert(view_of(es@) =~= old_view.update(
                p as int,
                (old_view[p as int].0, Tree::Leaf(Seq::empty())),
            ));
        }
        self.entries = es;
        v
    }

    /// Stores `value` in entry `p`, keeping its key.
    pub(crate) fn set_value(&mut self, p: usize, value: Value)
        requires
            p < old(self)@.len(),
        ensures
            final(self)@ == old(self)@.update(p as int, (old(self)@[p as int].0, value.view())),
    {
        proof {
            use_type_invariant(&*self);
        }
        let ghost old_view = self@;
        let ghost tv = value.view();
        let mut es: Vec<(String, Value)> = Vec::new();
        std::mem::swap(&mut es, &mut self.entries);
        let (k, _) = es.remove(p);
        es.insert(p, (k, value));
        proof {
            lemma_update_sorted(old_view, p as int, tv);
            assert(view_of(es@) =~= old_view.update(p as int, (old_view[p as int].0, tv)));
        }
        self.entries = es;
    }
}

impl Value {
    /// A copy of this value, namespaces copied all the way down.
    fn deep_copy(&self) -> (r: Value)
        ensures
            r.view() == self.view(),
        decreases self,
    {
        match self {
            Value::String(s) => Value::String(s.clone()),
            Value::Namespace(m) => Value::Namespace(m.deep_copy()),
        }
    }
}

impl ValueMap {
    /// A copy of this map, namespaces copied all the way down.
    fn deep_copy(&self) -> (r: ValueMap)
        ensures
            r@ == self@,
        decreases self,
    {
        proof {
            use_type_invariant(self);
        }
        let mut es: Vec<(String, Value)> = Vec::new();
        let n = self.entries.len();
        let mut i: usize = 0;
        while i < n
            invariant
                decreases_to!(self => self.entries@),
                n == self.entries@.len(),
                i <= n,
                es@.len() == i,
                view_of(es@) == view_of(self.entries@).take(i as int),
            decreases n - i,
        {
            proof {
                assert(decreases_to!(self.entries@ => self.entries@[i as int]));
            }
            let e = &self.entries[i];
            let ghost before = es@;
            let k = e.0.clone();
            let v = e.1.deep_copy();
            es.push((k, v));
            proof {
                assert(es@[i as int] == (k, v));
                assert forall|j: int| 0 <= j < i + 1 implies view_of(es@)[j] == view_of(
                    self.entries@,
                )[j] by {
                    if j < i {
                        assert(es@[j] == before[j]);
                        assert(view_of(before)[j] == view_of(self.entries@).take(i as int)[j]);
                    }
                }
            }
            assert(view_of(es@) =~= view_of(self.entries@).take(i + 1));
            i = i + 1;
        }
        assert(view_of(es@) =~= view_of(self.entries@));
        ValueMap { entries: es }
    }
}

impl Clone for Value {
    fn clone(&self) -> (r: Value)
        ensures
            r.view() == self.view(),
    {
        self.deep_copy()
    }
}

impl Clone for ValueMap {
    fn clone(&self) -> (r: ValueMap)
        ensures
            r@ == self@,
    {
        self.deep_copy()
    }
}

pub proof fn lemma_update_sorted<T>(es: Seq<(Seq<char>, T)>, p: int, t: T)
    requires
        keys_sorted(es),
        0 <= p < es.len(),
    ensures
        keys_sorted(es.update(p, (es[p].0, t))),
{
    let r = es.update(p, (es[p].0, t));
    assert forall|i: int, j: int| 0 <= i < j < r.len() implies key_lt(
        #[trigger] r[i].0,
        #[trigger] r[j].0,
    ) by {
        assert(r[i].0 == es[i].0);
        assert(r[j].0 == es[j].0);
    }
}

pub proof fn lemma_insert_pos_bounds<T>(es: Seq<(Seq<char>, T)>, k: Seq<char>)
    ensures
        insert_pos(es, k) <= es.len(),
        forall|i: int| 0 <= i < insert_pos(es, k) ==> key_lt(#[trigger] es[i].0, k),
        insert_pos(es, k) < es.len() ==> !key_lt(es[insert_pos(es, k) as int].0, k),
    decreases es.len(),
{
    if es.len() > 0 && key_lt(es[0].0, k) {
        lemma_insert_pos_bounds(es.drop_first(), k);
        assert forall|i: int| 0 <= i < insert_pos(es, k) implies key_lt(#[trigger] es[i].0, k) by {
            if i > 0 {
                assert(es[i] == es.drop_first()[i - 1]);
            }
        }
    }
}

/// Putting a key that is absent at its position keeps the keys in order.
pub proof fn lemma_insert_sorted<T>(es: Seq<(Seq<char>, T)>, k: Seq<char>, t: T)
    requires
        keys_sorted(es),
        !(insert_pos(es, k) < es.len() && es[insert_pos(es, k) as int].0 == k),
    ensures
        keys_sorted(es.insert(insert_pos(es, k) as int, (k, t))),
{
    lemma_insert_pos_bounds(es, k);
    let p = insert_pos(es, k) as int;
    let r = es.insert(p, (k, t));
    if p < es.len() {
        lemma_key_lt_total(k, es[p].0);
    }
    assert forall|i: int, j: int| 0 <= i < j < r.len() implies key_lt(
        #[trigger] r[i].0,
        #[trigger] r[j].0,
    ) by {
        if i < p && j < p {
            assert(r[i] == es[i] && r[j] == es[j]);
        } else if i < p && j == p {
            assert(r[i] == es[i]);
        } else if i < p {
            assert(r[i] == es[i] && r[j] == es[j - 1]);
            assert(key_lt(es[i].0, k));
            if j - 1 > p {
                assert(key_lt(es[p].0, es[j - 1].0));
                lemma_key_lt_transitive(k, es[p].0, es[j - 1].0);
            }
            lemma_key_lt_transitive(es[i].0, k, es[j - 1].0);
        } else if i == p {
            assert(r[j] == es[j - 1]);
            if j - 1 > p {
                assert(key_lt(es[p].0, es[j - 1].0));
                lemma_key_lt_transitive(k, es[p].0, es[j - 1].0);
            }
        } else {
            assert(r[i] == es[i - 1] && r[j] == es[j - 1]);
        }
    }
}

/// In entries whose keys are in order, `lookup` finds exactly the entry with that key.
pub proof fn lemma_lookup_finds<T>(es: Seq<(Seq<char>, T)>, k: Seq<char>)
    requires
        keys_sorted(es),
    ensures
        lookup(es, k) is Some <==> exists|i: int| 0 <= i < es.len() && #[trigger] es[i].0 == k,
        forall|i: int| 0 <= i < es.len() && #[trigger] es[i].0 == k ==> lookup(es, k) == Some(
            es[i].1,
        ),
{
    lemma_insert_pos_bounds(es, k);
    let p = insert_pos(es, k) as int;
    assert forall|i: int| 0 <= i < es.len() && #[trigger] es[i].0 == k implies i == p by {
        if i < p {
            lemma_key_lt_irreflexive(k);
        } else if i > p {
            assert(key_lt(es[p].0, es[i].0));
        }
    }
    if p < es.len() && es[p].0 == k {
        assert(es[p].0 == k);
    }
}

/// Binding a key keeps the keys in order, each key once.
pub proof fn lemma_put_sorted<T>(es: Seq<(Seq<char>, T)>, k: Seq<char>, t: T)
    requires
        keys_sorted(es),
    ensures
        keys_sorted(put(es, k, t)),
{
    lemma_insert_pos_bounds(es, k);
    let p = insert_pos(es, k) as int;
    if p < es.len() && es[p].0 == k {
        lemma_update_sorted(es, p, t);
    } else {
        lemma_insert_sorted(es, k, t);
    }
}

/// Reading a key just bound gives back what was bound.
pub proof fn lemma_lookup_put_same<T>(es: Seq<(Seq<char>, T)>, k: Seq<char>, t: T)
    ensures
        lookup(put(es, k, t), k) == Some(t),
{
    lemma_insert_pos_bounds(es, k);
    let p = insert_pos(es, k) as int;
    let r = put(es, k, t);
    assert(r[p] == (k, t));
    assert forall|i: int| 0 <= i < p implies key_lt(#[trigger] r[i].0, k) by {
        assert(r[i] == es[i]);
    }
    lemma_key_lt_irreflexive(k);
    lemma_insert_pos_at(r, k, p);
}

/// `insert_pos` is the first index whose key is not below `k`.
pub proof fn lemma_insert_pos_at<T>(es: Seq<(Seq<char>, T)>, k: Seq<char>, p: int)
    requires
        0 <= p <= es.len(),
        forall|i: int| 0 <= i < p ==> key_lt(#[trigger] es[i].0, k),
        p == es.len() || !key_lt(es[p].0, k),
    ensures
        insert_pos(es, k) == p,
    decreases es.len(),
{
    if p > 0 {
        assert forall|i: int| 0 <= i < p - 1 implies key_lt(#[trigger] es.drop_first()[i].0, k) by {
            assert(es.drop_first()[i] == es[i + 1]);
        }
        lemma_insert_pos_at(es.drop_first(), k, p - 1);
    }
}

/// Binding a key leaves every other key as it was.
pub proof fn lemma_lookup_put_other<T>(es: Seq<(Seq<char>, T)>, k: Seq<char>, t: T, k2: Seq<char>)
    requires
        keys_sorted(es),
        k2 != k,
    ensures
        lookup(put(es, k, t), k2) == lookup(es, k2),
{
    lemma_put_sorted(es, k, t);
    lemma_insert_pos_bounds(es, k);
    let p = insert_pos(es, k) as int;
    let r = put(es, k, t);
    lemma_lookup_finds(es, k2);
    lemma_lookup_finds(r, k2);
    if p < es.len() && es[p].0 == k {
        if lookup(es, k2) is Some {
            let i = choose|i: int| 0 <= i < es.len() && #[trigger] es[i].0 == k2;
            assert(r[i] == es[i]);
        }
        if lookup(r, k2) is Some {
            let i = choose|i: int| 0 <= i < r.len() && #[trigger] r[i].0 == k2;
            assert(r[i] == es[i]);
        }
    } else {
        if lookup(es, k2) is Some {
            let i = choose|i: int| 0 <= i < es.len() && #[trigger] es[i].0 == k2;
            let j = if i < p { i } else { i + 1 };
            assert(r[j] == es[i]);
        }
        if lookup(r, k2) is Some {
            let j = choose|j: int| 0 <= j < r.len() && #[trigger] r[j].0 == k2;
            let i = if j < p { j } else { j - 1 };
            assert(r[j] == es[i]);
        }
    }
}

/// What `lookup` reads is what the entries, seen as a map, hold; and binding a
/// key is inserting it in that map.
pub proof fn lemma_entries_as_map<T>(es: Seq<(Seq<char>, T)>, k: Seq<char>, t: T)
    requires
        keys_sorted(es),
    ensures
        lookup(es, k) == (if as_map(es).contains_key(k) {
            Some(as_map(es)[k])
        } else {
            None
        }),
        as_map(put(es, k, t)) == as_map(es).insert(k, t),
{
    lemma_lookup_finds(es, k);
    if as_map(es).contains_key(k) {
        let i = choose|i: int| 0 <= i < es.len() && #[trigger] es[i].0 == k;
        assert(es[i].0 == k);
    }
    lemma_put_sorted(es, k, t);
    let r = put(es, k, t);
    assert forall|k2: Seq<char>| #![trigger as_map(r).contains_key(k2)]
        as_map(r).contains_key(k2) == as_map(es).insert(k, t).contains_key(k2)
        && (as_map(r).contains_key(k2) ==> as_map(r)[k2] == as_map(es).insert(k, t)[k2]) by {
        lemma_lookup_finds(r, k2);
        lemma_lookup_finds(es, k2);
        if k2 == k {
            lemma_lookup_put_same(es, k, t);
        } else {
            lemma_lookup_put_other(es, k, t, k2);
        }
        if as_map(r).contains_key(k2) {
            let i = choose|i: int| 0 <= i < r.len() && #[trigger] r[i].0 == k2;
            assert(r[i].0 == k2);
        }
        if as_map(es).contains_key(k2) {
            let i = choose|i: int| 0 <= i < es.len() && #[trigger] es[i].0 == k2;
            assert(es[i].0 == k2);
        }
    }
    assert(as_map(r) =~= as_map(es).insert(k, t));
}

} // verus!
