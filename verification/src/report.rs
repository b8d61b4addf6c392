//! What a validation reports, stated by dotted paths: each violation of the
//! configuration against the schema, and nothing else.

use vstd::prelude::*;

use crate::parser::{
    entries_wf, key_ok, lemma_lookup_child_sorted, lemma_parse_sorted, lemma_parse_wf, spec_parse,
};
use crate::schema::{
    check_declared, check_node, declares, entries_to_schema, join_path,
    lemma_entries_to_schema_wf, lemma_entry_part_reported, lemma_unknown_part,
    lemma_violations_distinct, missing_in, missing_leaves,
    schema_entries_wf, schema_tree_wf, type_accepts, unknown_keys, validate_entries, SchemaTree,
    Violation,
};
use crate::value::{entries_sorted, lemma_lookup_finds, lookup, tree_sorted, Tree};

verus! {

/// The text of a dotted key given by its segments.
pub open spec fn dotted(path: Seq<Seq<char>>) -> Seq<char>
    decreases path.len(),
{
    if path.len() == 0 {
        Seq::empty()
    } else {
        join_path(dotted(path.drop_last()), path.last())
    }
}

/// The schema node that the entries `es` declare under the key `k` (the last
/// entry with that key; in a schema each key is declared once).
pub open spec fn schema_lookup(es: Seq<(Seq<char>, SchemaTree)>, k: Seq<char>) -> Option<SchemaTree>
    decreases es.len(),
{
    if es.len() == 0 {
        None
    } else if es.last().0 == k {
        Some(es.last().1)
    } else {
        schema_lookup(es.drop_last(), k)
    }
}

/// The schema node at the path `r` below the node `n`.
pub open spec fn node_at(n: SchemaTree, r: Seq<Seq<char>>) -> Option<SchemaTree>
    decreases r.len(),
{
    if r.len() == 0 {
        Some(n)
    } else {
        match n {
            SchemaTree::Leaf(_) => None,
            SchemaTree::Nested(es) => match schema_lookup(es, r[0]) {
                None => None,
                Some(c) => node_at(c, r.drop_first()),
            },
        }
    }
}

/// The value at the path `r` below the value `t`.
pub open spec fn value_at(t: Tree, r: Seq<Seq<char>>) -> Option<Tree>
    decreases r.len(),
{
    if r.len() == 0 {
        Some(t)
    } else {
        match t {
            Tree::Leaf(_) => None,
            Tree::Branch(m) => match lookup(m, r[0]) {
                None => None,
                Some(c) => value_at(c, r.drop_first()),
            },
        }
    }
}

/// No value on the way from `t` down to `r`, `r` itself excluded, is a leaf.
pub open spec fn no_leaf_before(t: Tree, r: Seq<Seq<char>>) -> bool {
    forall|j: int| 0 <= j < r.len() ==> !(#[trigger] value_at(t, r.take(j)) matches Some(Tree::Leaf(_)))
}

/// Whether `x` is the violation at the path `r` below the schema node `n` and
/// the value `t`, which sit at the path `p`:
/// - a missing key where `n` declares a leaf at `r` and the value is absent,
///   reached through namespaces only;
/// - a type mismatch where both hold a leaf and the text is not of the type;
/// - a shape mismatch where one holds a leaf and the other a namespace;
/// - an unknown key where the value has an entry that the schema does not
///   declare, in a namespace that both hold.
pub open spec fn violation_at(
    n: SchemaTree,
    t: Tree,
    p: Seq<Seq<char>>,
    r: Seq<Seq<char>>,
    x: Violation,
) -> bool {
    let key = dotted(p + r);
    match node_at(n, r) {
        None => {
            &&& r.len() >= 1
            &&& value_at(t, r) is Some
            &&& node_at(n, r.drop_last()) matches Some(SchemaTree::Nested(_))
            &&& value_at(t, r.drop_last()) matches Some(Tree::Branch(_))
            &&& x == Violation::UnknownKey { key }
        },
        Some(SchemaTree::Leaf(ty)) => match value_at(t, r) {
            None => no_leaf_before(t, r) && x == Violation::MissingKey { key },
            Some(Tree::Leaf(s)) => !type_accepts(ty, s) && x == Violation::TypeMismatch {
                key,
                expected: ty,
                actual_value: s,
            },
            Some(Tree::Branch(_)) => x == Violation::ShapeMismatch {
                key,
                expected_kind: "scalar"@,
                actual_kind: "map"@,
            },
        },
        Some(SchemaTree::Nested(_)) => value_at(t, r) matches Some(Tree::Leaf(_)) && x
            == Violation::ShapeMismatch { key, expected_kind: "map"@, actual_kind: "scalar"@ },
    }
}

proof fn lemma_contains_concat(a: Seq<Violation>, b: Seq<Violation>, x: Violation)
    ensures
        (a + b).contains(x) <==> a.contains(x) || b.contains(x),
{
    let c = a + b;
    if c.contains(x) {
        let i = choose|i: int| 0 <= i < c.len() && c[i] == x;
        if i < a.len() {
            assert(a[i] == x);
        } else {
            assert(b[i - a.len()] == x);
        }
    }
    if a.contains(x) {
        let i = choose|i: int| 0 <= i < a.len() && a[i] == x;
        assert(c[i] == x);
    }
    if b.contains(x) {
        let i = choose|i: int| 0 <= i < b.len() && b[i] == x;
        assert(c[a.len() + i] == x);
    }
}

proof fn lemma_dotted_push(p: Seq<Seq<char>>, k: Seq<char>)
    ensures
        dotted(p.push(k)) == join_path(dotted(p), k),
        k.len() > 0 ==> dotted(p.push(k)).len() > 0,
{
    assert(p.push(k).drop_last() =~= p);
}

/// A key is found among schema entries exactly when they declare it; in
/// entries that declare each key once, the entry found is the one with that key.
proof fn lemma_schema_lookup_index(es: Seq<(Seq<char>, SchemaTree)>, k: Seq<char>)
    requires
        schema_entries_wf(es),
    ensures
        schema_lookup(es, k) is Some <==> declares(es, k),
        forall|i: int|
            0 <= i < es.len() && #[trigger] es[i].0 == k ==> schema_lookup(es, k) == Some(es[i].1)
                && key_ok(es[i].0) && schema_tree_wf(es[i].1),
    decreases es.len(),
{
    if es.len() > 0 {
        let rest = es.drop_last();
        let last = es.len() - 1;
        lemma_schema_lookup_index(rest, k);
        assert(es[last] == es.last());
        assert forall|i: int| 0 <= i < es.len() && #[trigger] es[i].0 == k implies schema_lookup(
            es,
            k,
        ) == Some(es[i].1) && key_ok(es[i].0) && schema_tree_wf(es[i].1) by {
            if i < last {
                assert(rest[i] == es[i]);
                if es.last().0 == k {
                    assert(declares(rest, k));
                }
            }
        }
        if declares(rest, k) {
            let i = choose|i: int| 0 <= i < rest.len() && #[trigger] rest[i].0 == k;
            assert(rest[i] == es[i]);
        }
        if declares(es, k) && es.last().0 != k {
            let i = choose|i: int| 0 <= i < es.len() && #[trigger] es[i].0 == k;
            assert(rest[i] == es[i]);
        }
    }
}

/// The missing key reported for the leaf at the path `r` below the path `p`.
pub open spec fn missing_at(p: Seq<Seq<char>>, r: Seq<Seq<char>>) -> Violation {
    Violation::MissingKey { key: dotted(p + r) }
}

/// Whether the schema node `n` declares a leaf at the path `r` below it.
pub open spec fn leaf_declared_at(n: SchemaTree, r: Seq<Seq<char>>) -> bool {
    node_at(n, r) matches Some(SchemaTree::Leaf(_))
}

proof fn lemma_cons_path(p: Seq<Seq<char>>, k: Seq<char>, r: Seq<Seq<char>>)
    requires
        r.len() >= 1,
        r[0] == k,
    ensures
        p + r == p.push(k) + r.drop_first(),
        r == seq![k] + r.drop_first(),
{
    assert(p + r =~= p.push(k) + r.drop_first());
    assert(r =~= seq![k] + r.drop_first());
}

/// The missing keys reported for an absent node are its leaves, each once.
proof fn lemma_missing_leaves_iff(n: SchemaTree, p: Seq<Seq<char>>, x: Violation)
    requires
        schema_tree_wf(n),
        dotted(p).len() > 0,
    ensures
        missing_leaves(n, dotted(p)).contains(x) <==> exists|r: Seq<Seq<char>>|
            #[trigger] leaf_declared_at(n, r) && x == missing_at(p, r),
    decreases n,
{
    match n {
        SchemaTree::Leaf(_) => {
            let e = Seq::<Seq<char>>::empty();
            assert(p + e =~= p);
            if missing_leaves(n, dotted(p)).contains(x) {
                assert(leaf_declared_at(n, e));
            }
            if exists|r: Seq<Seq<char>>|
                #[trigger] leaf_declared_at(n, r) && x == missing_at(p, r) {
                let r = choose|r: Seq<Seq<char>>|
                    #[trigger] leaf_declared_at(n, r) && x == missing_at(p, r);
                assert(r.len() == 0);
                assert(r =~= e);
                assert(missing_leaves(n, dotted(p))[0] == x);
            }
        },
        SchemaTree::Nested(es) => {
            lemma_missing_in_iff(es, p, x);
            if exists|r: Seq<Seq<char>>|
                #[trigger] leaf_declared_at(n, r) && x == missing_at(p, r) {
                let r = choose|r: Seq<Seq<char>>|
                    #[trigger] leaf_declared_at(n, r) && x == missing_at(p, r);
                assert(r.len() >= 1);
            }
        },
    }
}

proof fn lemma_missing_in_iff(es: Seq<(Seq<char>, SchemaTree)>, p: Seq<Seq<char>>, x: Violation)
    requires
        schema_entries_wf(es),
        dotted(p).len() > 0,
    ensures
        missing_in(es, dotted(p)).contains(x) <==> exists|r: Seq<Seq<char>>|
            r.len() >= 1 && #[trigger] leaf_declared_at(SchemaTree::Nested(es), r) && x
                == missing_at(p, r),
    decreases es,
{
    let n = SchemaTree::Nested(es);
    if es.len() == 0 {
        if exists|r: Seq<Seq<char>>|
            r.len() >= 1 && #[trigger] leaf_declared_at(n, r) && x == missing_at(p, r) {
            let r = choose|r: Seq<Seq<char>>|
                r.len() >= 1 && #[trigger] leaf_declared_at(n, r) && x == missing_at(p, r);
            assert(schema_lookup(es, r[0]) is None);
        }
    } else {
        let rest = es.drop_last();
        let k = es.last().0;
        let c = es.last().1;
        let q = p.push(k);
        lemma_dotted_push(p, k);
        assert(dotted(q) == dotted(p) + seq!['.'] + k);
        lemma_missing_in_iff(rest, p, x);
        lemma_missing_leaves_iff(c, q, x);
        lemma_contains_concat(missing_in(rest, dotted(p)), missing_leaves(c, dotted(q)), x);
        let nr = SchemaTree::Nested(rest);
        if missing_in(rest, dotted(p)).contains(x) {
            let r = choose|r: Seq<Seq<char>>|
                r.len() >= 1 && #[trigger] leaf_declared_at(nr, r) && x == missing_at(p, r);
            lemma_schema_lookup_index(rest, r[0]);
            assert(r[0] != k);
            assert(node_at(n, r) == node_at(nr, r));
            assert(leaf_declared_at(n, r));
        }
        if missing_leaves(c, dotted(q)).contains(x) {
            let r2 = choose|r: Seq<Seq<char>>|
                #[trigger] leaf_declared_at(c, r) && x == missing_at(q, r);
            let r = seq![k] + r2;
            assert(r[0] == k);
            assert(r.drop_first() =~= r2);
            lemma_cons_path(p, k, r);
            assert(node_at(n, r) == node_at(c, r2));
            assert(leaf_declared_at(n, r));
        }
        if exists|r: Seq<Seq<char>>|
            r.len() >= 1 && #[trigger] leaf_declared_at(n, r) && x == missing_at(p, r) {
            let r = choose|r: Seq<Seq<char>>|
                r.len() >= 1 && #[trigger] leaf_declared_at(n, r) && x == missing_at(p, r);
            if r[0] == k {
                lemma_cons_path(p, k, r);
                assert(node_at(n, r) == node_at(c, r.drop_first()));
                assert(leaf_declared_at(c, r.drop_first()));
            } else {
                assert(node_at(n, r) == node_at(nr, r));
                assert(leaf_declared_at(nr, r));
            }
        }
    }
}

/// The unknown key reported for the entry `k` of the namespace at `prefix`.
pub open spec fn unknown_named(prefix: Seq<char>, k: Seq<char>) -> Violation {
    Violation::UnknownKey { key: join_path(prefix, k) }
}

/// What `check_declared` reports for the declared entry `i`.
pub open spec fn entry_part(
    schema: Seq<(Seq<char>, SchemaTree)>,
    data: Seq<(Seq<char>, Tree)>,
    prefix: Seq<char>,
    i: int,
) -> Seq<Violation> {
    match lookup(data, schema[i].0) {
        None => missing_leaves(schema[i].1, join_path(prefix, schema[i].0)),
        Some(v) => check_node(schema[i].1, v, join_path(prefix, schema[i].0)),
    }
}

proof fn lemma_check_declared_parts(
    schema: Seq<(Seq<char>, SchemaTree)>,
    data: Seq<(Seq<char>, Tree)>,
    prefix: Seq<char>,
    x: Violation,
)
    ensures
        check_declared(schema, data, prefix).contains(x) <==> exists|i: int|
            0 <= i < schema.len() && #[trigger] entry_part(schema, data, prefix, i).contains(x),
    decreases schema.len(),
{
    if exists|i: int| 0 <= i < schema.len() && #[trigger] entry_part(schema, data, prefix, i).contains(x) {
        let i = choose|i: int|
            0 <= i < schema.len() && #[trigger] entry_part(schema, data, prefix, i).contains(x);
        lemma_entry_part_reported(schema, data, prefix, i, x);
    }
    if schema.len() > 0 && check_declared(schema, data, prefix).contains(x) {
        let rest = schema.drop_last();
        let last = schema.len() - 1;
        lemma_check_declared_parts(rest, data, prefix, x);
        lemma_contains_concat(
            check_declared(rest, data, prefix),
            entry_part(schema, data, prefix, last),
            x,
        );
        assert(schema[last] == schema.last());
        if check_declared(rest, data, prefix).contains(x) {
            let i = choose|i: int|
                0 <= i < rest.len() && #[trigger] entry_part(rest, data, prefix, i).contains(x);
            assert(rest[i] == schema[i]);
            assert(entry_part(rest, data, prefix, i) == entry_part(schema, data, prefix, i));
        } else {
            assert(entry_part(schema, data, prefix, last).contains(x));
        }
    }
}

proof fn lemma_unknown_keys_iff(
    data: Seq<(Seq<char>, Tree)>,
    schema: Seq<(Seq<char>, SchemaTree)>,
    prefix: Seq<char>,
    x: Violation,
)
    ensures
        unknown_keys(data, schema, prefix).contains(x) <==> exists|j: int|
            0 <= j < data.len() && !declares(schema, data[j].0) && x == #[trigger] unknown_named(
                prefix,
                data[j].0,
            ),
    decreases data.len(),
{
    if exists|j: int|
        0 <= j < data.len() && !declares(schema, data[j].0) && x == #[trigger] unknown_named(
            prefix,
            data[j].0,
        ) {
        let j = choose|j: int|
            0 <= j < data.len() && !declares(schema, data[j].0) && x == #[trigger] unknown_named(
                prefix,
                data[j].0,
            );
        lemma_unknown_part(data, schema, prefix, j);
    }
    if data.len() > 0 && unknown_keys(data, schema, prefix).contains(x) {
        let rest = data.drop_last();
        let last = data.len() - 1;
        lemma_unknown_keys_iff(rest, schema, prefix, x);
        let tail = if declares(schema, data.last().0) {
            Seq::empty()
        } else {
            seq![unknown_named(prefix, data.last().0)]
        };
        assert(unknown_keys(data, schema, prefix) == unknown_keys(rest, schema, prefix) + tail);
        lemma_contains_concat(unknown_keys(rest, schema, prefix), tail, x);
        assert(data[last] == data.last());
        if unknown_keys(rest, schema, prefix).contains(x) {
            let j = choose|j: int|
                0 <= j < rest.len() && !declares(schema, rest[j].0) && x == #[trigger] unknown_named(
                    prefix,
                    rest[j].0,
                );
            assert(rest[j] == data[j]);
        } else {
            assert(tail[0] == x);
            assert(x == unknown_named(prefix, data[last].0));
        }
    }
}

/// A violation below a namespace that both hold is one below its entry `r[0]`:
/// inside the declared child (or a missing key where the data lacks it), or an
/// unknown key where the schema does not declare `r[0]`.
proof fn lemma_entry_violation(
    schema: Seq<(Seq<char>, SchemaTree)>,
    data: Seq<(Seq<char>, Tree)>,
    p: Seq<Seq<char>>,
    r: Seq<Seq<char>>,
    x: Violation,
)
    requires
        schema_entries_wf(schema),
        r.len() >= 1,
    ensures
        declares(schema, r[0]) ==> (violation_at(
            SchemaTree::Nested(schema),
            Tree::Branch(data),
            p,
            r,
            x,
        ) <==> match lookup(data, r[0]) {
            None => leaf_declared_at(schema_lookup(schema, r[0])->Some_0, r.drop_first()) && x
                == missing_at(p.push(r[0]), r.drop_first()),
            Some(v) => violation_at(
                schema_lookup(schema, r[0])->Some_0,
                v,
                p.push(r[0]),
                r.drop_first(),
                x,
            ),
        }),
        !declares(schema, r[0]) ==> (violation_at(
            SchemaTree::Nested(schema),
            Tree::Branch(data),
            p,
            r,
            x,
        ) <==> r.len() == 1 && lookup(data, r[0]) is Some && x == unknown_named(dotted(p), r[0])),
{
    let n = SchemaTree::Nested(schema);
    let t = Tree::Branch(data);
    let k = r[0];
    let r2 = r.drop_first();
    let q = p.push(k);
    lemma_schema_lookup_index(schema, k);
    lemma_cons_path(p, k, r);
    lemma_dotted_push(p, k);
    assert(node_at(n, r) == match schema_lookup(schema, k) {
        None => None,
        Some(c) => node_at(c, r2),
    });
    assert(value_at(t, r) == match lookup(data, k) {
        None => None,
        Some(v) => value_at(v, r2),
    });
    assert forall|j: int| 1 <= j <= r.len() implies (#[trigger] r.take(j))[0] == k && r.take(
        j,
    ).drop_first() =~= r2.take(j - 1) by {}
    assert(value_at(t, r.take(0)) == Some(t));
    if declares(schema, k) {
        let c = schema_lookup(schema, k)->Some_0;
        match lookup(data, k) {
            None => {
                assert forall|j: int| 0 <= j < r.len() implies !(#[trigger] value_at(
                    t,
                    r.take(j),
                ) matches Some(Tree::Leaf(_))) by {
                    if j > 0 {
                        assert(value_at(t, r.take(j)) is None);
                    }
                }
            },
            Some(v) => {
                if r2.len() >= 1 {
                    assert(r.drop_last() =~= seq![k] + r2.drop_last());
                    assert(r.drop_last()[0] == k);
                    assert(r.drop_last().drop_first() =~= r2.drop_last());
                    assert(node_at(n, r.drop_last()) == node_at(c, r2.drop_last()));
                    assert(value_at(t, r.drop_last()) == value_at(v, r2.drop_last()));
                }
                if no_leaf_before(v, r2) {
                    assert forall|j: int| 0 <= j < r.len() implies !(#[trigger] value_at(
                        t,
                        r.take(j),
                    ) matches Some(Tree::Leaf(_))) by {
                        if j > 0 {
                            assert(value_at(t, r.take(j)) == value_at(v, r2.take(j - 1)));
                        }
                    }
                }
                if no_leaf_before(t, r) {
                    assert forall|j: int| 0 <= j < r2.len() implies !(#[trigger] value_at(
                        v,
                        r2.take(j),
                    ) matches Some(Tree::Leaf(_))) by {
                        assert(value_at(t, r.take(j + 1)) == value_at(v, r2.take(j)));
                    }
                }
            },
        }
    } else {
        if r.len() >= 2 {
            assert(r.drop_last()[0] == k);
            assert(node_at(n, r.drop_last()) is None);
        } else {
            assert(r.drop_last() =~= Seq::<Seq<char>>::empty());
            assert(r =~= seq![k]);
            assert(p + r =~= q);
            if lookup(data, k) is Some {
                assert(value_at(t, r) is Some);
            }
        }
    }
}

proof fn lemma_check_declared_iff(
    schema: Seq<(Seq<char>, SchemaTree)>,
    data: Seq<(Seq<char>, Tree)>,
    p: Seq<Seq<char>>,
    x: Violation,
)
    requires
        schema_entries_wf(schema),
        entries_sorted(data),
    ensures
        check_declared(schema, data, dotted(p)).contains(x) <==> exists|r: Seq<Seq<char>>|
            r.len() >= 1 && declares(schema, r[0]) && #[trigger] violation_at(
                SchemaTree::Nested(schema),
                Tree::Branch(data),
                p,
                r,
                x,
            ),
    decreases schema,
{
    let n = SchemaTree::Nested(schema);
    let t = Tree::Branch(data);
    lemma_check_declared_parts(schema, data, dotted(p), x);
    if check_declared(schema, data, dotted(p)).contains(x) {
        let i = choose|i: int|
            0 <= i < schema.len() && #[trigger] entry_part(schema, data, dotted(p), i).contains(x);
        let k = schema[i].0;
        let c = schema[i].1;
        let q = p.push(k);
        lemma_schema_lookup_index(schema, k);
        lemma_dotted_push(p, k);
        assert(declares(schema, k));
        match lookup(data, k) {
            None => {
                lemma_missing_leaves_iff(c, q, x);
                let r2 = choose|r: Seq<Seq<char>>|
                    #[trigger] leaf_declared_at(c, r) && x == missing_at(q, r);
                let r = seq![k] + r2;
                assert(r[0] == k);
                assert(r.drop_first() =~= r2);
                lemma_entry_violation(schema, data, p, r, x);
                assert(violation_at(n, t, p, r, x));
            },
            Some(v) => {
                lemma_lookup_child_sorted(data, k);
                assert(decreases_to!(schema => schema[i]));
                lemma_check_node_iff(c, v, q, x);
                let r2 = choose|r: Seq<Seq<char>>| #[trigger] violation_at(c, v, q, r, x);
                let r = seq![k] + r2;
                assert(r[0] == k);
                assert(r.drop_first() =~= r2);
                lemma_entry_violation(schema, data, p, r, x);
                assert(violation_at(n, t, p, r, x));
            },
        }
    }
    if exists|r: Seq<Seq<char>>|
        r.len() >= 1 && declares(schema, r[0]) && #[trigger] violation_at(n, t, p, r, x) {
        let r = choose|r: Seq<Seq<char>>|
            r.len() >= 1 && declares(schema, r[0]) && #[trigger] violation_at(n, t, p, r, x);
        let k = r[0];
        let r2 = r.drop_first();
        let i = choose|i: int| 0 <= i < schema.len() && #[trigger] schema[i].0 == k;
        let c = schema[i].1;
        let q = p.push(k);
        lemma_schema_lookup_index(schema, k);
        lemma_dotted_push(p, k);
        lemma_entry_violation(schema, data, p, r, x);
        match lookup(data, k) {
            None => {
                lemma_missing_leaves_iff(c, q, x);
                assert(leaf_declared_at(c, r2));
            },
            Some(v) => {
                lemma_lookup_child_sorted(data, k);
                assert(decreases_to!(schema => schema[i]));
                lemma_check_node_iff(c, v, q, x);
                assert(violation_at(c, v, q, r2, x));
            },
        }
        assert(entry_part(schema, data, dotted(p), i).contains(x));
    }
}

proof fn lemma_check_node_iff(n: SchemaTree, t: Tree, p: Seq<Seq<char>>, x: Violation)
    requires
        schema_tree_wf(n),
        tree_sorted(t),
    ensures
        check_node(n, t, dotted(p)).contains(x) <==> exists|r: Seq<Seq<char>>|
            #[trigger] violation_at(n, t, p, r, x),
    decreases n,
{
    let e = Seq::<Seq<char>>::empty();
    assert(p + e =~= p);
    match n {
        SchemaTree::Leaf(ty) => {
            if check_node(n, t, dotted(p)).contains(x) {
                assert(violation_at(n, t, p, e, x));
            }
            if exists|r: Seq<Seq<char>>| #[trigger] violation_at(n, t, p, r, x) {
                let r = choose|r: Seq<Seq<char>>| #[trigger] violation_at(n, t, p, r, x);
                if r.len() > 0 {
                    assert(node_at(n, r) is None);
                    if r.len() >= 2 {
                        assert(node_at(n, r.drop_last()) is None);
                    } else {
                        assert(r.drop_last() =~= e);
                    }
                } else {
                    assert(r =~= e);
                    assert(check_node(n, t, dotted(p))[0] == x);
                }
            }
        },
        SchemaTree::Nested(inner) => match t {
            Tree::Leaf(s) => {
                if check_node(n, t, dotted(p)).contains(x) {
                    assert(violation_at(n, t, p, e, x));
                }
                if exists|r: Seq<Seq<char>>| #[trigger] violation_at(n, t, p, r, x) {
                    let r = choose|r: Seq<Seq<char>>| #[trigger] violation_at(n, t, p, r, x);
                    if r.len() > 0 {
                        assert(value_at(t, r) is None);
                        assert(r.take(0) =~= e);
                        assert(value_at(t, r.take(0)) == Some(t));
                    } else {
                        assert(r =~= e);
                        assert(check_node(n, t, dotted(p))[0] == x);
                    }
                }
            },
            Tree::Branch(m) => {
                let decl = check_declared(inner, m, dotted(p));
                let unk = unknown_keys(m, inner, dotted(p));
                assert(check_node(n, t, dotted(p)) == decl + unk);
                lemma_contains_concat(decl, unk, x);
                lemma_check_declared_iff(inner, m, p, x);
                lemma_unknown_keys_iff(m, inner, dotted(p), x);
                if unk.contains(x) {
                    let j = choose|j: int|
                        0 <= j < m.len() && !declares(inner, m[j].0) && x == #[trigger] unknown_named(
                            dotted(p),
                            m[j].0,
                        );
                    let k = m[j].0;
                    let r = seq![k];
                    lemma_lookup_finds(m, k);
                    lemma_entry_violation(inner, m, p, r, x);
                    assert(violation_at(n, t, p, r, x));
                }
                if exists|r: Seq<Seq<char>>| #[trigger] violation_at(n, t, p, r, x) {
                    let r = choose|r: Seq<Seq<char>>| #[trigger] violation_at(n, t, p, r, x);
                    if r.len() == 0 {
                        assert(r =~= e);
                    } else if !declares(inner, r[0]) {
                        lemma_entry_violation(inner, m, p, r, x);
                        lemma_lookup_finds(m, r[0]);
                        let j = choose|j: int| 0 <= j < m.len() && #[trigger] m[j].0 == r[0];
                        assert(x == unknown_named(dotted(p), m[j].0));
                    }
                }
            },
        },
    }
}

/// What validation reports is exactly the set of violations, each once: a
/// violation at every dotted key where the configuration lacks a declared leaf
/// (reached through namespaces only), holds a leaf whose text is not of the
/// declared type, holds a leaf where a namespace is declared or the reverse
/// (with nothing reported below it), or holds an undeclared entry in a
/// namespace that both declare and hold; nothing else is reported, and no
/// entry twice. So the report is empty exactly when there is no violation.
/// Keys are as parsing makes them: non-empty, dot-free, each once in its namespace.
pub proof fn lemma_validate_reports_violations(
    schema: Seq<(Seq<char>, SchemaTree)>,
    data: Seq<(Seq<char>, Tree)>,
    x: Violation,
)
    requires
        schema_entries_wf(schema),
        entries_wf(data),
        entries_sorted(data),
    ensures
        validate_entries(schema, data, Seq::empty()).contains(x) <==> exists|r: Seq<Seq<char>>|
            r.len() >= 1 && #[trigger] violation_at(
                SchemaTree::Nested(schema),
                Tree::Branch(data),
                Seq::empty(),
                r,
                x,
            ),
        validate_entries(schema, data, Seq::empty()).no_duplicates(),
        (validate_entries(schema, data, Seq::empty()).len() == 0) <==> forall|
            r: Seq<Seq<char>>,
            y: Violation,
        |
            r.len() >= 1 ==> !#[trigger] violation_at(
                SchemaTree::Nested(schema),
                Tree::Branch(data),
                Seq::empty(),
                r,
                y,
            ),
{
    let n = SchemaTree::Nested(schema);
    let t = Tree::Branch(data);
    let e = Seq::<Seq<char>>::empty();
    let all = validate_entries(schema, data, Seq::empty());
    assert(dotted(e) == Seq::<char>::empty());
    assert(all == check_node(n, t, dotted(e)));
    lemma_check_node_iff(n, t, e, x);
    if exists|r: Seq<Seq<char>>| #[trigger] violation_at(n, t, e, r, x) {
        let r = choose|r: Seq<Seq<char>>| #[trigger] violation_at(n, t, e, r, x);
        if r.len() == 0 {
            assert(r =~= e);
        }
    }
    lemma_violations_distinct(schema, data, Seq::empty());
    if all.len() > 0 {
        let y = all[0];
        assert(all.contains(y));
        lemma_check_node_iff(n, t, e, y);
        let r = choose|r: Seq<Seq<char>>| #[trigger] violation_at(n, t, e, r, y);
        if r.len() == 0 {
            assert(r =~= e);
        }
        assert(r.len() >= 1 && violation_at(n, t, e, r, y));
    } else {
        assert forall|r: Seq<Seq<char>>, y: Violation| r.len() >= 1 implies !#[trigger] violation_at(
            n,
            t,
            e,
            r,
            y,
        ) by {
            lemma_check_node_iff(n, t, e, y);
        }
    }
}

/// Validating a configuration read from text against a schema read from text
/// reports exactly the violations, each once (see `lemma_validate_reports_violations`).
pub proof fn lemma_parsed_validation_report(
    schema_text: Seq<char>,
    config_text: Seq<char>,
    x: Violation,
)
    requires
        spec_parse(schema_text) matches Ok(es) && entries_to_schema(es) is Ok,
        spec_parse(config_text) is Ok,
    ensures
        ({
            let schema = entries_to_schema(spec_parse(schema_text)->Ok_0)->Ok_0;
            let data = spec_parse(config_text)->Ok_0;
            &&& validate_entries(schema, data, Seq::empty()).contains(x) <==> exists|
                r: Seq<Seq<char>>,
            |
                r.len() >= 1 && #[trigger] violation_at(
                    SchemaTree::Nested(schema),
                    Tree::Branch(data),
                    Seq::empty(),
                    r,
                    x,
                )
            &&& validate_entries(schema, data, Seq::empty()).no_duplicates()
        }),
{
    lemma_parse_wf(schema_text);
    lemma_parse_sorted(schema_text);
    lemma_parse_wf(config_text);
    lemma_parse_sorted(config_text);
    lemma_entries_to_schema_wf(spec_parse(schema_text)->Ok_0);
    lemma_validate_reports_violations(
        entries_to_schema(spec_parse(schema_text)->Ok_0)->Ok_0,
        spec_parse(config_text)->Ok_0,
        x,
    );
}

} // verus!
