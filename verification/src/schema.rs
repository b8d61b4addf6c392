//! Type schemas, and the validation of a [`Config`] against one.

use vstd::prelude::*;

use crate::config::Config;
use crate::error::{ParseError, ParseFault};
use crate::literal::{
    is_digit, is_float_str, is_float_text, is_i64_str, is_i64_text, lemma_comma_is_no_float,
    strip_sign,
};
use crate::parser::{
    entries_wf, key_ok, lemma_entry_line, lemma_lookup_child_sorted, lemma_lookup_wf, parse_str,
    spec_parse, tree_wf,
};
use crate::text::{chars_eq, is_space, key_lt, lemma_key_lt_irreflexive, to_chars};
use crate::value::{entries_sorted, keys_sorted, lookup, tree_sorted, Tree, Value, ValueMap};

verus! {

/// The value types that a schema can declare.
#[derive(Debug, Clone, Copy, PartialEq, Eq, Structural)]
pub enum Type {
    String,
    Bool,
    Integer,
    Float,
}

/// The type that a schema names `name`.
pub open spec fn type_of_name(name: Seq<char>) -> Option<Type> {
    if name == "string"@ {
        Some(Type::String)
    } else if name == "bool"@ {
        Some(Type::Bool)
    } else if name == "integer"@ {
        Some(Type::Integer)
    } else if name == "float"@ {
        Some(Type::Float)
    } else {
        None
    }
}

/// Whether the text `s` is a value of type `ty`.
pub open spec fn type_accepts(ty: Type, s: Seq<char>) -> bool {
    match ty {
        Type::String => true,
        Type::Bool => s == "true"@ || s == "false"@,
        Type::Integer => is_i64_text(s),
        Type::Float => is_float_text(s),
    }
}

/// Errors raised while loading a schema.
#[derive(Debug)]
pub enum SchemaParseError {
    /// An error of the underlying parser (I/O or syntax).
    Parse(ParseError),
    /// A type name that is not known.
    UnknownType { name: String },
}

/// The model of a [`SchemaParseError`].
pub enum SchemaFault {
    Parse(ParseFault),
    UnknownType(Seq<char>),
}

impl SchemaParseError {
    pub open spec fn view(&self) -> SchemaFault {
        match self {
            SchemaParseError::Parse(e) => SchemaFault::Parse(e.view()),
            SchemaParseError::UnknownType { name } => SchemaFault::UnknownType(name@),
        }
    }
}

impl Type {
    /// The type named `s` (what `str::parse::<Type>` does).
    pub fn from_name(s: &str) -> (r: Result<Type, SchemaParseError>)
        ensures
            match type_of_name(s@) {
                Some(t) => r == Ok::<Type, SchemaParseError>(t),
                None => r matches Err(e) && e.view() == SchemaFault::UnknownType(s@),
            },
    {
        let cs = to_chars(s);
        if chars_eq(&cs, &to_chars("string")) {
            Ok(Type::String)
        } else if chars_eq(&cs, &to_chars("bool")) {
            Ok(Type::Bool)
        } else if chars_eq(&cs, &to_chars("integer")) {
            Ok(Type::Integer)
        } else if chars_eq(&cs, &to_chars("float")) {
            Ok(Type::Float)
        } else {
            Err(SchemaParseError::UnknownType { name: String::from_str(s) })
        }
    }
}

impl std::str::FromStr for Type {
    type Err = SchemaParseError;

    fn from_str(s: &str) -> (r: Result<Type, SchemaParseError>)
        ensures
            match type_of_name(s@) {
                Some(t) => r == Ok::<Type, SchemaParseError>(t),
                None => r matches Err(e) && e.view() == SchemaFault::UnknownType(s@),
            },
    {
        Type::from_name(s)
    }
}

/// A violation found by [`Schema::validate`].
#[derive(Debug, PartialEq, Eq)]
pub enum ValidationError {
    /// Declared in the schema, absent from the data.
    MissingKey { key: String },
    /// Present in the data, not declared in the schema.
    UnknownKey { key: String },
    /// A value that is not of the declared type.
    TypeMismatch { key: String, expected: Type, actual_value: String },
    /// A shape mismatch (the schema wants a namespace and the data has a leaf, or the reverse).
    ShapeMismatch { key: String, expected_kind: &'static str, actual_kind: &'static str },
}

/// The model of a [`ValidationError`].
pub enum Violation {
    MissingKey { key: Seq<char> },
    UnknownKey { key: Seq<char> },
    TypeMismatch { key: Seq<char>, expected: Type, actual_value: Seq<char> },
    ShapeMismatch { key: Seq<char>, expected_kind: Seq<char>, actual_kind: Seq<char> },
}

impl ValidationError {
    pub open spec fn view(&self) -> Violation {
        match self {
            ValidationError::MissingKey { key } => Violation::MissingKey { key: key@ },
            ValidationError::UnknownKey { key } => Violation::UnknownKey { key: key@ },
            ValidationError::TypeMismatch { key, expected, actual_value } => Violation::TypeMismatch {
                key: key@,
                expected: *expected,
                actual_value: actual_value@,
            },
            ValidationError::ShapeMismatch { key, expected_kind, actual_kind } => Violation::ShapeMismatch {
                key: key@,
                expected_kind: expected_kind@,
                actual_kind: actual_kind@,
            },
        }
    }
}

/// The models of a sequence of violations.
pub open spec fn violations(v: Seq<ValidationError>) -> Seq<Violation> {
    v.map_values(|e: ValidationError| e.view())
}

/// The model of a schema node: a declared type, or a namespace of entries.
pub enum SchemaTree {
    Leaf(Type),
    Nested(Seq<(Seq<char>, SchemaTree)>),
}

/// The schema declared by a parsed value, or `Err` of the first unknown type name.
pub open spec fn tree_to_schema(t: Tree) -> Result<SchemaTree, Seq<char>>
    decreases t,
{
    match t {
        Tree::Leaf(name) => match type_of_name(name) {
            Some(ty) => Ok(SchemaTree::Leaf(ty)),
            None => Err(name),
        },
        Tree::Branch(es) => match entries_to_schema(es) {
            Ok(ns) => Ok(SchemaTree::Nested(ns)),
            Err(name) => Err(name),
        },
    }
}

/// The schema entries declared by parsed entries, or `Err` of the first unknown type name.
pub open spec fn entries_to_schema(es: Seq<(Seq<char>, Tree)>) -> Result<
    Seq<(Seq<char>, SchemaTree)>,
    Seq<char>,
>
    decreases es,
{
    if es.len() == 0 {
        Ok(Seq::empty())
    } else {
        match entries_to_schema(es.drop_last()) {
            Err(name) => Err(name),
            Ok(ns) => match tree_to_schema(es.last().1) {
                Ok(n) => Ok(ns.push((es.last().0, n))),
                Err(name) => Err(name),
            },
        }
    }
}

/// `key` under `prefix`: `prefix.key`, or `key` at the top level.
pub open spec fn join_path(prefix: Seq<char>, key: Seq<char>) -> Seq<char> {
    if prefix.len() == 0 {
        key
    } else {
        prefix + seq!['.'] + key
    }
}

/// Whether the schema entries declare `k`.
pub open spec fn declares(es: Seq<(Seq<char>, SchemaTree)>, k: Seq<char>) -> bool {
    exists|i: int| 0 <= i < es.len() && #[trigger] es[i].0 == k
}

/// A missing key for every leaf under `n`, which sits at `path`.
pub open spec fn missing_leaves(n: SchemaTree, path: Seq<char>) -> Seq<Violation>
    decreases n,
{
    match n {
        SchemaTree::Leaf(_) => seq![Violation::MissingKey { key: path }],
        SchemaTree::Nested(es) => missing_in(es, path),
    }
}

/// A missing key for every leaf under the entries `es` of the namespace at `path`.
pub open spec fn missing_in(es: Seq<(Seq<char>, SchemaTree)>, path: Seq<char>) -> Seq<Violation>
    decreases es,
{
    if es.len() == 0 {
        Seq::empty()
    } else {
        missing_in(es.drop_last(), path) + missing_leaves(
            es.last().1,
            path + seq!['.'] + es.last().0,
        )
    }
}

/// The violations of the value `v` at `path` against the schema node `n`.
pub open spec fn check_node(n: SchemaTree, v: Tree, path: Seq<char>) -> Seq<Violation>
    decreases n,
{
    match n {
        SchemaTree::Leaf(ty) => match v {
            Tree::Leaf(s) => if type_accepts(ty, s) {
                Seq::empty()
            } else {
                seq![Violation::TypeMismatch { key: path, expected: ty, actual_value: s }]
            },
            Tree::Branch(_) => seq![
                Violation::ShapeMismatch {
                    key: path,
                    expected_kind: "scalar"@,
                    actual_kind: "map"@,
                },
            ],
        },
        SchemaTree::Nested(inner) => match v {
            Tree::Branch(m) => check_declared(inner, m, path) + unknown_keys(m, inner, path),
            Tree::Leaf(_) => seq![
                Violation::ShapeMismatch {
                    key: path,
                    expected_kind: "map"@,
                    actual_kind: "scalar"@,
                },
            ],
        },
    }
}

/// For each declared key in order: missing leaves when the data lacks it,
/// otherwise the violations of its value.
pub open spec fn check_declared(
    schema: Seq<(Seq<char>, SchemaTree)>,
    data: Seq<(Seq<char>, Tree)>,
    prefix: Seq<char>,
) -> Seq<Violation>
    decreases schema,
{
    if schema.len() == 0 {
        Seq::empty()
    } else {
        let k = schema.last().0;
        let path = join_path(prefix, k);
        check_declared(schema.drop_last(), data, prefix) + match lookup(data, k) {
            None => missing_leaves(schema.last().1, path),
            Some(v) => check_node(schema.last().1, v, path),
        }
    }
}

/// An unknown key for each data key, in order, that the schema does not declare.
pub open spec fn unknown_keys(
    data: Seq<(Seq<char>, Tree)>,
    schema: Seq<(Seq<char>, SchemaTree)>,
    prefix: Seq<char>,
) -> Seq<Violation>
    decreases data.len(),
{
    if data.len() == 0 {
        Seq::empty()
    } else {
        unknown_keys(data.drop_last(), schema, prefix) + if declares(schema, data.last().0) {
            Seq::empty()
        } else {
            seq![Violation::UnknownKey { key: join_path(prefix, data.last().0) }]
        }
    }
}

/// All violations of the data entries against the schema entries at `prefix`.
pub open spec fn validate_entries(
    schema: Seq<(Seq<char>, SchemaTree)>,
    data: Seq<(Seq<char>, Tree)>,
    prefix: Seq<char>,
) -> Seq<Violation> {
    check_declared(schema, data, prefix) + unknown_keys(data, schema, prefix)
}

/// A parsed schema. `validate(&Config)` checks a configuration against it.
#[derive(Debug)]
pub struct Schema {
    nodes: Vec<(String, Node)>,
}

#[derive(Debug)]
enum Node {
    Leaf(Type),
    Nested(Vec<(String, Node)>),
}

impl Node {
    spec fn view(&self) -> SchemaTree
        decreases self,
    {
        match self {
            Node::Leaf(t) => SchemaTree::Leaf(*t),
            Node::Nested(es) => {
                proof {
                    assert(decreases_to!(es => es@));
                }
                SchemaTree::Nested(nodes_view(es@))
            },
        }
    }
}

/// The models of a sequence of schema entries.
spec fn nodes_view(es: Seq<(String, Node)>) -> Seq<(Seq<char>, SchemaTree)>
    decreases es,
{
    Seq::new(
        es.len(),
        |i: int|
            if 0 <= i < es.len() {
                proof {
                    assert(decreases_to!(es => es[i]));
                }
                (es[i].0@, es[i].1.view())
            } else {
                (Seq::empty(), SchemaTree::Leaf(Type::String))
            },
    )
}

/// Whether the text `s` is a value of type `ty`.
pub fn type_matches(ty: Type, s: &str) -> (b: bool)
    ensures
        b == type_accepts(ty, s@),
{
    match ty {
        Type::String => true,
        Type::Bool => {
            let cs = to_chars(s);
            chars_eq(&cs, &to_chars("true")) || chars_eq(&cs, &to_chars("false"))
        },
        Type::Integer => is_i64_str(&to_chars(s)),
        Type::Float => is_float_str(&to_chars(s)),
    }
}

/// `key` under `prefix`, as `join_path` says.
fn join(prefix: &str, key: &str) -> (r: String)
    ensures
        r@ == join_path(prefix@, key@),
{
    if prefix.is_empty() {
        String::from_str(key)
    } else {
        dotted(prefix, key)
    }
}

/// `path.key`.
fn dotted(path: &str, key: &str) -> (r: String)
    ensures
        r@ == path@ + seq!['.'] + key@,
{
    let mut r = String::from_str(path);
    r.append(".");
    r.append(key);
    proof {
        reveal_strlit(".");
    }
    assert(r@ =~= path@ + seq!['.'] + key@);
    r
}

/// The node a parsed value declares.
fn value_to_node(value: &Value) -> (r: Result<Node, SchemaParseError>)
    ensures
        match tree_to_schema(value.view()) {
            Ok(t) => r matches Ok(n) && n.view() == t,
            Err(name) => r matches Err(e) && e.view() == SchemaFault::UnknownType(name),
        },
    decreases value,
{
    match value {
        Value::String(name) => match Type::from_name(name.as_str()) {
            Ok(ty) => Ok(Node::Leaf(ty)),
            Err(e) => Err(e),
        },
        Value::Namespace(m) => match map_to_nodes(m) {
            Ok(inner) => Ok(Node::Nested(inner)),
            Err(e) => Err(e),
        },
    }
}

/// The schema entries that the entries of `m` declare.
fn map_to_nodes(m: &ValueMap) -> (r: Result<Vec<(String, Node)>, SchemaParseError>)
    ensures
        match entries_to_schema(m@) {
            Ok(ns) => r matches Ok(v) && nodes_view(v@) == ns,
            Err(name) => r matches Err(e) && e.view() == SchemaFault::UnknownType(name),
        },
    decreases m,
{
    let mut out: Vec<(String, Node)> = Vec::new();
    let n = m.entries.len();
    proof {
        ValueMap::lemma_view_len(m);
        assert(m@.take(0) =~= Seq::<(Seq<char>, Tree)>::empty());
        assert(nodes_view(out@) =~= Seq::<(Seq<char>, SchemaTree)>::empty());
    }
    let mut i: usize = 0;
    while i < n
        invariant
            n == m.entries@.len() == m@.len(),
            i <= n,
            entries_to_schema(m@.take(i as int)) == Ok::<
                Seq<(Seq<char>, SchemaTree)>,
                Seq<char>,
            >(nodes_view(out@)),
        decreases n - i,
    {
        proof {
            ValueMap::lemma_view_entry(m, i as int);
            assert(decreases_to!(m => m.entries));
            assert(decreases_to!(m.entries => m.entries@));
            assert(decreases_to!(m.entries@ => m.entries@[i as int]));
            assert(m@.take(i + 1).drop_last() =~= m@.take(i as int));
        }
        let e = &m.entries[i];
        match value_to_node(&e.1) {
            Ok(node) => {
                let ghost before = out@;
                out.push((e.0.clone(), node));
                assert(nodes_view(out@) =~= nodes_view(before).push((e.0@, node.view())));
            },
            Err(err) => {
                proof {
                    lemma_entries_to_schema_err(m@.take(i + 1), m@);
                }
                return Err(err);
            },
        }
        i = i + 1;
    }
    assert(m@.take(n as int) =~= m@);
    Ok(out)
}

proof fn lemma_entries_to_schema_err(a: Seq<(Seq<char>, Tree)>, full: Seq<(Seq<char>, Tree)>)
    requires
        entries_to_schema(a) is Err,
        a.len() <= full.len(),
        a == full.take(a.len() as int),
    ensures
        entries_to_schema(full) == entries_to_schema(a),
    decreases full.len() - a.len(),
{
    if a.len() < full.len() {
        let a2 = full.take(a.len() as int + 1);
        assert(a2.drop_last() =~= a);
        lemma_entries_to_schema_err(a2, full);
    } else {
        assert(a =~= full);
    }
}

/// Appends a missing key for every leaf under `node`, which sits at `path`.
fn report_missing_leaves(node: &Node, path: &str, errors: &mut Vec<ValidationError>)
    ensures
        violations(final(errors)@) == violations(old(errors)@) + missing_leaves(
            node.view(),
            path@,
        ),
    decreases node,
{
    match node {
        Node::Leaf(_) => {
            let ghost before = errors@;
            errors.push(ValidationError::MissingKey { key: String::from_str(path) });
            assert(violations(errors@) =~= violations(before).push(
                Violation::MissingKey { key: path@ },
            ));
        },
        Node::Nested(inner) => {
            let n = inner.len();
            let ghost start = violations(errors@);
            let ghost es = nodes_view(inner@);
            assert(decreases_to!(inner => inner@));
            assert(decreases_to!(node => inner@));
            assert(es.take(0) =~= Seq::<(Seq<char>, SchemaTree)>::empty());
            assert(start + missing_in(es.take(0), path@) =~= start);
            let mut i: usize = 0;
            while i < n
                invariant
                    decreases_to!(node => inner@),
                    n == inner@.len() == es.len(),
                    es == nodes_view(inner@),
                    i <= n,
                    violations(errors@) == start + missing_in(es.take(i as int), path@),
                decreases n - i,
            {
                proof {
                    assert(decreases_to!(inner@ => inner@[i as int]));
                    assert(es.take(i + 1).drop_last() =~= es.take(i as int));
                    assert(es[i as int] == (inner@[i as int].0@, inner@[i as int].1.view()));
                }
                let e = &inner[i];
                let sub_path = dotted(path, e.0.as_str());
                report_missing_leaves(&e.1, sub_path.as_str(), errors);
                assert(violations(errors@) =~= start + missing_in(es.take(i + 1), path@));
                i = i + 1;
            }
            assert(es.take(n as int) =~= es);
        },
    }
}

/// Whether the schema entries declare `k`.
fn schema_declares(schema: &Vec<(String, Node)>, k: &String) -> (b: bool)
    ensures
        b == declares(nodes_view(schema@), k@),
{
    let ghost sv = nodes_view(schema@);
    let mut i: usize = 0;
    while i < schema.len()
        invariant
            i <= schema@.len() == sv.len(),
            sv == nodes_view(schema@),
            forall|j: int| 0 <= j < i ==> sv[j].0 != k@,
        decreases schema.len() - i,
    {
        assert(sv[i as int].0 == schema@[i as int].0@);
        if schema[i].0 == *k {
            return true;
        }
        i = i + 1;
    }
    false
}

/// Appends the violations of `value`, at `path`, against the schema node `node`.
fn validate_node(node: &Node, value: &Value, path: &str, errors: &mut Vec<ValidationError>)
    ensures
        violations(final(errors)@) == violations(old(errors)@) + check_node(
            node.view(),
            value.view(),
            path@,
        ),
    decreases node,
{
    let ghost before = errors@;
    match node {
        Node::Leaf(ty) => match value {
            Value::String(s) => {
                if !type_matches(*ty, s.as_str()) {
                    errors.push(
                        ValidationError::TypeMismatch {
                            key: String::from_str(path),
                            expected: *ty,
                            actual_value: s.clone(),
                        },
                    );
                    assert(violations(errors@) =~= violations(before).push(
                        Violation::TypeMismatch { key: path@, expected: *ty, actual_value: s@ },
                    ));
                } else {
                    assert(violations(errors@) =~= violations(before) + Seq::empty());
                }
            },
            Value::Namespace(_) => {
                errors.push(
                    ValidationError::ShapeMismatch {
                        key: String::from_str(path),
                        expected_kind: "scalar",
                        actual_kind: "map",
                    },
                );
                assert(violations(errors@) =~= violations(before).push(
                    Violation::ShapeMismatch {
                        key: path@,
                        expected_kind: "scalar"@,
                        actual_kind: "map"@,
                    },
                ));
            },
        },
        Node::Nested(inner) => match value {
            Value::Namespace(m) => {
                validate_map(inner, m, path, errors);
            },
            Value::String(_) => {
                errors.push(
                    ValidationError::ShapeMismatch {
                        key: String::from_str(path),
                        expected_kind: "map",
                        actual_kind: "scalar",
                    },
                );
                assert(violations(errors@) =~= violations(before).push(
                    Violation::ShapeMismatch {
                        key: path@,
                        expected_kind: "map"@,
                        actual_kind: "scalar"@,
                    },
                ));
            },
        },
    }
}

/// Appends the violations of the entries of `data`, at `prefix`, against the
/// schema entries `schema`.
fn validate_map(
    schema: &Vec<(String, Node)>,
    data: &ValueMap,
    prefix: &str,
    errors: &mut Vec<ValidationError>,
)
    ensures
        violations(final(errors)@) == violations(old(errors)@) + validate_entries(
            nodes_view(schema@),
            data@,
            prefix@,
        ),
    decreases schema,
{
    let ghost start = violations(errors@);
    let ghost sv = nodes_view(schema@);
    let n = schema.len();
    assert(sv.take(0) =~= Seq::<(Seq<char>, SchemaTree)>::empty());
    assert(start + check_declared(sv.take(0), data@, prefix@) =~= start);
    let mut i: usize = 0;
    while i < n
        invariant
            decreases_to!(schema => schema@),
            n == schema@.len() == sv.len(),
            sv == nodes_view(schema@),
            i <= n,
            violations(errors@) == start + check_declared(sv.take(i as int), data@, prefix@),
        decreases n - i,
    {
        proof {
            assert(decreases_to!(schema@ => schema@[i as int]));
            assert(sv.take(i + 1).drop_last() =~= sv.take(i as int));
            assert(sv[i as int] == (schema@[i as int].0@, schema@[i as int].1.view()));
        }
        let e = &schema[i];
        let path = join(prefix, e.0.as_str());
        match data.get(e.0.as_str()) {
            None => {
                report_missing_leaves(&e.1, path.as_str(), errors);
            },
            Some(v) => {
                validate_node(&e.1, v, path.as_str(), errors);
            },
        }
        assert(violations(errors@) =~= start + check_declared(sv.take(i + 1), data@, prefix@));
        i = i + 1;
    }
    assert(sv.take(n as int) =~= sv);
    let ghost mid = violations(errors@);
    let m = data.len();
    assert(data@.take(0) =~= Seq::<(Seq<char>, Tree)>::empty());
    assert(mid + unknown_keys(data@.take(0), sv, prefix@) =~= mid);
    let mut j: usize = 0;
    while j < m
        invariant
            m == data@.len(),
            sv == nodes_view(schema@),
            j <= m,
            violations(errors@) == mid + unknown_keys(data@.take(j as int), sv, prefix@),
        decreases m - j,
    {
        proof {
            assert(data@.take(j + 1).drop_last() =~= data@.take(j as int));
        }
        let (k, _) = data.entry(j);
        let ghost here = errors@;
        if !schema_declares(schema, k) {
            errors.push(ValidationError::UnknownKey { key: join(prefix, k.as_str()) });
            assert(violations(errors@) =~= violations(here).push(
                Violation::UnknownKey { key: join_path(prefix@, k@) },
            ));
        }
        assert(violations(errors@) =~= mid + unknown_keys(data@.take(j + 1), sv, prefix@));
        j = j + 1;
    }
    assert(data@.take(m as int) =~= data@);
}

impl Schema {
    pub closed spec fn view(&self) -> Seq<(Seq<char>, SchemaTree)> {
        nodes_view(self.nodes@)
    }

    /// The schema that a parsed map declares.
    pub fn from_value_map(map: &ValueMap) -> (r: Result<Schema, SchemaParseError>)
        ensures
            match entries_to_schema(map@) {
                Ok(ns) => r matches Ok(s) && s@ == ns,
                Err(name) => r matches Err(e) && e.view() == SchemaFault::UnknownType(name),
            },
    {
        match map_to_nodes(map) {
            Ok(nodes) => Ok(Schema { nodes }),
            Err(e) => Err(e),
        }
    }

    /// Parses a schema from its text (what `str::parse` does).
    pub fn from_text(input: &str) -> (r: Result<Schema, SchemaParseError>)
        ensures
            match spec_parse(input@) {
                Err(f) => r matches Err(e) && e.view() == SchemaFault::Parse(f),
                Ok(es) => match entries_to_schema(es) {
                    Ok(ns) => r matches Ok(s) && s@ == ns,
                    Err(name) => r matches Err(e) && e.view() == SchemaFault::UnknownType(name),
                },
            },
    {
        match parse_str(input) {
            Ok(raw) => Schema::from_value_map(&raw),
            Err(e) => Err(SchemaParseError::Parse(e)),
        }
    }

    /// Checks a configuration. Every violation is reported, in order.
    pub fn validate(&self, config: &Config) -> (r: Result<(), Vec<ValidationError>>)
        ensures
            validate_entries(self@, config@, Seq::empty()).len() == 0 ==> r is Ok,
            validate_entries(self@, config@, Seq::empty()).len() > 0 ==> (r matches Err(v)
                && violations(v@) == validate_entries(self@, config@, Seq::empty())),
    {
        let mut errors: Vec<ValidationError> = Vec::new();
        assert(violations(errors@) =~= Seq::<Violation>::empty());
        let top = "";
        proof {
            reveal_strlit("");
            assert(top@ =~= Seq::<char>::empty());
        }
        validate_map(&self.nodes, config.root(), top, &mut errors);
        proof {
            assert(violations(errors@) =~= validate_entries(self@, config@, Seq::empty()));
        }
        if errors.len() == 0 {
            Ok(())
        } else {
            Err(errors)
        }
    }
}

impl Node {
    /// A copy of this node, nested entries copied all the way down.
    fn deep_copy(&self) -> (r: Node)
        ensures
            r.view() == self.view(),
        decreases self,
    {
        match self {
            Node::Leaf(t) => Node::Leaf(*t),
            Node::Nested(es) => Node::Nested(copy_nodes(es)),
        }
    }
}

/// A copy of the schema entries `es`.
fn copy_nodes(es: &Vec<(String, Node)>) -> (r: Vec<(String, Node)>)
    ensures
        nodes_view(r@) == nodes_view(es@),
    decreases es,
{
    let mut out: Vec<(String, Node)> = Vec::new();
    let n = es.len();
    let mut i: usize = 0;
    while i < n
        invariant
            decreases_to!(es => es@),
            n == es@.len(),
            i <= n,
            out@.len() == i,
            nodes_view(out@) == nodes_view(es@).take(i as int),
        decreases n - i,
    {
        proof {
            assert(decreases_to!(es@ => es@[i as int]));
        }
        let e = &es[i];
        let ghost before = out@;
        let k = e.0.clone();
        let v = e.1.deep_copy();
        out.push((k, v));
        proof {
            assert(out@[i as int] == (k, v));
            assert forall|j: int| 0 <= j < i + 1 implies nodes_view(out@)[j] == nodes_view(
                es@,
            )[j] by {
                if j < i {
                    assert(out@[j] == before[j]);
                    assert(nodes_view(before)[j] == nodes_view(es@).take(i as int)[j]);
                }
            }
        }
        assert(nodes_view(out@) =~= nodes_view(es@).take(i + 1));
        i = i + 1;
    }
    assert(nodes_view(out@) =~= nodes_view(es@));
    out
}

impl Clone for Schema {
    fn clone(&self) -> (r: Schema)
        ensures
            r@ == self@,
    {
        Schema { nodes: copy_nodes(&self.nodes) }
    }
}

/// Whether the schema node `n` declares some leaf.
pub open spec fn has_leaf(n: SchemaTree) -> bool
    decreases n,
{
    match n {
        SchemaTree::Leaf(_) => true,
        SchemaTree::Nested(es) => any_leaf(es),
    }
}

/// Whether some schema entry of `es` declares a leaf.
pub open spec fn any_leaf(es: Seq<(Seq<char>, SchemaTree)>) -> bool
    decreases es,
{
    if es.len() == 0 {
        false
    } else {
        any_leaf(es.drop_last()) || has_leaf(es.last().1)
    }
}

/// Whether the value `v` has the shape and the types that the node `n` declares.
pub open spec fn node_conforms(n: SchemaTree, v: Tree) -> bool
    decreases n,
{
    match n {
        SchemaTree::Leaf(ty) => match v {
            Tree::Leaf(s) => type_accepts(ty, s),
            Tree::Branch(_) => false,
        },
        SchemaTree::Nested(inner) => match v {
            Tree::Branch(m) => declared_conform(inner, m) && all_declared(m, inner),
            Tree::Leaf(_) => false,
        },
    }
}

/// Whether every declared key is present and conforms, or is absent and
/// declares no leaf.
pub open spec fn declared_conform(
    schema: Seq<(Seq<char>, SchemaTree)>,
    data: Seq<(Seq<char>, Tree)>,
) -> bool
    decreases schema,
{
    if schema.len() == 0 {
        true
    } else {
        declared_conform(schema.drop_last(), data) && match lookup(data, schema.last().0) {
            None => !has_leaf(schema.last().1),
            Some(v) => node_conforms(schema.last().1, v),
        }
    }
}

/// Whether the schema declares every key of the data.
pub open spec fn all_declared(
    data: Seq<(Seq<char>, Tree)>,
    schema: Seq<(Seq<char>, SchemaTree)>,
) -> bool {
    forall|j: int| 0 <= j < data.len() ==> declares(schema, #[trigger] data[j].0)
}

proof fn lemma_missing_empty(n: SchemaTree, path: Seq<char>)
    ensures
        (missing_leaves(n, path).len() == 0) == !has_leaf(n),
    decreases n,
{
    if let SchemaTree::Nested(es) = n {
        lemma_missing_in_empty(es, path);
    }
}

proof fn lemma_missing_in_empty(es: Seq<(Seq<char>, SchemaTree)>, path: Seq<char>)
    ensures
        (missing_in(es, path).len() == 0) == !any_leaf(es),
    decreases es,
{
    if es.len() > 0 {
        lemma_missing_in_empty(es.drop_last(), path);
        lemma_missing_empty(es.last().1, path + seq!['.'] + es.last().0);
    }
}

proof fn lemma_unknown_empty(
    data: Seq<(Seq<char>, Tree)>,
    schema: Seq<(Seq<char>, SchemaTree)>,
    prefix: Seq<char>,
)
    ensures
        (unknown_keys(data, schema, prefix).len() == 0) == all_declared(data, schema),
    decreases data.len(),
{
    if data.len() > 0 {
        lemma_unknown_empty(data.drop_last(), schema, prefix);
        if all_declared(data, schema) {
            assert forall|j: int| 0 <= j < data.drop_last().len() implies declares(
                schema,
                #[trigger] data.drop_last()[j].0,
            ) by {
                assert(data.drop_last()[j] == data[j]);
            }
            assert(declares(schema, data[data.len() - 1].0));
        }
        if unknown_keys(data, schema, prefix).len() == 0 {
            assert forall|j: int| 0 <= j < data.len() implies declares(
                schema,
                #[trigger] data[j].0,
            ) by {
                if j < data.len() - 1 {
                    assert(data.drop_last()[j] == data[j]);
                }
            }
        }
    }
}

proof fn lemma_check_node_empty(n: SchemaTree, v: Tree, path: Seq<char>)
    ensures
        (check_node(n, v, path).len() == 0) == node_conforms(n, v),
    decreases n,
{
    if let SchemaTree::Nested(inner) = n {
        if let Tree::Branch(m) = v {
            lemma_check_declared_empty(inner, m, path);
            lemma_unknown_empty(m, inner, path);
        }
    }
}

proof fn lemma_check_declared_empty(
    schema: Seq<(Seq<char>, SchemaTree)>,
    data: Seq<(Seq<char>, Tree)>,
    prefix: Seq<char>,
)
    ensures
        (check_declared(schema, data, prefix).len() == 0) == declared_conform(schema, data),
    decreases schema,
{
    if schema.len() > 0 {
        lemma_check_declared_empty(schema.drop_last(), data, prefix);
        let k = schema.last().0;
        let path = join_path(prefix, k);
        match lookup(data, k) {
            None => lemma_missing_empty(schema.last().1, path),
            Some(v) => lemma_check_node_empty(schema.last().1, v, path),
        }
    }
}

/// `validate` reports no violation exactly when every declared key is present
/// with the declared shape and type (or declares no leaf and is absent), and
/// every key of the configuration is declared.
pub proof fn lemma_valid_iff_conforms(
    schema: Seq<(Seq<char>, SchemaTree)>,
    data: Seq<(Seq<char>, Tree)>,
)
    ensures
        (validate_entries(schema, data, Seq::empty()).len() == 0) == (declared_conform(
            schema,
            data,
        ) && all_declared(data, schema)),
{
    lemma_check_declared_empty(schema, data, Seq::empty());
    lemma_unknown_empty(data, schema, Seq::empty());
}

/// The violations of entry `i` of the schema are among those of the entries.
pub(crate) proof fn lemma_entry_part_reported(
    schema: Seq<(Seq<char>, SchemaTree)>,
    data: Seq<(Seq<char>, Tree)>,
    prefix: Seq<char>,
    i: int,
    x: Violation,
)
    requires
        0 <= i < schema.len(),
        (match lookup(data, schema[i].0) {
            None => missing_leaves(schema[i].1, join_path(prefix, schema[i].0)),
            Some(v) => check_node(schema[i].1, v, join_path(prefix, schema[i].0)),
        }).contains(x),
    ensures
        check_declared(schema, data, prefix).contains(x),
    decreases schema.len(),
{
    let whole = check_declared(schema, data, prefix);
    let front = check_declared(schema.drop_last(), data, prefix);
    if i == schema.len() - 1 {
        let part = match lookup(data, schema[i].0) {
            None => missing_leaves(schema[i].1, join_path(prefix, schema[i].0)),
            Some(v) => check_node(schema[i].1, v, join_path(prefix, schema[i].0)),
        };
        let j = choose|j: int| 0 <= j < part.len() && part[j] == x;
        assert(whole[front.len() + j] == x);
    } else {
        assert(schema.drop_last()[i] == schema[i]);
        lemma_entry_part_reported(schema.drop_last(), data, prefix, i, x);
        let j = choose|j: int| 0 <= j < front.len() && front[j] == x;
        assert(whole[j] == x);
    }
}

/// Every declared key is checked, whatever the other keys hold: a missing
/// leaf, a value not of its type and a value of the wrong shape are each reported.
pub proof fn lemma_declared_violation_reported(
    schema: Seq<(Seq<char>, SchemaTree)>,
    data: Seq<(Seq<char>, Tree)>,
    prefix: Seq<char>,
    i: int,
)
    requires
        0 <= i < schema.len(),
    ensures
        ({
            let k = schema[i].0;
            let path = join_path(prefix, k);
            let all = validate_entries(schema, data, prefix);
            &&& (schema[i].1 is Leaf && lookup(data, k) is None) ==> all.contains(
                Violation::MissingKey { key: path },
            )
            &&& schema[i].1 matches SchemaTree::Leaf(ty) ==> lookup(data, k) matches Some(
                Tree::Leaf(s),
            ) ==> !type_accepts(ty, s) ==> all.contains(
                Violation::TypeMismatch { key: path, expected: ty, actual_value: s },
            )
            &&& (schema[i].1 is Leaf && lookup(data, k) matches Some(Tree::Branch(_)))
                ==> all.contains(
                Violation::ShapeMismatch {
                    key: path,
                    expected_kind: "scalar"@,
                    actual_kind: "map"@,
                },
            )
            &&& (schema[i].1 is Nested && lookup(data, k) matches Some(Tree::Leaf(_)))
                ==> all.contains(
                Violation::ShapeMismatch {
                    key: path,
                    expected_kind: "map"@,
                    actual_kind: "scalar"@,
                },
            )
        }),
{
    let k = schema[i].0;
    let path = join_path(prefix, k);
    let all = validate_entries(schema, data, prefix);
    let decl = check_declared(schema, data, prefix);
    let part = match lookup(data, k) {
        None => missing_leaves(schema[i].1, path),
        Some(v) => check_node(schema[i].1, v, path),
    };
    if part.len() > 0 {
        lemma_entry_part_reported(schema, data, prefix, i, part[0]);
        let j = choose|j: int| 0 <= j < decl.len() && decl[j] == part[0];
        assert(all[j] == part[0]);
    }
}

/// Every key of the configuration that the schema does not declare is reported.
pub proof fn lemma_unknown_key_reported(
    schema: Seq<(Seq<char>, SchemaTree)>,
    data: Seq<(Seq<char>, Tree)>,
    prefix: Seq<char>,
    j: int,
)
    requires
        0 <= j < data.len(),
        !declares(schema, data[j].0),
    ensures
        validate_entries(schema, data, prefix).contains(
            Violation::UnknownKey { key: join_path(prefix, data[j].0) },
        ),
    decreases data.len(),
{
    let x = Violation::UnknownKey { key: join_path(prefix, data[j].0) };
    let decl = check_declared(schema, data, prefix);
    lemma_unknown_part(data, schema, prefix, j);
    let u = unknown_keys(data, schema, prefix);
    let m = choose|m: int| 0 <= m < u.len() && u[m] == x;
    assert(validate_entries(schema, data, prefix)[decl.len() + m] == x);
}

pub(crate) proof fn lemma_unknown_part(
    data: Seq<(Seq<char>, Tree)>,
    schema: Seq<(Seq<char>, SchemaTree)>,
    prefix: Seq<char>,
    j: int,
)
    requires
        0 <= j < data.len(),
        !declares(schema, data[j].0),
    ensures
        unknown_keys(data, schema, prefix).contains(
            Violation::UnknownKey { key: join_path(prefix, data[j].0) },
        ),
    decreases data.len(),
{
    let x = Violation::UnknownKey { key: join_path(prefix, data[j].0) };
    let whole = unknown_keys(data, schema, prefix);
    let front = unknown_keys(data.drop_last(), schema, prefix);
    if j == data.len() - 1 {
        assert(whole[front.len() as int] == x);
    } else {
        assert(data.drop_last()[j] == data[j]);
        lemma_unknown_part(data.drop_last(), schema, prefix, j);
        let m = choose|m: int| 0 <= m < front.len() && front[m] == x;
        assert(whole[m] == x);
    }
}

/// Whether every leaf of `t` names a known type.
pub open spec fn leaves_typed(t: Tree) -> bool
    decreases t,
{
    match t {
        Tree::Leaf(name) => type_of_name(name) is Some,
        Tree::Branch(es) => entries_typed(es),
    }
}

/// Whether every leaf under the entries `es` names a known type.
pub open spec fn entries_typed(es: Seq<(Seq<char>, Tree)>) -> bool
    decreases es,
{
    es.len() == 0 || (entries_typed(es.drop_last()) && leaves_typed(es.last().1))
}

/// Whether `name` is a leaf of `t`.
pub open spec fn tree_has_leaf(t: Tree, name: Seq<char>) -> bool
    decreases t,
{
    match t {
        Tree::Leaf(n) => n == name,
        Tree::Branch(es) => entries_have_leaf(es, name),
    }
}

/// Whether `name` is a leaf under the entries `es`.
pub open spec fn entries_have_leaf(es: Seq<(Seq<char>, Tree)>, name: Seq<char>) -> bool
    decreases es,
{
    es.len() > 0 && (entries_have_leaf(es.drop_last(), name) || tree_has_leaf(es.last().1, name))
}

/// A parsed value declares a schema exactly when each of its leaves names a
/// known type; otherwise the error names one of its leaves, which is no type.
pub proof fn lemma_tree_to_schema_ok(t: Tree)
    ensures
        tree_to_schema(t) is Ok <==> leaves_typed(t),
        tree_to_schema(t) matches Err(name) ==> tree_has_leaf(t, name) && type_of_name(name)
            is None,
    decreases t,
{
    if let Tree::Branch(es) = t {
        lemma_entries_to_schema_ok(es);
    }
}

/// Parsed entries declare schema entries exactly when each of their leaves
/// names a known type; otherwise the error names one of their leaves, which is no type.
pub proof fn lemma_entries_to_schema_ok(es: Seq<(Seq<char>, Tree)>)
    ensures
        entries_to_schema(es) is Ok <==> entries_typed(es),
        entries_to_schema(es) matches Err(name) ==> entries_have_leaf(es, name) && type_of_name(
            name,
        ) is None,
    decreases es,
{
    if es.len() > 0 {
        lemma_entries_to_schema_ok(es.drop_last());
        lemma_tree_to_schema_ok(es.last().1);
    }
}

/// The key that a violation is reported under.
pub open spec fn violation_key(v: Violation) -> Seq<char> {
    match v {
        Violation::MissingKey { key } => key,
        Violation::UnknownKey { key } => key,
        Violation::TypeMismatch { key, .. } => key,
        Violation::ShapeMismatch { key, .. } => key,
    }
}

/// `k` is the dotted path `p` itself or a path below it.
pub open spec fn path_within(k: Seq<char>, p: Seq<char>) -> bool {
    k == p || (k.len() > p.len() && k.subrange(0, p.len() as int) == p && k[p.len() as int] == '.')
}

/// What stands before a key of the namespace at `prefix`: `prefix.`, or
/// nothing at the top level.
pub open spec fn key_base(prefix: Seq<char>) -> Seq<char> {
    if prefix.len() == 0 {
        Seq::empty()
    } else {
        prefix + seq!['.']
    }
}

/// Every key of the schema node is non-empty and dot-free, and declared once
/// in its namespace.
pub open spec fn schema_tree_wf(n: SchemaTree) -> bool
    decreases n,
{
    match n {
        SchemaTree::Leaf(_) => true,
        SchemaTree::Nested(es) => schema_entries_wf(es),
    }
}

/// Every key of the schema entries, however deep, is non-empty and dot-free,
/// and declared once in its namespace.
pub open spec fn schema_entries_wf(es: Seq<(Seq<char>, SchemaTree)>) -> bool
    decreases es,
{
    es.len() == 0 || (schema_entries_wf(es.drop_last()) && key_ok(es.last().0) && !declares(
        es.drop_last(),
        es.last().0,
    ) && schema_tree_wf(es.last().1))
}

proof fn lemma_join_path_base(prefix: Seq<char>, k: Seq<char>)
    ensures
        join_path(prefix, k) == key_base(prefix) + k,
{
    if prefix.len() == 0 {
        assert(Seq::<char>::empty() + k =~= k);
    }
}

proof fn lemma_within_prefix(k: Seq<char>, p: Seq<char>)
    requires
        path_within(k, p),
    ensures
        forall|t: int| 0 <= t < p.len() ==> k[t] == #[trigger] p[t],
        k.len() >= p.len(),
        k.len() > p.len() ==> k[p.len() as int] == '.',
{
    if k != p {
        assert forall|t: int| 0 <= t < p.len() implies k[t] == #[trigger] p[t] by {
            assert(k.subrange(0, p.len() as int)[t] == k[t]);
        }
    }
}

proof fn lemma_within_trans(k: Seq<char>, q: Seq<char>, p: Seq<char>)
    requires
        path_within(k, q),
        path_within(q, p),
    ensures
        path_within(k, p),
{
    if k != q && q != p {
        lemma_within_prefix(k, q);
        lemma_within_prefix(q, p);
        assert(k.subrange(0, p.len() as int) =~= p);
    }
}

proof fn lemma_within_child(p: Seq<char>, k: Seq<char>)
    ensures
        path_within(p + seq!['.'] + k, p),
{
    let q = p + seq!['.'] + k;
    assert(q.subrange(0, p.len() as int) =~= p);
}

/// No path lies within two sibling keys at once.
proof fn lemma_siblings_apart(base: Seq<char>, k1: Seq<char>, k2: Seq<char>, k: Seq<char>)
    requires
        key_ok(k1),
        key_ok(k2),
        k1 != k2,
        path_within(k, base + k1),
    ensures
        !path_within(k, base + k2),
{
    if path_within(k, base + k2) {
        let q1 = base + k1;
        let q2 = base + k2;
        let b = base.len() as int;
        lemma_within_prefix(k, q1);
        lemma_within_prefix(k, q2);
        if exists|t: int| 0 <= t < k1.len() && t < k2.len() && k1[t] != k2[t] {
            let t = choose|t: int| 0 <= t < k1.len() && t < k2.len() && k1[t] != k2[t];
            assert(k[b + t] == q1[b + t]);
            assert(k[b + t] == q2[b + t]);
        } else if k1.len() == k2.len() {
            assert forall|t: int| 0 <= t < k1.len() implies k1[t] == k2[t] by {}
            assert(k1 =~= k2);
        } else if k1.len() < k2.len() {
            let t = k1.len() as int;
            assert(k[b + t] == q2[b + t]);
            assert(k2[t] != '.');
        } else {
            let t = k2.len() as int;
            assert(k[b + t] == q1[b + t]);
            assert(k1[t] != '.');
        }
    }
}

/// Joining the base of a namespace with either of two different keys gives
/// two different paths.
proof fn lemma_base_cancel(base: Seq<char>, k1: Seq<char>, k2: Seq<char>)
    requires
        base + k1 == base + k2,
    ensures
        k1 == k2,
{
    assert(k1 =~= (base + k1).subrange(base.len() as int, (base + k1).len() as int));
    assert(k2 =~= (base + k2).subrange(base.len() as int, (base + k2).len() as int));
}

proof fn lemma_no_dup_concat(a: Seq<Violation>, b: Seq<Violation>)
    requires
        a.no_duplicates(),
        b.no_duplicates(),
        forall|i: int, j: int| 0 <= i < a.len() && 0 <= j < b.len() ==> a[i] != b[j],
    ensures
        (a + b).no_duplicates(),
{
    let c = a + b;
    assert forall|i: int, j: int| 0 <= i < c.len() && 0 <= j < c.len() && i != j implies c[i]
        != c[j] by {
        if i < a.len() && j >= a.len() {
            assert(c[i] == a[i] && c[j] == b[j - a.len()]);
        } else if j < a.len() && i >= a.len() {
            assert(c[j] == a[j] && c[i] == b[i - a.len()]);
        } else if i < a.len() {
            assert(c[i] == a[i] && c[j] == a[j]);
        } else {
            assert(c[i] == b[i - a.len()] && c[j] == b[j - a.len()]);
        }
    }
}

proof fn lemma_missing_leaves_apart(n: SchemaTree, p: Seq<char>)
    requires
        schema_tree_wf(n),
    ensures
        missing_leaves(n, p).no_duplicates(),
        forall|i: int|
            0 <= i < missing_leaves(n, p).len() ==> path_within(
                violation_key(#[trigger] missing_leaves(n, p)[i]),
                p,
            ),
    decreases n,
{
    match n {
        SchemaTree::Leaf(_) => {},
        SchemaTree::Nested(es) => {
            lemma_missing_in_apart(es, p);
        },
    }
}

proof fn lemma_missing_in_apart(es: Seq<(Seq<char>, SchemaTree)>, p: Seq<char>)
    requires
        schema_entries_wf(es),
    ensures
        missing_in(es, p).no_duplicates(),
        forall|i: int|
            0 <= i < missing_in(es, p).len() ==> path_within(
                violation_key(#[trigger] missing_in(es, p)[i]),
                p,
            ),
        forall|k2: Seq<char>, i: int|
            key_ok(k2) && !declares(es, k2) && 0 <= i < missing_in(es, p).len() ==> !path_within(
                violation_key(#[trigger] missing_in(es, p)[i]),
                #[trigger] (p + seq!['.'] + k2),
            ),
    decreases es,
{
    if es.len() > 0 {
        let rest = es.drop_last();
        let k = es.last().0;
        let q = p + seq!['.'] + k;
        let a = missing_in(rest, p);
        let b = missing_leaves(es.last().1, q);
        lemma_missing_in_apart(rest, p);
        lemma_missing_leaves_apart(es.last().1, q);
        lemma_within_child(p, k);
        assert(missing_in(es, p) == a + b);
        assert forall|i: int, j: int| 0 <= i < a.len() && 0 <= j < b.len() implies a[i]
            != b[j] by {
            assert(path_within(violation_key(b[j]), q));
            assert(!path_within(violation_key(a[i]), p + seq!['.'] + k));
        }
        lemma_no_dup_concat(a, b);
        assert forall|i: int| 0 <= i < (a + b).len() implies path_within(
            violation_key(#[trigger] (a + b)[i]),
            p,
        ) by {
            if i >= a.len() {
                assert((a + b)[i] == b[i - a.len()]);
                lemma_within_trans(violation_key(b[i - a.len()]), q, p);
            } else {
                assert((a + b)[i] == a[i]);
            }
        }
        assert forall|k2: Seq<char>, i: int|
            key_ok(k2) && !declares(es, k2) && 0 <= i < (a + b).len() implies !path_within(
            violation_key(#[trigger] (a + b)[i]),
            #[trigger] (p + seq!['.'] + k2),
        ) by {
            assert(es[es.len() - 1].0 == k);
            if i >= a.len() {
                assert((a + b)[i] == b[i - a.len()]);
                lemma_siblings_apart(p + seq!['.'], k, k2, violation_key(b[i - a.len()]));
            } else {
                assert((a + b)[i] == a[i]);
                assert forall|t: int| 0 <= t < rest.len() implies #[trigger] rest[t].0 != k2 by {
                    assert(rest[t] == es[t]);
                }
            }
        }
    }
}

proof fn lemma_unknown_apart(
    data: Seq<(Seq<char>, Tree)>,
    schema: Seq<(Seq<char>, SchemaTree)>,
    prefix: Seq<char>,
)
    requires
        entries_wf(data),
        keys_sorted(data),
    ensures
        unknown_keys(data, schema, prefix).no_duplicates(),
        forall|i: int|
            0 <= i < unknown_keys(data, schema, prefix).len() ==> exists|j: int|
                0 <= j < data.len() && key_ok(data[j].0) && !declares(schema, data[j].0)
                    && violation_key(#[trigger] unknown_keys(data, schema, prefix)[i])
                    == key_base(prefix) + data[j].0,
    decreases data.len(),
{
    if data.len() > 0 {
        let rest = data.drop_last();
        let k = data.last().0;
        let last = data.len() - 1;
        let a = unknown_keys(rest, schema, prefix);
        assert(keys_sorted(rest)) by {
            assert forall|i: int, j: int| 0 <= i < j < rest.len() implies key_lt(
                #[trigger] rest[i].0,
                #[trigger] rest[j].0,
            ) by {
                assert(rest[i] == data[i] && rest[j] == data[j]);
            }
        }
        lemma_unknown_apart(rest, schema, prefix);
        lemma_join_path_base(prefix, k);
        let c = if declares(schema, k) {
            Seq::empty()
        } else {
            seq![Violation::UnknownKey { key: join_path(prefix, k) }]
        };
        assert(unknown_keys(data, schema, prefix) == a + c);
        assert forall|i: int, j: int| 0 <= i < a.len() && 0 <= j < c.len() implies a[i]
            != c[j] by {
            let jj = choose|jj: int|
                0 <= jj < rest.len() && key_ok(rest[jj].0) && !declares(schema, rest[jj].0)
                    && violation_key(a[i]) == key_base(prefix) + rest[jj].0;
            assert(rest[jj] == data[jj]);
            if a[i] == c[j] {
                lemma_base_cancel(key_base(prefix), rest[jj].0, k);
                assert(key_lt(data[jj].0, data[last].0));
                lemma_key_lt_irreflexive(k);
            }
        }
        lemma_no_dup_concat(a, c);
        assert forall|i: int| 0 <= i < (a + c).len() implies exists|j: int|
            0 <= j < data.len() && key_ok(data[j].0) && !declares(schema, data[j].0)
                && violation_key(#[trigger] (a + c)[i]) == key_base(prefix) + data[j].0 by {
            if i < a.len() {
                assert((a + c)[i] == a[i]);
                let jj = choose|jj: int|
                    0 <= jj < rest.len() && key_ok(rest[jj].0) && !declares(schema, rest[jj].0)
                        && violation_key(a[i]) == key_base(prefix) + rest[jj].0;
                assert(rest[jj] == data[jj]);
            } else {
                assert((a + c)[i] == c[i - a.len()]);
                assert(data[last].0 == k);
            }
        }
    }
}

proof fn lemma_check_node_apart(n: SchemaTree, t: Tree, p: Seq<char>)
    requires
        schema_tree_wf(n),
        tree_wf(t),
        tree_sorted(t),
        p.len() > 0,
    ensures
        check_node(n, t, p).no_duplicates(),
        forall|i: int|
            0 <= i < check_node(n, t, p).len() ==> path_within(
                violation_key(#[trigger] check_node(n, t, p)[i]),
                p,
            ),
    decreases n,
{
    match n {
        SchemaTree::Nested(inner) => match t {
            Tree::Branch(m) => {
                let a = check_declared(inner, m, p);
                let b = unknown_keys(m, inner, p);
                lemma_check_declared_apart(inner, m, p);
                lemma_unknown_apart(m, inner, p);
                assert(check_node(n, t, p) == a + b);
                assert forall|i: int, j: int| 0 <= i < a.len() && 0 <= j < b.len() implies a[i]
                    != b[j] by {
                    let jj = choose|jj: int|
                        0 <= jj < m.len() && key_ok(m[jj].0) && !declares(inner, m[jj].0)
                            && violation_key(b[j]) == key_base(p) + m[jj].0;
                    assert(!path_within(violation_key(a[i]), key_base(p) + m[jj].0));
                }
                lemma_no_dup_concat(a, b);
                assert forall|i: int| 0 <= i < (a + b).len() implies path_within(
                    violation_key(#[trigger] (a + b)[i]),
                    p,
                ) by {
                    if i < a.len() {
                        assert((a + b)[i] == a[i]);
                    } else {
                        assert((a + b)[i] == b[i - a.len()]);
                        let jj = choose|jj: int|
                            0 <= jj < m.len() && key_ok(m[jj].0) && !declares(inner, m[jj].0)
                                && violation_key(b[i - a.len()]) == key_base(p) + m[jj].0;
                        lemma_within_child(p, m[jj].0);
                    }
                }
            },
            Tree::Leaf(_) => {},
        },
        SchemaTree::Leaf(_) => {},
    }
}

proof fn lemma_check_declared_apart(
    schema: Seq<(Seq<char>, SchemaTree)>,
    data: Seq<(Seq<char>, Tree)>,
    prefix: Seq<char>,
)
    requires
        schema_entries_wf(schema),
        entries_wf(data),
        entries_sorted(data),
    ensures
        check_declared(schema, data, prefix).no_duplicates(),
        prefix.len() > 0 ==> forall|i: int|
            0 <= i < check_declared(schema, data, prefix).len() ==> path_within(
                violation_key(#[trigger] check_declared(schema, data, prefix)[i]),
                prefix,
            ),
        forall|k2: Seq<char>, i: int|
            key_ok(k2) && !declares(schema, k2) && 0 <= i < check_declared(
                schema,
                data,
                prefix,
            ).len() ==> !path_within(
                violation_key(#[trigger] check_declared(schema, data, prefix)[i]),
                #[trigger] (key_base(prefix) + k2),
            ),
    decreases schema,
{
    if schema.len() > 0 {
        let rest = schema.drop_last();
        let k = schema.last().0;
        let n = schema.last().1;
        let base = key_base(prefix);
        let q = join_path(prefix, k);
        lemma_join_path_base(prefix, k);
        let a = check_declared(rest, data, prefix);
        let b = match lookup(data, k) {
            None => missing_leaves(n, q),
            Some(v) => check_node(n, v, q),
        };
        lemma_check_declared_apart(rest, data, prefix);
        match lookup(data, k) {
            None => {
                lemma_missing_leaves_apart(n, q);
            },
            Some(v) => {
                lemma_lookup_wf(data, k);
                lemma_lookup_child_sorted(data, k);
                lemma_check_node_apart(n, v, q);
            },
        }
        assert(check_declared(schema, data, prefix) == a + b);
        assert forall|i: int, j: int| 0 <= i < a.len() && 0 <= j < b.len() implies a[i]
            != b[j] by {
            assert(path_within(violation_key(b[j]), q));
            assert(!path_within(violation_key(a[i]), base + k));
        }
        lemma_no_dup_concat(a, b);
        if prefix.len() > 0 {
            lemma_within_child(prefix, k);
            assert forall|i: int| 0 <= i < (a + b).len() implies path_within(
                violation_key(#[trigger] (a + b)[i]),
                prefix,
            ) by {
                if i < a.len() {
                    assert((a + b)[i] == a[i]);
                } else {
                    assert((a + b)[i] == b[i - a.len()]);
                    lemma_within_trans(violation_key(b[i - a.len()]), q, prefix);
                }
            }
        }
        assert forall|k2: Seq<char>, i: int|
            key_ok(k2) && !declares(schema, k2) && 0 <= i < (a + b).len() implies !path_within(
            violation_key(#[trigger] (a + b)[i]),
            #[trigger] (base + k2),
        ) by {
            assert(schema[schema.len() - 1].0 == k);
            if i >= a.len() {
                assert((a + b)[i] == b[i - a.len()]);
                lemma_siblings_apart(base, k, k2, violation_key(b[i - a.len()]));
            } else {
                assert((a + b)[i] == a[i]);
                assert forall|t: int| 0 <= t < rest.len() implies #[trigger] rest[t].0 != k2 by {
                    assert(rest[t] == schema[t]);
                }
            }
        }
    }
}

/// Validation reports each violation once: where every key of the schema and
/// of the configuration is non-empty and dot-free, and each is declared once
/// in its namespace (as parsing makes them), no two entries of the report are
/// the same.
pub proof fn lemma_violations_distinct(
    schema: Seq<(Seq<char>, SchemaTree)>,
    data: Seq<(Seq<char>, Tree)>,
    prefix: Seq<char>,
)
    requires
        schema_entries_wf(schema),
        entries_wf(data),
        entries_sorted(data),
    ensures
        validate_entries(schema, data, prefix).no_duplicates(),
{
    let a = check_declared(schema, data, prefix);
    let b = unknown_keys(data, schema, prefix);
    lemma_check_declared_apart(schema, data, prefix);
    lemma_unknown_apart(data, schema, prefix);
    assert forall|i: int, j: int| 0 <= i < a.len() && 0 <= j < b.len() implies a[i] != b[j] by {
        let jj = choose|jj: int|
            0 <= jj < data.len() && key_ok(data[jj].0) && !declares(schema, data[jj].0)
                && violation_key(b[j]) == key_base(prefix) + data[jj].0;
        assert(!path_within(violation_key(a[i]), key_base(prefix) + data[jj].0));
    }
    lemma_no_dup_concat(a, b);
}

proof fn lemma_tree_to_schema_wf(t: Tree)
    requires
        tree_wf(t),
        tree_sorted(t),
    ensures
        tree_to_schema(t) matches Ok(n) ==> schema_tree_wf(n),
    decreases t,
{
    if let Tree::Branch(es) = t {
        lemma_entries_to_schema_wf(es);
    }
}

pub(crate) proof fn lemma_entries_to_schema_wf(es: Seq<(Seq<char>, Tree)>)
    requires
        entries_wf(es),
        entries_sorted(es),
    ensures
        entries_to_schema(es) matches Ok(ns) ==> schema_entries_wf(ns) && ns.len() == es.len()
            && forall|i: int| 0 <= i < es.len() ==> #[trigger] ns[i].0 == es[i].0,
    decreases es,
{
    if es.len() > 0 {
        let rest = es.drop_last();
        let last = es.len() - 1;
        assert(keys_sorted(rest)) by {
            assert forall|i: int, j: int| 0 <= i < j < rest.len() implies key_lt(
                #[trigger] rest[i].0,
                #[trigger] rest[j].0,
            ) by {
                assert(rest[i] == es[i] && rest[j] == es[j]);
            }
        }
        lemma_entries_to_schema_wf(rest);
        lemma_tree_to_schema_wf(es.last().1);
        if let Ok(ns) = entries_to_schema(es) {
            let ns0 = entries_to_schema(rest)->Ok_0;
            assert(ns.drop_last() =~= ns0);
            assert forall|i: int| 0 <= i < ns0.len() implies #[trigger] ns0[i].0 != es.last().0 by {
                assert(rest[i] == es[i]);
                assert(key_lt(es[i].0, es[last].0));
                lemma_key_lt_irreflexive(es[last].0);
            }
            assert forall|i: int| 0 <= i < es.len() implies #[trigger] ns[i].0 == es[i].0 by {
                if i < last {
                    assert(ns[i] == ns0[i]);
                    assert(rest[i] == es[i]);
                }
            }
        }
    }
}

/// Exactly four names are types: `string`, `bool`, `integer` and `float`, each
/// naming its own type; every other name is unknown.
pub proof fn lemma_type_names(name: Seq<char>)
    ensures
        (type_of_name(name) == Some(Type::String)) <==> name == "string"@,
        (type_of_name(name) == Some(Type::Bool)) <==> name == "bool"@,
        (type_of_name(name) == Some(Type::Integer)) <==> name == "integer"@,
        (type_of_name(name) == Some(Type::Float)) <==> name == "float"@,
        type_of_name(name) is None <==> (name != "string"@ && name != "bool"@ && name
            != "integer"@ && name != "float"@),
{
    reveal_strlit("string");
    reveal_strlit("bool");
    reveal_strlit("integer");
    reveal_strlit("float");
    assert("string"@.len() == 6 && "bool"@.len() == 4 && "integer"@.len() == 7 && "float"@.len()
        == 5);
}

/// A bool is written `true` or `false` and nothing else; in particular no
/// integer text (such as `1` or `0`) is a bool.
pub proof fn lemma_bool_texts(s: Seq<char>)
    ensures
        type_accepts(Type::Bool, s) <==> (s == "true"@ || s == "false"@),
        is_i64_text(s) ==> !type_accepts(Type::Bool, s),
{
    reveal_strlit("true");
    reveal_strlit("false");
    if s == "true"@ || s == "false"@ {
        assert(strip_sign(s) == s);
        assert(!is_digit(s[0]));
    }
}

/// Every text is a string: a leaf declared `string` never gives a type mismatch.
pub proof fn lemma_every_text_is_a_string(s: Seq<char>, path: Seq<char>)
    ensures
        type_accepts(Type::String, s),
        check_node(SchemaTree::Leaf(Type::String), Tree::Leaf(s), path).len() == 0,
{
}

/// A text with a comma is never accepted as a float: a leaf declared `float`
/// holding one gives a type mismatch.
pub proof fn lemma_float_rejects_comma(s: Seq<char>, i: int, path: Seq<char>)
    requires
        0 <= i < s.len(),
        s[i] == ',',
    ensures
        !type_accepts(Type::Float, s),
        check_node(SchemaTree::Leaf(Type::Float), Tree::Leaf(s), path) == seq![
            Violation::TypeMismatch { key: path, expected: Type::Float, actual_value: s },
        ],
{
    lemma_comma_is_no_float(s, i);
}

/// A one-line schema `k = t` declares `k` of the type that `t` names, and fails
/// with `t` as the unknown type name when `t` names none.
pub proof fn lemma_one_line_schema(k: Seq<char>, t: Seq<char>)
    requires
        k.len() > 0,
        !is_space(k[0]),
        !is_space(k.last()),
        k[0] != '#',
        k[0] != ';',
        k[0] != '-',
        forall|i: int| 0 <= i < k.len() ==> k[i] != '=' && k[i] != '.' && k[i] != '\n',
        t.len() > 0 ==> !is_space(t[0]) && !is_space(t.last()),
        forall|i: int| 0 <= i < t.len() ==> t[i] != '\n',
    ensures
        entries_to_schema(spec_parse(k + seq!['='] + t)->Ok_0) == match type_of_name(t) {
            Some(ty) => Ok::<Seq<(Seq<char>, SchemaTree)>, Seq<char>>(
                seq![(k, SchemaTree::Leaf(ty))],
            ),
            None => Err(t),
        },
{
    let e = Seq::<char>::empty();
    assert(k + e =~= k);
    assert(seq!['='] + e =~= seq!['=']);
    lemma_entry_line(k, e, e, t);
    assert(k + e + seq!['='] + e + t =~= k + seq!['='] + t);
    let es = seq![(k, Tree::Leaf(t))];
    assert(spec_parse(k + seq!['='] + t)->Ok_0 == es);
    assert(es.drop_last() =~= Seq::<(Seq<char>, Tree)>::empty());
    assert(es.last() == (k, Tree::Leaf(t)));
    assert(entries_to_schema(es.drop_last()) == Ok::<Seq<(Seq<char>, SchemaTree)>, Seq<char>>(
        Seq::empty(),
    ));
    assert(tree_to_schema(es.last().1) == match type_of_name(t) {
        Some(ty) => Ok::<SchemaTree, Seq<char>>(SchemaTree::Leaf(ty)),
        None => Err(t),
    });
    if let Some(ty) = type_of_name(t) {
        assert(Seq::<(Seq<char>, SchemaTree)>::empty().push((k, SchemaTree::Leaf(ty))) =~= seq![
            (k, SchemaTree::Leaf(ty)),
        ]);
        assert(entries_to_schema(es) == Ok::<Seq<(Seq<char>, SchemaTree)>, Seq<char>>(
            seq![(k, SchemaTree::Leaf(ty))],
        ));
    } else {
        assert(entries_to_schema(es) == Err::<Seq<(Seq<char>, SchemaTree)>, Seq<char>>(t));
    }
}

impl std::str::FromStr for Schema {
    type Err = SchemaParseError;

    fn from_str(s: &str) -> (r: Result<Schema, SchemaParseError>)
        ensures
            match spec_parse(s@) {
                Err(f) => r matches Err(e) && e.view() == SchemaFault::Parse(f),
                Ok(es) => match entries_to_schema(es) {
                    Ok(ns) => r matches Ok(sc) && sc@ == ns,
                    Err(name) => r matches Err(e) && e.view() == SchemaFault::UnknownType(name),
                },
            },
    {
        Schema::from_text(s)
    }
}

} // verus!

