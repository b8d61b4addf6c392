//! Parser for the `sysctl.conf(5)` file format.
//!
//! - `key = value`. The first `=` is the separator; the rest is the value.
//! - Whitespace around the key, the `=` and the value is stripped.
//! - Lines whose first non-whitespace character is `#` or `;` are
//!   comments. Blank lines are ignored.
//! - A leading `-` on a key (sysctl's "ignore-errors" marker) is stripped.
//! - Keys may contain `.`; each `.` introduces a nested namespace, so
//!   `log.file = x` becomes `{"log": {"file": "x"}}`.
//! - The last assignment wins for a given leaf key. Mixing a leaf and a
//!   namespace under the same key produces [`ParseError::KeyConflict`].

use vstd::prelude::*;

use crate::error::{ParseError, ParseFault};
use crate::text::{
    find, find_in, is_space, lemma_find_at, lemma_find_spec, split, to_chars, trim, trim_end,
    trim_range, trim_start,
};
use crate::value::{
    entries_sorted, insert_pos, lemma_children_sorted, lemma_lookup_finds, lemma_lookup_put_other,
    lemma_lookup_put_same, lemma_put_sorted, lookup, put, tree_get, tree_sorted, Tree, Value,
    ValueMap,
};

verus! {

/// What a line of input amounts to.
pub enum LineKind {
    /// Blank, or a comment.
    Blank,
    /// An assignment of `value` to the dotted key made of `segments`.
    Entry { segments: Seq<Seq<char>>, value: Seq<char> },
    /// A line that is neither, with the message that reports it.
    Malformed { message: Seq<char> },
}

/// The trimmed line without the `-` marker, if it has one.
pub open spec fn entry_body(t: Seq<char>) -> Seq<char> {
    if t.len() > 0 && t[0] == '-' {
        t.drop_first()
    } else {
        t
    }
}

/// Whether some segment of `segments` is empty.
pub open spec fn has_empty_segment(segments: Seq<Seq<char>>) -> bool {
    exists|i: int| 0 <= i < segments.len() && #[trigger] segments[i].len() == 0
}

/// How one line is read.
pub open spec fn classify_line(line: Seq<char>) -> LineKind {
    let t = trim(line);
    if t.len() == 0 || t[0] == '#' || t[0] == ';' {
        LineKind::Blank
    } else {
        let body = entry_body(t);
        match find(body, '=') {
            None => LineKind::Malformed { message: "expected '=' separator"@ },
            Some(e) => {
                let key = trim(body.take(e));
                let value = trim(body.skip(e + 1));
                if key.len() == 0 {
                    LineKind::Malformed { message: "empty key"@ }
                } else if has_empty_segment(split(key, '.')) {
                    LineKind::Malformed {
                        message: "invalid key '"@ + key + "': empty segment"@,
                    }
                } else {
                    LineKind::Entry { segments: split(key, '.'), value }
                }
            },
        }
    }
}

/// `es` with the leaf `value` stored under the dotted key `segments`, creating
/// the namespaces on the way; `Err` of the first segment whose existing entry
/// has the wrong shape (a leaf where a namespace is needed, or the reverse).
pub open spec fn insert_path(
    es: Seq<(Seq<char>, Tree)>,
    segments: Seq<Seq<char>>,
    value: Seq<char>,
) -> Result<Seq<(Seq<char>, Tree)>, Seq<char>>
    decreases segments.len(),
{
    if segments.len() == 0 {
        Ok(es)
    } else {
        let head = segments[0];
        if segments.len() == 1 {
            match lookup(es, head) {
                Some(Tree::Branch(_)) => Err(head),
                _ => Ok(put(es, head, Tree::Leaf(value))),
            }
        } else {
            let inner = match lookup(es, head) {
                None => Some(Seq::<(Seq<char>, Tree)>::empty()),
                Some(Tree::Branch(m)) => Some(m),
                Some(Tree::Leaf(_)) => None,
            };
            match inner {
                None => Err(head),
                Some(m) => match insert_path(m, segments.drop_first(), value) {
                    Ok(m2) => Ok(put(es, head, Tree::Branch(m2))),
                    Err(k) => Err(k),
                },
            }
        }
    }
}

/// The effect of line number `line_no` on the entries `es`.
pub open spec fn apply_line(es: Seq<(Seq<char>, Tree)>, line: Seq<char>, line_no: nat) -> Result<
    Seq<(Seq<char>, Tree)>,
    ParseFault,
> {
    match classify_line(line) {
        LineKind::Blank => Ok(es),
        LineKind::Malformed { message } => Err(ParseFault::Syntax { line: line_no, message }),
        LineKind::Entry { segments, value } => match insert_path(es, segments, value) {
            Ok(es2) => Ok(es2),
            Err(key) => Err(ParseFault::KeyConflict { line: line_no, key }),
        },
    }
}

/// The lines applied one after the other to an empty map, the first error stopping it.
pub open spec fn parse_lines(lines: Seq<Seq<char>>) -> Result<Seq<(Seq<char>, Tree)>, ParseFault>
    decreases lines.len(),
{
    if lines.len() == 0 {
        Ok(Seq::empty())
    } else {
        match parse_lines(lines.drop_last()) {
            Ok(es) => apply_line(es, lines.last(), lines.len()),
            Err(f) => Err(f),
        }
    }
}

/// What parsing `input` yields. Its lines are the pieces between `'\n'`s: these
/// are the lines of `str::lines` up to a `'\r'` before the `'\n'`, which trimming
/// removes, and a last empty line, which is blank.
pub open spec fn spec_parse(input: Seq<char>) -> Result<Seq<(Seq<char>, Tree)>, ParseFault> {
    parse_lines(split(input, '\n'))
}

/// The models of a sequence of strings.
pub open spec fn strings_view(v: Seq<String>) -> Seq<Seq<char>> {
    v.map_values(|s: String| s@)
}

proof fn lemma_split_step(s: Seq<char>, c: char, i: int)
    requires
        0 <= i <= s.len(),
        forall|j: int| 0 <= j < i ==> s[j] != c,
        i == s.len() || s[i] == c,
    ensures
        split(s, c) == (if i == s.len() {
            seq![s]
        } else {
            seq![s.take(i)].add(split(s.skip(i + 1), c))
        }),
{
    lemma_find_at(s, c, i);
}

proof fn lemma_parse_lines_err(a: Seq<Seq<char>>, b: Seq<Seq<char>>)
    requires
        parse_lines(a) is Err,
    ensures
        parse_lines(a + b) == parse_lines(a),
    decreases b.len(),
{
    if b.len() == 0 {
        assert(a + b =~= a);
    } else {
        lemma_parse_lines_err(a, b.drop_last());
        assert((a + b).drop_last() =~= a + b.drop_last());
    }
}

/// Splits `cs[lo..hi]` at its dots into owned segments, and tells whether one is empty.
fn split_key(input: &str, cs: &Vec<char>, lo: usize, hi: usize) -> (r: (Vec<String>, bool))
    requires
        lo <= hi <= cs@.len(),
        cs@ == input@,
    ensures
        strings_view(r.0@) == split(cs@.subrange(lo as int, hi as int), '.'),
        r.1 == has_empty_segment(split(cs@.subrange(lo as int, hi as int), '.')),
{
    let mut segs: Vec<String> = Vec::new();
    let mut s = lo;
    let mut has_empty = false;
    let ghost whole = cs@.subrange(lo as int, hi as int);
    assert(strings_view(segs@) =~= Seq::<Seq<char>>::empty());
    loop
        invariant
            lo <= s <= hi <= cs@.len(),
            cs@ == input@,
            whole == cs@.subrange(lo as int, hi as int),
            split(whole, '.') == strings_view(segs@) + split(cs@.subrange(s as int, hi as int), '.'),
            has_empty == has_empty_segment(strings_view(segs@)),
        decreases hi - s,
    {
        let ghost rest = cs@.subrange(s as int, hi as int);
        let ghost before = strings_view(segs@);
        match find_in(cs, s, hi, '.') {
            None => {
                proof {
                    lemma_find_spec(rest, '.');
                    lemma_split_step(rest, '.', rest.len() as int);
                }
                let piece = String::from_str(input.substring_char(s, hi));
                let empty_piece = s == hi;
                segs.push(piece);
                proof {
                    assert(strings_view(segs@) =~= before.push(rest));
                    assert(split(whole, '.') =~= strings_view(segs@));
                    if empty_piece {
                        assert(strings_view(segs@)[before.len() as int].len() == 0);
                    } else if has_empty_segment(strings_view(segs@)) {
                        let i = choose|i: int|
                            0 <= i < strings_view(segs@).len() && #[trigger] strings_view(
                                segs@,
                            )[i].len() == 0;
                        if i < before.len() {
                            assert(before[i] == strings_view(segs@)[i]);
                        }
                    }
                    if has_empty {
                        let i = choose|i: int|
                            0 <= i < before.len() && #[trigger] before[i].len() == 0;
                        assert(strings_view(segs@)[i] == before[i]);
                    }
                }
                return (segs, has_empty || empty_piece);
            },
            Some(d) => {
                proof {
                    lemma_find_spec(rest, '.');
                    lemma_split_step(rest, '.', d - s);
                    assert(rest.take(d - s) =~= cs@.subrange(s as int, d as int));
                    assert(rest.skip(d - s + 1) =~= cs@.subrange(d + 1, hi as int));
                }
                let piece = String::from_str(input.substring_char(s, d));
                let empty_piece = s == d;
                segs.push(piece);
                proof {
                    assert(strings_view(segs@) =~= before.push(cs@.subrange(s as int, d as int)));
                    assert(seq![cs@.subrange(s as int, d as int)].add(
                        split(cs@.subrange(d + 1, hi as int), '.'),
                    ) =~= seq![cs@.subrange(s as int, d as int)] + split(
                        cs@.subrange(d + 1, hi as int),
                        '.',
                    ));
                    assert(before + (seq![cs@.subrange(s as int, d as int)] + split(
                        cs@.subrange(d + 1, hi as int),
                        '.',
                    )) =~= strings_view(segs@) + split(cs@.subrange(d + 1, hi as int), '.'));
                    if empty_piece {
                        assert(strings_view(segs@)[before.len() as int].len() == 0);
                    } else if has_empty_segment(strings_view(segs@)) {
                        let i = choose|i: int|
                            0 <= i < strings_view(segs@).len() && #[trigger] strings_view(
                                segs@,
                            )[i].len() == 0;
                        if i < before.len() {
                            assert(before[i] == strings_view(segs@)[i]);
                        }
                    }
                    if has_empty {
                        let i = choose|i: int|
                            0 <= i < before.len() && #[trigger] before[i].len() == 0;
                        assert(strings_view(segs@)[i] == before[i]);
                    }
                }
                has_empty = has_empty || empty_piece;
                s = d + 1;
            },
        }
    }
}

/// Stores `value` under the dotted key `segs[from..]` in `map`.
fn insert_nested(
    map: &mut ValueMap,
    segs: &Vec<String>,
    from: usize,
    value: &String,
    line_no: usize,
) -> (res: Result<(), ParseError>)
    requires
        from < segs@.len(),
    ensures
        match insert_path(old(map)@, strings_view(segs@).skip(from as int), value@) {
            Ok(es) => res is Ok && final(map)@ == es,
            Err(k) => res matches Err(e) && e.view() == (ParseFault::KeyConflict {
                line: line_no as nat,
                key: k,
            }),
        },
        res is Err ==> final(map)@ == old(map)@,
    decreases segs@.len() - from,
{
    let ghost path = strings_view(segs@).skip(from as int);
    let head = &segs[from];
    let k = to_chars(head.as_str());
    let (p, found) = map.position(&k);
    proof {
        assert(path[0] == head@);
        assert(path.drop_first() =~= strings_view(segs@).skip(from + 1));
    }
    if from == segs.len() - 1 {
        if found {
            let (_, v) = map.entry(p);
            if v.is_map() {
                return Err(ParseError::KeyConflict { line: line_no, key: head.clone() });
            }
        }
        map.insert(head.clone(), Value::String(value.clone()));
        Ok(())
    } else {
        if found {
            let (_, v) = map.entry(p);
            if v.is_string() {
                return Err(ParseError::KeyConflict { line: line_no, key: head.clone() });
            }
            let child = map.take_value(p);
            match child {
                Value::Namespace(mut inner) => {
                    let r = insert_nested(&mut inner, segs, from + 1, value, line_no);
                    map.set_value(p, Value::Namespace(inner));
                    r
                },
                Value::String(_) => {
                    proof {
                        assert(false);
                    }
                    Ok(())
                },
            }
        } else {
            let mut inner = ValueMap::new();
            let r = insert_nested(&mut inner, segs, from + 1, value, line_no);
            match r {
                Ok(()) => {
                    map.insert(head.clone(), Value::Namespace(inner));
                    Ok(())
                },
                Err(e) => Err(e),
            }
        }
    }
}

/// Applies line `count + 1`, `cs[lo..hi]`, to `root`.
fn process_line(
    root: &mut ValueMap,
    input: &str,
    cs: &Vec<char>,
    lo: usize,
    hi: usize,
    count: usize,
) -> (res: Result<(), ParseError>)
    requires
        count <= lo <= hi <= cs@.len(),
        cs@ == input@,
    ensures
        match apply_line(old(root)@, cs@.subrange(lo as int, hi as int), count as nat + 1) {
            Ok(es) => res is Ok && final(root)@ == es,
            Err(f) => res matches Err(e) && e.view() == f,
        },
{
    let (a, b) = trim_range(cs, lo, hi);
    let ghost t = cs@.subrange(a as int, b as int);
    if a == b || cs[a] == '#' || cs[a] == ';' {
        return Ok(());
    }
    let body_lo = if cs[a] == '-' {
        a + 1
    } else {
        a
    };
    let ghost body = cs@.subrange(body_lo as int, b as int);
    assert(body =~= entry_body(t));
    let line_no = count + 1;
    match find_in(cs, body_lo, b, '=') {
        None => {
            Err(
                ParseError::Syntax {
                    line: line_no,
                    message: String::from_str("expected '=' separator"),
                },
            )
        },
        Some(e) => {
            proof {
                assert(body.take(e - body_lo) =~= cs@.subrange(body_lo as int, e as int));
                assert(body.skip(e - body_lo + 1) =~= cs@.subrange(e + 1, b as int));
            }
            let (k0, k1) = trim_range(cs, body_lo, e);
            let (v0, v1) = trim_range(cs, e + 1, b);
            if k0 == k1 {
                return Err(
                    ParseError::Syntax { line: line_no, message: String::from_str("empty key") },
                );
            }
            let (segs, has_empty) = split_key(input, cs, k0, k1);
            if has_empty {
                let mut message = String::from_str("invalid key '");
                message.append(input.substring_char(k0, k1));
                message.append("': empty segment");
                return Err(ParseError::Syntax { line: line_no, message });
            }
            let value = String::from_str(input.substring_char(v0, v1));
            proof {
                crate::text::lemma_split_nonempty(cs@.subrange(k0 as int, k1 as int), '.');
                assert(strings_view(segs@).skip(0) =~= strings_view(segs@));
            }
            insert_nested(root, &segs, 0, &value, line_no)
        },
    }
}

/// Parse a sysctl.conf-style string into nested namespaces.
pub fn parse_str(input: &str) -> (res: Result<ValueMap, ParseError>)
    ensures
        match spec_parse(input@) {
            Ok(es) => res matches Ok(m) && m@ == es,
            Err(f) => res matches Err(e) && e.view() == f,
        },
{
    let cs = to_chars(input);
    let n = cs.len();
    let mut root = ValueMap::new();
    let mut start: usize = 0;
    let mut count: usize = 0;
    let ghost mut done: Seq<Seq<char>> = Seq::empty();
    assert(cs@.skip(0) =~= cs@);
    assert(done + split(cs@, '\n') =~= split(cs@, '\n'));
    loop
        invariant
            n == cs@.len(),
            cs@ == input@,
            start <= n,
            count == done.len(),
            count <= start,
            split(cs@, '\n') == done + split(cs@.skip(start as int), '\n'),
            parse_lines(done) == Ok::<Seq<(Seq<char>, Tree)>, ParseFault>(root@),
        decreases n - start,
    {
        let ghost rest = cs@.skip(start as int);
        let end = match find_in(&cs, start, n, '\n') {
            Some(e) => e,
            None => n,
        };
        let ghost line = cs@.subrange(start as int, end as int);
        proof {
            assert(rest =~= cs@.subrange(start as int, n as int));
            lemma_find_spec(rest, '\n');
            lemma_split_step(rest, '\n', end - start);
            assert(rest.take(end - start) =~= line);
            if end < n {
                assert(rest.skip(end - start + 1) =~= cs@.skip(end + 1));
            } else {
                assert(rest =~= line);
            }
        }
        let r = process_line(&mut root, input, &cs, start, end, count);
        let ghost next = done.push(line);
        proof {
            assert(next.drop_last() =~= done);
        }
        match r {
            Ok(()) => {},
            Err(e) => {
                proof {
                    let tail = if end < n {
                        split(cs@.skip(end + 1), '\n')
                    } else {
                        Seq::empty()
                    };
                    assert(split(cs@, '\n') =~= next + tail);
                    lemma_parse_lines_err(next, tail);
                }
                return Err(e);
            },
        }
        proof {
            done = next;
        }
        if end == n {
            proof {
                assert(split(cs@, '\n') =~= done);
            }
            return Ok(root);
        }
        proof {
            assert(seq![line].add(split(cs@.skip(end + 1), '\n')) =~= seq![line] + split(
                cs@.skip(end + 1),
                '\n',
            ));
            assert(split(cs@, '\n') =~= done + split(cs@.skip(end + 1), '\n'));
        }
        start = end + 1;
        count = count + 1;
    }
}

/// Whether storing under `segments` meets an entry of the wrong shape: a
/// proper prefix of the key that holds a leaf, or the whole key holding a namespace.
pub open spec fn has_conflict(es: Seq<(Seq<char>, Tree)>, segments: Seq<Seq<char>>) -> bool {
    ||| exists|j: int|
        1 <= j < segments.len() && #[trigger] tree_get(es, segments.take(j)) matches Some(
            Tree::Leaf(_),
        )
    ||| tree_get(es, segments) matches Some(Tree::Branch(_))
}

proof fn lemma_split_append(a: Seq<char>, line: Seq<char>, c: char)
    requires
        forall|i: int| 0 <= i < line.len() ==> line[i] != c,
    ensures
        split(a + seq![c] + line, c) == split(a, c).push(line),
    decreases a.len(),
{
    let whole = a + seq![c] + line;
    lemma_find_spec(a, c);
    lemma_find_at(line, c, line.len() as int);
    match find(a, c) {
        None => {
            assert forall|j: int| 0 <= j < a.len() implies whole[j] != c by {
                assert(whole[j] == a[j]);
            }
            lemma_find_at(whole, c, a.len() as int);
            assert(whole.take(a.len() as int) =~= a);
            assert(whole.skip(a.len() as int + 1) =~= line);
            assert(split(line, c) == seq![line]);
            assert(split(a, c) == seq![a]);
            assert(split(whole, c) == seq![a].add(split(line, c)));
            assert(split(whole, c) =~= split(a, c).push(line));
        },
        Some(i) => {
            assert forall|j: int| 0 <= j < i implies whole[j] != c by {
                assert(whole[j] == a[j]);
            }
            assert(whole[i] == a[i]);
            lemma_find_at(whole, c, i);
            lemma_split_append(a.skip(i + 1), line, c);
            assert(whole.skip(i + 1) =~= a.skip(i + 1) + seq![c] + line);
            assert(whole.take(i) =~= a.take(i));
            assert(split(whole, c) =~= split(a, c).push(line));
        },
    }
}

/// The input is read line by line: adding a last line applies that line, as
/// line number one past the lines before it, to what the lines before it gave.
pub proof fn lemma_parse_appends_line(prefix: Seq<char>, line: Seq<char>)
    requires
        forall|i: int| 0 <= i < line.len() ==> line[i] != '\n',
    ensures
        spec_parse(prefix + seq!['\n'] + line) == match spec_parse(prefix) {
            Ok(es) => apply_line(es, line, split(prefix, '\n').len() + 1),
            Err(f) => Err(f),
        },
{
    lemma_split_append(prefix, line, '\n');
    let lines = split(prefix, '\n').push(line);
    assert(lines.drop_last() =~= split(prefix, '\n'));
}

/// A comment or blank line changes nothing.
pub proof fn lemma_blank_line_changes_nothing(prefix: Seq<char>, line: Seq<char>)
    requires
        forall|i: int| 0 <= i < line.len() ==> line[i] != '\n',
        classify_line(line) is Blank,
    ensures
        spec_parse(prefix + seq!['\n'] + line) == spec_parse(prefix),
{
    lemma_parse_appends_line(prefix, line);
}

proof fn lemma_tree_get_empty(path: Seq<Seq<char>>)
    ensures
        tree_get(Seq::<(Seq<char>, Tree)>::empty(), path) == None::<Tree>,
{
}

/// The dotted key just stored reads back as the stored value.
pub proof fn lemma_insert_path_reads_back(
    es: Seq<(Seq<char>, Tree)>,
    segments: Seq<Seq<char>>,
    value: Seq<char>,
)
    requires
        segments.len() >= 1,
        insert_path(es, segments, value) is Ok,
    ensures
        tree_get(insert_path(es, segments, value)->Ok_0, segments) == Some(Tree::Leaf(value)),
    decreases segments.len(),
{
    let h = segments[0];
    if segments.len() == 1 {
        lemma_lookup_put_same(es, h, Tree::Leaf(value));
    } else {
        let m = match lookup(es, h) {
            Some(Tree::Branch(m)) => m,
            _ => Seq::empty(),
        };
        let rest = segments.drop_first();
        lemma_insert_path_reads_back(m, rest, value);
        let m2 = insert_path(m, rest, value)->Ok_0;
        lemma_lookup_put_same(es, h, Tree::Branch(m2));
    }
}

pub(crate) proof fn lemma_lookup_child_sorted(es: Seq<(Seq<char>, Tree)>, k: Seq<char>)
    requires
        entries_sorted(es),
    ensures
        lookup(es, k) matches Some(t) ==> tree_sorted(t),
{
    let p = insert_pos(es, k) as int;
    lemma_children_sorted(es);
    if p < es.len() && es[p].0 == k {
        assert(tree_sorted(es[p].1));
    }
}

proof fn lemma_put_entries_sorted(es: Seq<(Seq<char>, Tree)>, k: Seq<char>, t: Tree)
    requires
        entries_sorted(es),
        tree_sorted(t),
    ensures
        entries_sorted(put(es, k, t)),
{
    lemma_put_sorted(es, k, t);
    lemma_children_sorted(es);
    lemma_children_sorted(put(es, k, t));
    crate::value::lemma_insert_pos_bounds(es, k);
    let p = insert_pos(es, k) as int;
    let r = put(es, k, t);
    assert forall|i: int| 0 <= i < r.len() implies #[trigger] tree_sorted(r[i].1) by {
        if p < es.len() && es[p].0 == k {
            if i != p {
                assert(r[i] == es[i]);
            } else {
                assert(r[i] == (k, t));
            }
        } else {
            if i < p {
                assert(r[i] == es[i]);
            } else if i > p {
                assert(r[i] == es[i - 1]);
            } else {
                assert(r[i] == (k, t));
            }
        }
    }
}

/// Storing a dotted key keeps the keys of every namespace in order.
pub proof fn lemma_insert_path_sorted(
    es: Seq<(Seq<char>, Tree)>,
    segments: Seq<Seq<char>>,
    value: Seq<char>,
)
    requires
        entries_sorted(es),
        insert_path(es, segments, value) is Ok,
    ensures
        entries_sorted(insert_path(es, segments, value)->Ok_0),
    decreases segments.len(),
{
    if segments.len() == 1 {
        lemma_put_entries_sorted(es, segments[0], Tree::Leaf(value));
    } else if segments.len() > 1 {
        let h = segments[0];
        lemma_lookup_child_sorted(es, h);
        let m = match lookup(es, h) {
            Some(Tree::Branch(m)) => m,
            _ => Seq::empty(),
        };
        assert(entries_sorted(m));
        let rest = segments.drop_first();
        lemma_insert_path_sorted(m, rest, value);
        let m2 = insert_path(m, rest, value)->Ok_0;
        lemma_put_entries_sorted(es, h, Tree::Branch(m2));
    }
}

proof fn lemma_parse_lines_sorted(lines: Seq<Seq<char>>)
    ensures
        parse_lines(lines) matches Ok(es) ==> entries_sorted(es),
    decreases lines.len(),
{
    if lines.len() > 0 {
        lemma_parse_lines_sorted(lines.drop_last());
        if let Ok(es) = parse_lines(lines.drop_last()) {
            if let LineKind::Entry { segments, value } = classify_line(lines.last()) {
                if insert_path(es, segments, value) is Ok {
                    lemma_insert_path_sorted(es, segments, value);
                }
            }
        }
    }
}

/// Whatever parses, parses into namespaces whose keys are in dictionary
/// order, each key once, at every depth.
pub proof fn lemma_parse_sorted(input: Seq<char>)
    ensures
        spec_parse(input) matches Ok(es) ==> entries_sorted(es),
{
    lemma_parse_lines_sorted(split(input, '\n'));
}

/// Storing a dotted key leaves every key that leaves its path, at some segment,
/// reading as before.
pub proof fn lemma_insert_path_frame(
    es: Seq<(Seq<char>, Tree)>,
    segments: Seq<Seq<char>>,
    value: Seq<char>,
    path: Seq<Seq<char>>,
    i: int,
)
    requires
        entries_sorted(es),
        insert_path(es, segments, value) is Ok,
        0 <= i < path.len(),
        i < segments.len(),
        path[i] != segments[i],
    ensures
        tree_get(insert_path(es, segments, value)->Ok_0, path) == tree_get(es, path),
    decreases segments.len(),
{
    let h = segments[0];
    let es2 = insert_path(es, segments, value)->Ok_0;
    if path[0] != h {
        if segments.len() == 1 {
            lemma_lookup_put_other(es, h, Tree::Leaf(value), path[0]);
        } else {
            let m = match lookup(es, h) {
                Some(Tree::Branch(m)) => m,
                _ => Seq::empty(),
            };
            let m2 = insert_path(m, segments.drop_first(), value)->Ok_0;
            lemma_lookup_put_other(es, h, Tree::Branch(m2), path[0]);
        }
    } else {
        assert(i >= 1);
        lemma_lookup_child_sorted(es, h);
        let m = match lookup(es, h) {
            Some(Tree::Branch(m)) => m,
            _ => Seq::empty(),
        };
        let rest = segments.drop_first();
        let m2 = insert_path(m, rest, value)->Ok_0;
        lemma_lookup_put_same(es, h, Tree::Branch(m2));
        assert(path.drop_first()[i - 1] == path[i]);
        assert(rest[i - 1] == segments[i]);
        lemma_insert_path_frame(m, rest, value, path.drop_first(), i - 1);
        if lookup(es, h) is None {
            lemma_tree_get_empty(path.drop_first());
        }
    }
}

proof fn lemma_insert_path_into_empty(segments: Seq<Seq<char>>, value: Seq<char>)
    ensures
        insert_path(Seq::empty(), segments, value) is Ok,
    decreases segments.len(),
{
    if segments.len() > 1 {
        lemma_insert_path_into_empty(segments.drop_first(), value);
    }
}

/// Whether `k` names the place where storing under `segments` meets an entry of
/// the wrong shape: the last segment of a proper prefix that holds a leaf, or the
/// last segment of the key itself when the key holds a namespace.
pub open spec fn names_conflict(
    es: Seq<(Seq<char>, Tree)>,
    segments: Seq<Seq<char>>,
    k: Seq<char>,
) -> bool {
    ||| exists|j: int|
        1 <= j < segments.len() && #[trigger] leaf_at(es, segments.take(j)) is Some && k
            == segments[j - 1]
    ||| (tree_get(es, segments) matches Some(Tree::Branch(_))) && k == segments.last()
}

/// Storing a dotted key fails exactly when it meets an entry of the wrong shape,
/// and then names the last segment of the shorter of the two clashing keys.
pub proof fn lemma_insert_path_conflict(
    es: Seq<(Seq<char>, Tree)>,
    segments: Seq<Seq<char>>,
    value: Seq<char>,
)
    requires
        segments.len() >= 1,
    ensures
        insert_path(es, segments, value) is Err <==> has_conflict(es, segments),
        insert_path(es, segments, value) matches Err(k) ==> names_conflict(es, segments, k),
    decreases segments.len(),
{
    let h = segments[0];
    if segments.len() == 1 {
        assert(segments[0] == h);
        if let Err(k) = insert_path(es, segments, value) {
            assert(segments.last() == h);
            assert(tree_get(es, segments) == lookup(es, h));
            assert(names_conflict(es, segments, k));
        }
    } else {
        let rest = segments.drop_first();
        assert forall|j: int| 1 <= j < segments.len() implies #[trigger] segments.take(j)[0] == h
            && segments.take(j).drop_first() =~= rest.take(j - 1) by {}
        match lookup(es, h) {
            None => {
                lemma_insert_path_into_empty(rest, value);
                assert forall|j: int| 1 <= j < segments.len() implies !(#[trigger] tree_get(
                    es,
                    segments.take(j),
                ) matches Some(Tree::Leaf(_))) by {}
            },
            Some(Tree::Leaf(_)) => {
                assert(segments.take(1).len() == 1);
                assert(tree_get(es, segments.take(1)) matches Some(Tree::Leaf(_)));
                assert(leaf_at(es, segments.take(1)) is Some);
                assert(segments[0] == h);
                assert(names_conflict(es, segments, h));
            },
            Some(Tree::Branch(m)) => {
                lemma_insert_path_conflict(m, rest, value);
                if has_conflict(m, rest) {
                    if exists|j: int|
                        1 <= j < rest.len() && #[trigger] tree_get(m, rest.take(j)) matches Some(
                            Tree::Leaf(_),
                        ) {
                        let j = choose|j: int|
                            1 <= j < rest.len() && #[trigger] tree_get(m, rest.take(j)) matches Some(
                                Tree::Leaf(_),
                            );
                        assert(tree_get(es, segments.take(j + 1)) == tree_get(m, rest.take(j)));
                    }
                }
                if has_conflict(es, segments) {
                    if exists|j: int|
                        1 <= j < segments.len() && #[trigger] tree_get(
                            es,
                            segments.take(j),
                        ) matches Some(Tree::Leaf(_)) {
                        let j = choose|j: int|
                            1 <= j < segments.len() && #[trigger] tree_get(
                                es,
                                segments.take(j),
                            ) matches Some(Tree::Leaf(_));
                        assert(j != 1);
                        assert(tree_get(es, segments.take(j)) == tree_get(m, rest.take(j - 1)));
                    }
                }
                if let Err(k) = insert_path(m, rest, value) {
                    if exists|j: int|
                        1 <= j < rest.len() && #[trigger] leaf_at(m, rest.take(j)) is Some && k
                            == rest[j - 1] {
                        let j = choose|j: int|
                            1 <= j < rest.len() && #[trigger] leaf_at(m, rest.take(j)) is Some
                                && k == rest[j - 1];
                        assert(tree_get(es, segments.take(j + 1)) == tree_get(m, rest.take(j)));
                        assert(segments[j] == rest[j - 1]);
                        assert(leaf_at(es, segments.take(j + 1)) is Some);
                    } else {
                        assert(tree_get(es, segments) == tree_get(m, rest));
                        assert(segments.last() == rest.last());
                    }
                    assert(names_conflict(es, segments, k));
                }
            },
        }
    }
}

/// Whatever was stored by the last line reads back, under its dotted key,
/// as the value that line gave it: the last assignment wins.
pub proof fn lemma_last_assignment_wins(prefix: Seq<char>, line: Seq<char>)
    requires
        forall|i: int| 0 <= i < line.len() ==> line[i] != '\n',
        classify_line(line) is Entry,
        spec_parse(prefix + seq!['\n'] + line) is Ok,
    ensures
        match classify_line(line) {
            LineKind::Entry { segments, value } => tree_get(
                spec_parse(prefix + seq!['\n'] + line)->Ok_0,
                segments,
            ) == Some(Tree::Leaf(value)),
            _ => true,
        },
{
    lemma_parse_appends_line(prefix, line);
    if let LineKind::Entry { segments, value } = classify_line(line) {
        let t = trim(line);
        let body = entry_body(t);
        let e = find(body, '=')->Some_0;
        crate::text::lemma_split_nonempty(trim(body.take(e)), '.');
        let es = spec_parse(prefix)->Ok_0;
        lemma_insert_path_reads_back(es, segments, value);
    }
}

/// A line written with sysctl's `-` marker reads as the same line without it,
/// unless what follows the marker is blank or itself starts with `#`, `;` or `-`.
pub proof fn lemma_dash_marker_is_ignored(line: Seq<char>)
    requires
        trim(line).len() > 0,
        trim(line)[0] != '#',
        trim(line)[0] != ';',
        trim(line)[0] != '-',
    ensures
        classify_line(seq!['-'] + line) == classify_line(line),
{
    let k = lemma_trim_start_split(line);
    let w = line.take(k);
    let r = line.skip(k);
    assert(line =~= w + r);
    assert(trim_start(line) == r);
    if r.len() == 0 {
        assert(trim(line).len() == 0);
    }
    lemma_trim_end_after(w, r);
    let x = trim_end(r);
    assert(trim(line) == x);
    let d = seq!['-'] + line;
    let dw = seq!['-'] + w;
    assert(d =~= dw + r);
    assert(d[0] == '-');
    assert(trim_start(d) == d);
    lemma_trim_end_after(dw, r);
    assert(trim(d) =~= dw + x);
    let body1 = entry_body(trim(d));
    assert(body1 =~= w + x);
    assert(entry_body(trim(line)) == x);
    lemma_find_after(w, x, '=');
    match find(x, '=') {
        None => {},
        Some(e) => {
            lemma_find_spec(x, '=');
            assert(body1.take(w.len() + e) =~= w + x.take(e));
            assert(body1.skip(w.len() + e + 1) =~= x.skip(e + 1));
            lemma_trim_start_after(w, x.take(e));
        },
    }
}

/// The whitespace that `trim_start` removes, as a count.
proof fn lemma_trim_start_split(s: Seq<char>) -> (k: int)
    ensures
        0 <= k <= s.len(),
        trim_start(s) == s.skip(k),
        forall|i: int| 0 <= i < k ==> is_space(#[trigger] s[i]),
        k < s.len() ==> !is_space(s[k]),
    decreases s.len(),
{
    if s.len() > 0 && is_space(s[0]) {
        let k1 = lemma_trim_start_split(s.drop_first());
        assert(s.drop_first().skip(k1) =~= s.skip(k1 + 1));
        assert forall|i: int| 0 <= i < k1 + 1 implies is_space(#[trigger] s[i]) by {
            if i > 0 {
                assert(s[i] == s.drop_first()[i - 1]);
            }
        }
        if k1 + 1 < s.len() {
            assert(s[k1 + 1] == s.drop_first()[k1]);
        }
        k1 + 1
    } else {
        assert(s.skip(0) =~= s);
        0
    }
}

/// Whitespace in front does not change `trim_start`.
proof fn lemma_trim_start_after(w: Seq<char>, y: Seq<char>)
    requires
        forall|i: int| 0 <= i < w.len() ==> is_space(#[trigger] w[i]),
    ensures
        trim_start(w + y) == trim_start(y),
    decreases w.len(),
{
    if w.len() > 0 {
        assert((w + y).drop_first() =~= w.drop_first() + y);
        assert forall|i: int| 0 <= i < w.drop_first().len() implies is_space(
            #[trigger] w.drop_first()[i],
        ) by {
            assert(w.drop_first()[i] == w[i + 1]);
        }
        lemma_trim_start_after(w.drop_first(), y);
    } else {
        assert(w + y =~= y);
    }
}

/// `trim_end` stops at a character that is not whitespace.
proof fn lemma_trim_end_after(w: Seq<char>, r: Seq<char>)
    requires
        r.len() > 0,
        !is_space(r[0]),
    ensures
        trim_end(w + r) == w + trim_end(r),
        trim_end(r).len() > 0,
        trim_end(r)[0] == r[0],
    decreases r.len(),
{
    if is_space(r.last()) {
        assert((w + r).last() == r.last());
        assert((w + r).drop_last() =~= w + r.drop_last());
        lemma_trim_end_after(w, r.drop_last());
    }
}

/// A `c` first found after a prefix without `c` is found past that prefix.
proof fn lemma_find_after(w: Seq<char>, x: Seq<char>, c: char)
    requires
        forall|i: int| 0 <= i < w.len() ==> w[i] != c,
    ensures
        find(w + x, c) == match find(x, c) {
            Some(i) => Some(i + w.len()),
            None => None::<int>,
        },
    decreases w.len(),
{
    if w.len() > 0 {
        assert((w + x).drop_first() =~= w.drop_first() + x);
        assert((w + x)[0] == w[0]);
        assert forall|i: int| 0 <= i < w.drop_first().len() implies w.drop_first()[i] != c by {
            assert(w.drop_first()[i] == w[i + 1]);
        }
        lemma_find_after(w.drop_first(), x, c);
    } else {
        assert(w + x =~= x);
    }
}

proof fn lemma_parse_lines_first_failure(lines: Seq<Seq<char>>)
    ensures
        parse_lines(lines) matches Err(f) ==> exists|n: int|
            1 <= n <= lines.len() && #[trigger] parse_lines(lines.take(n - 1)) is Ok && apply_line(
                parse_lines(lines.take(n - 1))->Ok_0,
                lines[n - 1],
                n as nat,
            ) == Err::<Seq<(Seq<char>, Tree)>, ParseFault>(f),
    decreases lines.len(),
{
    if lines.len() > 0 {
        lemma_parse_lines_first_failure(lines.drop_last());
        if let Err(f) = parse_lines(lines) {
            match parse_lines(lines.drop_last()) {
                Ok(es) => {
                    let n = lines.len() as int;
                    assert(lines.take(n - 1) =~= lines.drop_last());
                },
                Err(_) => {
                    let n = choose|n: int|
                        1 <= n <= lines.drop_last().len() && #[trigger] parse_lines(
                            lines.drop_last().take(n - 1),
                        ) is Ok && apply_line(
                            parse_lines(lines.drop_last().take(n - 1))->Ok_0,
                            lines.drop_last()[n - 1],
                            n as nat,
                        ) == Err::<Seq<(Seq<char>, Tree)>, ParseFault>(f);
                    assert(lines.drop_last().take(n - 1) =~= lines.take(n - 1));
                    assert(lines.drop_last()[n - 1] == lines[n - 1]);
                },
            }
        }
    }
}

/// A failed parse is never an I/O error. It names the first line that fails:
/// the lines before it parse (none of them is malformed and no two of their keys
/// clash), and that line, applied to what they give, fails with its own number:
/// as a syntax error where it is malformed, or as a key conflict where its key
/// clashes with one an earlier line assigned, naming the last segment of the
/// shorter of the two keys.
pub proof fn lemma_parse_error_is_first_failing_line(input: Seq<char>)
    ensures
        spec_parse(input) matches Err(f) ==> {
            let lines = split(input, '\n');
            &&& !(f is Io)
            &&& exists|n: int|
                1 <= n <= lines.len() && #[trigger] parse_lines(lines.take(n - 1)) is Ok
                    && lines_consistent(lines.take(n - 1)) && apply_line(
                    parse_lines(lines.take(n - 1))->Ok_0,
                    lines[n - 1],
                    n as nat,
                ) == Err::<Seq<(Seq<char>, Tree)>, ParseFault>(f) && match f {
                    ParseFault::Syntax { line, .. } => line == n && classify_line(
                        lines[n - 1],
                    ) is Malformed,
                    ParseFault::KeyConflict { line, key } => line == n && classify_line(
                        lines[n - 1],
                    ) is Entry && exists|i: int|
                        0 <= i < n - 1 && #[trigger] assigned_key(lines[i]) is Some
                            && clash_named(
                            assigned_key(lines[i])->Some_0,
                            assigned_key(lines[n - 1])->Some_0,
                            key,
                        ),
                    ParseFault::Io => false,
                }
        },
{
    let lines = split(input, '\n');
    lemma_split_pieces(input, '\n');
    lemma_parse_lines_first_failure(lines);
    if let Err(f) = spec_parse(input) {
        let n = choose|n: int|
            1 <= n <= lines.len() && #[trigger] parse_lines(lines.take(n - 1)) is Ok && apply_line(
                parse_lines(lines.take(n - 1))->Ok_0,
                lines[n - 1],
                n as nat,
            ) == Err::<Seq<(Seq<char>, Tree)>, ParseFault>(f);
        let before = lines.take(n - 1);
        assert forall|i: int, j: int|
            0 <= i < before.len() && 0 <= j < before[i].len() implies #[trigger] before[i][j]
            != '\n' by {
            assert(before[i] == lines[i]);
        }
        lemma_parse_lines_ok_iff(before);
        let es = parse_lines(before)->Ok_0;
        if let LineKind::Entry { segments, value } = classify_line(lines[n - 1]) {
            if let Err(key) = insert_path(es, segments, value) {
                let line = lines[n - 1];
                assert forall|j: int| 0 <= j < line.len() implies line[j] != '\n' by {
                    assert(lines[n - 1][j] != '\n');
                }
                lemma_entry_ok(line);
                lemma_insert_path_conflict(es, segments, value);
                lemma_named_conflict_clash(before, segments, key);
                let i = choose|i: int|
                    0 <= i < before.len() && #[trigger] assigned_key(before[i]) is Some
                        && clash_named(assigned_key(before[i])->Some_0, segments, key);
                assert(before[i] == lines[i]);
                assert(assigned_key(lines[i]) is Some);
            }
        }
    }
}

/// A leaf value as the parser makes it: trimmed, and without a line break.
pub open spec fn leaf_text_ok(v: Seq<char>) -> bool {
    &&& v.len() > 0 ==> !is_space(v[0]) && !is_space(v.last())
    &&& forall|i: int| 0 <= i < v.len() ==> v[i] != '\n'
}

/// A key as the parser makes it: non-empty, and without a dot.
pub open spec fn key_ok(k: Seq<char>) -> bool {
    k.len() > 0 && forall|i: int| 0 <= i < k.len() ==> k[i] != '.'
}

/// Every key of `t` is non-empty and dot-free, every namespace non-empty and
/// every leaf trimmed and without a line break.
pub open spec fn tree_wf(t: Tree) -> bool
    decreases t,
{
    match t {
        Tree::Leaf(v) => leaf_text_ok(v),
        Tree::Branch(es) => es.len() > 0 && entries_wf(es),
    }
}

/// `tree_wf` of every entry of `es`, and every key of `es` non-empty and dot-free.
pub open spec fn entries_wf(es: Seq<(Seq<char>, Tree)>) -> bool
    decreases es,
{
    es.len() == 0 || (entries_wf(es.drop_last()) && key_ok(es.last().0) && tree_wf(es.last().1))
}

pub(crate) proof fn lemma_entries_wf(es: Seq<(Seq<char>, Tree)>)
    ensures
        entries_wf(es) <==> forall|i: int|
            0 <= i < es.len() ==> key_ok(#[trigger] es[i].0) && tree_wf(es[i].1),
    decreases es.len(),
{
    if es.len() > 0 {
        lemma_entries_wf(es.drop_last());
        if forall|i: int| 0 <= i < es.len() ==> key_ok(#[trigger] es[i].0) && tree_wf(es[i].1) {
            assert forall|i: int| 0 <= i < es.drop_last().len() implies key_ok(
                #[trigger] es.drop_last()[i].0,
            ) && tree_wf(es.drop_last()[i].1) by {
                assert(es.drop_last()[i] == es[i]);
                assert(key_ok(es[i].0));
            }
            assert(key_ok(es[es.len() - 1].0));
        }
        if entries_wf(es) {
            assert forall|i: int| 0 <= i < es.len() implies key_ok(#[trigger] es[i].0) && tree_wf(
                es[i].1,
            ) by {
                if i < es.len() - 1 {
                    assert(es.drop_last()[i] == es[i]);
                    assert(key_ok(es.drop_last()[i].0));
                }
            }
        }
    }
}

proof fn lemma_put_wf(es: Seq<(Seq<char>, Tree)>, k: Seq<char>, t: Tree)
    requires
        entries_wf(es),
        key_ok(k),
        tree_wf(t),
    ensures
        entries_wf(put(es, k, t)),
        put(es, k, t).len() > 0,
{
    lemma_entries_wf(es);
    crate::value::lemma_insert_pos_bounds(es, k);
    let p = insert_pos(es, k) as int;
    let r = put(es, k, t);
    assert forall|i: int| 0 <= i < r.len() implies key_ok(#[trigger] r[i].0) && tree_wf(
        r[i].1,
    ) by {
        if p < es.len() && es[p].0 == k {
            if i != p {
                assert(r[i] == es[i]);
            } else {
                assert(r[i] == (k, t));
            }
        } else {
            if i < p {
                assert(r[i] == es[i]);
            } else if i > p {
                assert(r[i] == es[i - 1]);
            } else {
                assert(r[i] == (k, t));
            }
        }
        assert(key_ok(r[i].0));
        assert(tree_wf(r[i].1));
    }
    lemma_entries_wf(r);
}

pub(crate) proof fn lemma_lookup_wf(es: Seq<(Seq<char>, Tree)>, k: Seq<char>)
    requires
        entries_wf(es),
    ensures
        lookup(es, k) matches Some(t) ==> tree_wf(t),
{
    lemma_entries_wf(es);
    let p = insert_pos(es, k) as int;
    if p < es.len() && es[p].0 == k {
        assert(key_ok(es[p].0) && tree_wf(es[p].1));
    }
}

/// Storing a value whose segments are non-empty and dot-free, and whose text is
/// trimmed and has no line break, keeps the entries as the parser makes them.
pub proof fn lemma_insert_path_wf(
    es: Seq<(Seq<char>, Tree)>,
    segments: Seq<Seq<char>>,
    value: Seq<char>,
)
    requires
        entries_wf(es),
        segments.len() >= 1,
        forall|i: int| 0 <= i < segments.len() ==> key_ok(#[trigger] segments[i]),
        leaf_text_ok(value),
        insert_path(es, segments, value) is Ok,
    ensures
        entries_wf(insert_path(es, segments, value)->Ok_0),
        insert_path(es, segments, value)->Ok_0.len() > 0,
    decreases segments.len(),
{
    let h = segments[0];
    assert(key_ok(segments[0]));
    if segments.len() == 1 {
        lemma_put_wf(es, h, Tree::Leaf(value));
    } else {
        lemma_lookup_wf(es, h);
        let m = match lookup(es, h) {
            Some(Tree::Branch(m)) => m,
            _ => Seq::empty(),
        };
        let rest = segments.drop_first();
        assert forall|i: int| 0 <= i < rest.len() implies key_ok(#[trigger] rest[i]) by {
            assert(rest[i] == segments[i + 1]);
        }
        lemma_insert_path_wf(m, rest, value);
        let m2 = insert_path(m, rest, value)->Ok_0;
        lemma_put_wf(es, h, Tree::Branch(m2));
    }
}

/// The pieces of a split hold no separator.
proof fn lemma_split_pieces(s: Seq<char>, c: char)
    ensures
        forall|i: int, j: int|
            0 <= i < split(s, c).len() && 0 <= j < split(s, c)[i].len() ==> #[trigger] split(
                s,
                c,
            )[i][j] != c,
    decreases s.len(),
{
    lemma_find_spec(s, c);
    match find(s, c) {
        None => {},
        Some(k) => {
            lemma_split_pieces(s.skip(k + 1), c);
            let tail = split(s.skip(k + 1), c);
            assert forall|i: int, j: int|
                0 <= i < split(s, c).len() && 0 <= j < split(s, c)[i].len() implies #[trigger] split(
                s,
                c,
            )[i][j] != c by {
                if i > 0 {
                    assert(split(s, c)[i] == tail[i - 1]);
                }
            }
        },
    }
}

/// What `trim_end` keeps, as a length.
proof fn lemma_trim_end_split(s: Seq<char>) -> (k: int)
    ensures
        0 <= k <= s.len(),
        trim_end(s) == s.take(k),
        k > 0 ==> !is_space(s[k - 1]),
    decreases s.len(),
{
    if s.len() > 0 && is_space(s.last()) {
        let k1 = lemma_trim_end_split(s.drop_last());
        assert(s.drop_last().take(k1) =~= s.take(k1));
        k1
    } else {
        assert(s.take(s.len() as int) =~= s);
        s.len() as int
    }
}

/// A trimmed text has no whitespace at its ends, and holds no character that
/// the text did not.
proof fn lemma_trim_ok(s: Seq<char>, c: char)
    ensures
        trim(s).len() > 0 ==> !is_space(trim(s)[0]) && !is_space(trim(s).last()),
        (forall|i: int| 0 <= i < s.len() ==> s[i] != c) ==> (forall|i: int|
            0 <= i < trim(s).len() ==> trim(s)[i] != c),
{
    let k1 = lemma_trim_start_split(s);
    let r = s.skip(k1);
    let k2 = lemma_trim_end_split(r);
    assert(trim(s) == r.take(k2));
    if k2 > 0 {
        assert(trim(s)[0] == s[k1]);
    }
    if forall|i: int| 0 <= i < s.len() ==> s[i] != c {
        assert forall|i: int| 0 <= i < trim(s).len() implies trim(s)[i] != c by {
            assert(trim(s)[i] == s[k1 + i]);
        }
    }
}

/// The segments and the value that an entry line gives are as the parser makes them.
proof fn lemma_entry_ok(line: Seq<char>)
    requires
        forall|i: int| 0 <= i < line.len() ==> line[i] != '\n',
    ensures
        classify_line(line) matches LineKind::Entry { segments, value } ==> {
            &&& segments.len() >= 1
            &&& forall|i: int| 0 <= i < segments.len() ==> key_ok(#[trigger] segments[i])
            &&& leaf_text_ok(value)
        },
{
    if let LineKind::Entry { segments, value } = classify_line(line) {
        let t = trim(line);
        lemma_trim_ok(line, '\n');
        let body = entry_body(t);
        assert forall|i: int| 0 <= i < body.len() implies body[i] != '\n' by {
            if t.len() > 0 && t[0] == '-' {
                assert(body[i] == t[i + 1]);
            }
        }
        let e = find(body, '=')->Some_0;
        lemma_find_spec(body, '=');
        let key = trim(body.take(e));
        let rest = body.skip(e + 1);
        assert forall|i: int| 0 <= i < rest.len() implies rest[i] != '\n' by {
            assert(rest[i] == body[e + 1 + i]);
        }
        lemma_trim_ok(rest, '\n');
        crate::text::lemma_split_nonempty(key, '.');
        lemma_split_pieces(key, '.');
        assert forall|i: int| 0 <= i < segments.len() implies key_ok(#[trigger] segments[i]) by {
            assert(segments[i].len() != 0);
            assert forall|j: int| 0 <= j < segments[i].len() implies segments[i][j] != '.' by {
                assert(split(key, '.')[i][j] != '.');
            }
        }
    }
}

proof fn lemma_parse_lines_wf(lines: Seq<Seq<char>>)
    requires
        forall|i: int, j: int|
            0 <= i < lines.len() && 0 <= j < lines[i].len() ==> #[trigger] lines[i][j] != '\n',
    ensures
        parse_lines(lines) matches Ok(es) ==> entries_wf(es),
    decreases lines.len(),
{
    if lines.len() > 0 {
        assert forall|i: int, j: int|
            0 <= i < lines.drop_last().len() && 0 <= j < lines.drop_last()[i].len() implies #[trigger] lines.drop_last()[i][j]
            != '\n' by {
            assert(lines.drop_last()[i] == lines[i]);
        }
        lemma_parse_lines_wf(lines.drop_last());
        let line = lines.last();
        assert forall|j: int| 0 <= j < line.len() implies line[j] != '\n' by {
            assert(lines[lines.len() - 1][j] != '\n');
        }
        lemma_entry_ok(line);
        if let Ok(es) = parse_lines(lines.drop_last()) {
            if let LineKind::Entry { segments, value } = classify_line(line) {
                if insert_path(es, segments, value) is Ok {
                    lemma_insert_path_wf(es, segments, value);
                }
            }
        }
    }
}

/// Whatever parses holds, at every depth, only non-empty dot-free keys,
/// non-empty namespaces, and leaves that are trimmed and have no line break.
pub proof fn lemma_parse_wf(input: Seq<char>)
    ensures
        spec_parse(input) matches Ok(es) ==> entries_wf(es),
{
    lemma_split_pieces(input, '\n');
    lemma_parse_lines_wf(split(input, '\n'));
}

/// The leaf text at the dotted `path` of `es`, if a leaf is there.
pub open spec fn leaf_at(es: Seq<(Seq<char>, Tree)>, path: Seq<Seq<char>>) -> Option<Seq<char>> {
    match tree_get(es, path) {
        Some(Tree::Leaf(v)) => Some(v),
        _ => None,
    }
}

/// The value of the last line among `lines` that assigns the dotted key `path`.
pub open spec fn last_assigned(lines: Seq<Seq<char>>, path: Seq<Seq<char>>) -> Option<Seq<char>>
    decreases lines.len(),
{
    if lines.len() == 0 {
        None
    } else {
        match classify_line(lines.last()) {
            LineKind::Entry { segments, value } => if segments == path {
                Some(value)
            } else {
                last_assigned(lines.drop_last(), path)
            },
            _ => last_assigned(lines.drop_last(), path),
        }
    }
}

/// Past a prefix that holds no namespace, there is nothing.
proof fn lemma_tree_get_past(es: Seq<(Seq<char>, Tree)>, q: Seq<Seq<char>>, p: Seq<Seq<char>>)
    requires
        1 <= q.len() < p.len(),
        q == p.take(q.len() as int),
        !(tree_get(es, q) matches Some(Tree::Branch(_))),
    ensures
        tree_get(es, p) == None::<Tree>,
    decreases q.len(),
{
    assert(q[0] == p[0]);
    if q.len() > 1 {
        if let Some(Tree::Branch(inner)) = lookup(es, p[0]) {
            assert(q.drop_first() =~= p.drop_first().take(q.len() - 1));
            lemma_tree_get_past(inner, q.drop_first(), p.drop_first());
        }
    }
}

/// After storing a dotted key, each proper prefix of it holds a namespace.
proof fn lemma_insert_path_prefix_branch(
    es: Seq<(Seq<char>, Tree)>,
    segments: Seq<Seq<char>>,
    value: Seq<char>,
    j: int,
)
    requires
        insert_path(es, segments, value) is Ok,
        1 <= j < segments.len(),
    ensures
        tree_get(insert_path(es, segments, value)->Ok_0, segments.take(j)) matches Some(
            Tree::Branch(_),
        ),
    decreases segments.len(),
{
    let h = segments[0];
    let m = match lookup(es, h) {
        Some(Tree::Branch(m)) => m,
        _ => Seq::empty(),
    };
    let rest = segments.drop_first();
    let m2 = insert_path(m, rest, value)->Ok_0;
    lemma_lookup_put_same(es, h, Tree::Branch(m2));
    assert(segments.take(j)[0] == h);
    if j > 1 {
        assert(segments.take(j).drop_first() =~= rest.take(j - 1));
        lemma_insert_path_prefix_branch(m, rest, value, j - 1);
    }
}

/// Storing a dotted key sets the leaf there and changes no other leaf: none
/// is added, none is removed, none changes its text.
pub proof fn lemma_insert_path_leaves(
    es: Seq<(Seq<char>, Tree)>,
    segments: Seq<Seq<char>>,
    value: Seq<char>,
    path: Seq<Seq<char>>,
)
    requires
        entries_sorted(es),
        segments.len() >= 1,
        insert_path(es, segments, value) is Ok,
    ensures
        leaf_at(insert_path(es, segments, value)->Ok_0, path) == if path == segments {
            Some(value)
        } else {
            leaf_at(es, path)
        },
{
    let es2 = insert_path(es, segments, value)->Ok_0;
    lemma_insert_path_conflict(es, segments, value);
    if path == segments {
        lemma_insert_path_reads_back(es, segments, value);
    } else if path.len() == 0 {
    } else if exists|i: int| 0 <= i < path.len() && i < segments.len() && path[i] != segments[i] {
        let i = choose|i: int| 0 <= i < path.len() && i < segments.len() && path[i] != segments[i];
        lemma_insert_path_frame(es, segments, value, path, i);
    } else if path.len() < segments.len() {
        assert(path =~= segments.take(path.len() as int));
        lemma_insert_path_prefix_branch(es, segments, value, path.len() as int);
        assert(!(tree_get(es, segments.take(path.len() as int)) matches Some(Tree::Leaf(_))));
    } else if path.len() > segments.len() {
        assert(segments =~= path.take(segments.len() as int));
        lemma_insert_path_reads_back(es, segments, value);
        lemma_tree_get_past(es2, segments, path);
        lemma_tree_get_past(es, segments, path);
    } else {
        assert(path =~= segments);
    }
}

proof fn lemma_parse_lines_leaves(lines: Seq<Seq<char>>, path: Seq<Seq<char>>)
    requires
        forall|i: int, j: int|
            0 <= i < lines.len() && 0 <= j < lines[i].len() ==> #[trigger] lines[i][j] != '\n',
    ensures
        parse_lines(lines) matches Ok(es) ==> leaf_at(es, path) == last_assigned(lines, path),
    decreases lines.len(),
{
    if lines.len() > 0 {
        assert forall|i: int, j: int|
            0 <= i < lines.drop_last().len() && 0 <= j < lines.drop_last()[i].len() implies #[trigger] lines.drop_last()[i][j]
            != '\n' by {
            assert(lines.drop_last()[i] == lines[i]);
        }
        lemma_parse_lines_leaves(lines.drop_last(), path);
        lemma_parse_lines_sorted(lines.drop_last());
        let line = lines.last();
        assert forall|j: int| 0 <= j < line.len() implies line[j] != '\n' by {
            assert(lines[lines.len() - 1][j] != '\n');
        }
        lemma_entry_ok(line);
        if let Ok(es) = parse_lines(lines.drop_last()) {
            if let LineKind::Entry { segments, value } = classify_line(line) {
                if insert_path(es, segments, value) is Ok {
                    lemma_insert_path_leaves(es, segments, value, path);
                }
            }
        }
    }
}

/// What a successful parse holds: the leaf at each dotted key is the value of
/// the last line that assigns that key, and there is no leaf at a key that no
/// line assigns.
pub proof fn lemma_parse_leaves(input: Seq<char>, path: Seq<Seq<char>>)
    ensures
        spec_parse(input) matches Ok(es) ==> leaf_at(es, path) == last_assigned(
            split(input, '\n'),
            path,
        ),
{
    lemma_split_pieces(input, '\n');
    lemma_parse_lines_leaves(split(input, '\n'), path);
}


/// The dotted key that a line assigns, if it assigns one.
pub open spec fn assigned_key(line: Seq<char>) -> Option<Seq<Seq<char>>> {
    match classify_line(line) {
        LineKind::Entry { segments, .. } => Some(segments),
        _ => None,
    }
}

/// Whether the dotted key `p` is a proper prefix of `q`, segment by segment.
pub open spec fn is_proper_prefix(p: Seq<Seq<char>>, q: Seq<Seq<char>>) -> bool {
    p.len() < q.len() && q.take(p.len() as int) == p
}

/// Whether two dotted keys clash, and `k` names the clash: the last segment of
/// the shorter one.
pub open spec fn clash_named(p: Seq<Seq<char>>, s: Seq<Seq<char>>, k: Seq<char>) -> bool {
    ||| is_proper_prefix(p, s) && k == p.last()
    ||| is_proper_prefix(s, p) && k == s.last()
}

/// Lines of which none is malformed and no assigned dotted key is a proper
/// prefix of another assigned one.
pub open spec fn lines_consistent(lines: Seq<Seq<char>>) -> bool {
    &&& forall|i: int| 0 <= i < lines.len() ==> !(#[trigger] classify_line(lines[i]) is Malformed)
    &&& forall|i: int, j: int|
        0 <= i < lines.len() && 0 <= j < lines.len() && #[trigger] assigned_key(lines[i]) is Some
            && #[trigger] assigned_key(lines[j]) is Some ==> !is_proper_prefix(
            assigned_key(lines[i])->Some_0,
            assigned_key(lines[j])->Some_0,
        )
}

proof fn lemma_last_assigned_some(lines: Seq<Seq<char>>, path: Seq<Seq<char>>)
    ensures
        last_assigned(lines, path) is Some <==> exists|i: int|
            0 <= i < lines.len() && #[trigger] assigned_key(lines[i]) == Some(path),
    decreases lines.len(),
{
    if lines.len() > 0 {
        let rest = lines.drop_last();
        let n = lines.len() - 1;
        lemma_last_assigned_some(rest, path);
        assert(lines[n] == lines.last());
        if assigned_key(lines[n]) == Some(path) {
            assert(last_assigned(lines, path) is Some);
        }
        if exists|i: int| 0 <= i < rest.len() && #[trigger] assigned_key(rest[i]) == Some(path) {
            let i = choose|i: int| 0 <= i < rest.len() && #[trigger] assigned_key(rest[i]) == Some(path);
            assert(lines[i] == rest[i]);
        }
        if exists|i: int| 0 <= i < lines.len() && #[trigger] assigned_key(lines[i]) == Some(path) {
            let i = choose|i: int| 0 <= i < lines.len() && #[trigger] assigned_key(lines[i]) == Some(path);
            if i < lines.len() - 1 {
                assert(rest[i] == lines[i]);
            }
        }
    }
}

proof fn lemma_tree_get_push(es: Seq<(Seq<char>, Tree)>, p: Seq<Seq<char>>, k: Seq<char>)
    requires
        p.len() >= 1,
    ensures
        tree_get(es, p.push(k)) == match tree_get(es, p) {
            Some(Tree::Branch(m)) => lookup(m, k),
            _ => None,
        },
    decreases p.len(),
{
    let q = p.push(k);
    assert(q[0] == p[0]);
    assert(q.len() >= 2);
    if p.len() == 1 {
        assert(q.drop_first() =~= seq![k]);
        assert(tree_get(es, p) == lookup(es, p[0]));
        if let Some(Tree::Branch(inner)) = lookup(es, p[0]) {
            assert(tree_get(es, q) == tree_get(inner, q.drop_first()));
            assert(tree_get(inner, seq![k]) == lookup(inner, k));
        }
    } else {
        assert(q.drop_first() =~= p.drop_first().push(k));
        if let Some(Tree::Branch(inner)) = lookup(es, p[0]) {
            lemma_tree_get_push(inner, p.drop_first(), k);
            assert(tree_get(es, q) == tree_get(inner, q.drop_first()));
            assert(tree_get(es, p) == tree_get(inner, p.drop_first()));
        }
    }
}

proof fn lemma_tree_get_wf(es: Seq<(Seq<char>, Tree)>, p: Seq<Seq<char>>)
    requires
        entries_wf(es),
        entries_sorted(es),
    ensures
        tree_get(es, p) matches Some(t) ==> tree_wf(t) && tree_sorted(t),
    decreases p.len(),
{
    if p.len() > 0 {
        lemma_lookup_wf(es, p[0]);
        lemma_lookup_child_sorted(es, p[0]);
        if p.len() > 1 {
            if let Some(Tree::Branch(inner)) = lookup(es, p[0]) {
                lemma_tree_get_wf(inner, p.drop_first());
            }
        }
    }
}

/// A namespace that the parser made holds a leaf somewhere below it.
proof fn lemma_branch_has_leaf(es: Seq<(Seq<char>, Tree)>, p: Seq<Seq<char>>, t: Tree)
    requires
        entries_wf(es),
        entries_sorted(es),
        p.len() >= 1,
        tree_get(es, p) == Some(t),
        t is Branch,
    ensures
        exists|q: Seq<Seq<char>>| is_proper_prefix(p, q) && #[trigger] leaf_at(es, q) is Some,
    decreases t,
{
    lemma_tree_get_wf(es, p);
    if let Tree::Branch(m) = t {
        assert(m.len() > 0);
        lemma_entries_wf(m);
        let k = m[0].0;
        let c = m[0].1;
        lemma_lookup_finds(m, k);
        lemma_tree_get_push(es, p, k);
        let q = p.push(k);
        assert(q.take(p.len() as int) =~= p);
        assert(tree_get(es, q) == Some(c));
        match c {
            Tree::Leaf(_) => {
                assert(leaf_at(es, q) is Some);
            },
            Tree::Branch(_) => {
                assert(decreases_to!(m => m[0]));
                lemma_branch_has_leaf(es, q, c);
                let r = choose|r: Seq<Seq<char>>| is_proper_prefix(q, r) && #[trigger] leaf_at(es, r)
                    is Some;
                assert(r.take(p.len() as int) =~= q.take(p.len() as int));
                assert(is_proper_prefix(p, r));
            },
        }
    }
}

/// Where storing a dotted key meets the wrong shape, an earlier line assigned
/// a key that clashes with it, and the clash names the reported segment.
proof fn lemma_named_conflict_clash(lines: Seq<Seq<char>>, s: Seq<Seq<char>>, k: Seq<char>)
    requires
        forall|i: int, j: int|
            0 <= i < lines.len() && 0 <= j < lines[i].len() ==> #[trigger] lines[i][j] != '\n',
        parse_lines(lines) is Ok,
        s.len() >= 1,
        names_conflict(parse_lines(lines)->Ok_0, s, k),
    ensures
        exists|i: int|
            0 <= i < lines.len() && #[trigger] assigned_key(lines[i]) is Some && clash_named(
                assigned_key(lines[i])->Some_0,
                s,
                k,
            ),
{
    let es = parse_lines(lines)->Ok_0;
    lemma_parse_lines_wf(lines);
    lemma_parse_lines_sorted(lines);
    if exists|j: int| 1 <= j < s.len() && #[trigger] leaf_at(es, s.take(j)) is Some && k == s[j - 1] {
        let j = choose|j: int|
            1 <= j < s.len() && #[trigger] leaf_at(es, s.take(j)) is Some && k == s[j - 1];
        let p = s.take(j);
        lemma_parse_lines_leaves(lines, p);
        lemma_last_assigned_some(lines, p);
        let i = choose|i: int| 0 <= i < lines.len() && #[trigger] assigned_key(lines[i]) == Some(p);
        assert(p.last() == s[j - 1]);
        assert(clash_named(p, s, k));
    } else {
        let t = tree_get(es, s)->Some_0;
        lemma_branch_has_leaf(es, s, t);
        let q = choose|q: Seq<Seq<char>>| is_proper_prefix(s, q) && #[trigger] leaf_at(es, q) is Some;
        lemma_parse_lines_leaves(lines, q);
        lemma_last_assigned_some(lines, q);
        let i = choose|i: int| 0 <= i < lines.len() && #[trigger] assigned_key(lines[i]) == Some(q);
        assert(clash_named(q, s, k));
    }
}

/// A key that clashes with one an earlier line assigned cannot be stored.
proof fn lemma_clash_conflict(lines: Seq<Seq<char>>, s: Seq<Seq<char>>, i: int)
    requires
        forall|a: int, b: int|
            0 <= a < lines.len() && 0 <= b < lines[a].len() ==> #[trigger] lines[a][b] != '\n',
        parse_lines(lines) is Ok,
        s.len() >= 1,
        0 <= i < lines.len(),
        assigned_key(lines[i]) is Some,
        is_proper_prefix(assigned_key(lines[i])->Some_0, s) || is_proper_prefix(
            s,
            assigned_key(lines[i])->Some_0,
        ),
    ensures
        has_conflict(parse_lines(lines)->Ok_0, s),
{
    let es = parse_lines(lines)->Ok_0;
    let p = assigned_key(lines[i])->Some_0;
    assert forall|b: int| 0 <= b < lines[i].len() implies lines[i][b] != '\n' by {}
    lemma_entry_ok(lines[i]);
    lemma_last_assigned_some(lines, p);
    lemma_parse_lines_leaves(lines, p);
    assert(leaf_at(es, p) is Some);
    if is_proper_prefix(p, s) {
        let j = p.len() as int;
        assert(s.take(j) == p);
        assert(tree_get(es, s.take(j)) matches Some(Tree::Leaf(_)));
    } else {
        if !(tree_get(es, s) matches Some(Tree::Branch(_))) {
            lemma_tree_get_past(es, s, p);
        }
    }
}

proof fn lemma_parse_lines_ok_iff(lines: Seq<Seq<char>>)
    requires
        forall|i: int, j: int|
            0 <= i < lines.len() && 0 <= j < lines[i].len() ==> #[trigger] lines[i][j] != '\n',
    ensures
        (parse_lines(lines) is Ok) == lines_consistent(lines),
    decreases lines.len(),
{
    if lines.len() > 0 {
        let rest = lines.drop_last();
        let n = lines.len() - 1;
        let line = lines[n];
        assert(line == lines.last());
        assert forall|i: int, j: int|
            0 <= i < rest.len() && 0 <= j < rest[i].len() implies #[trigger] rest[i][j] != '\n' by {
            assert(rest[i] == lines[i]);
        }
        lemma_parse_lines_ok_iff(rest);
        assert forall|j: int| 0 <= j < line.len() implies line[j] != '\n' by {}
        lemma_entry_ok(line);
        if lines_consistent(lines) {
            assert forall|i: int| 0 <= i < rest.len() implies !(#[trigger] classify_line(
                rest[i],
            ) is Malformed) by {
                assert(rest[i] == lines[i]);
            }
            assert forall|i: int, j: int|
                0 <= i < rest.len() && 0 <= j < rest.len() && #[trigger] assigned_key(rest[i]) is Some
                    && #[trigger] assigned_key(rest[j]) is Some implies !is_proper_prefix(
                assigned_key(rest[i])->Some_0,
                assigned_key(rest[j])->Some_0,
            ) by {
                assert(rest[i] == lines[i]);
                assert(rest[j] == lines[j]);
            }
        }
        match parse_lines(rest) {
            Err(_) => {},
            Ok(es) => {
                match classify_line(line) {
                    LineKind::Blank => {
                        if lines_consistent(rest) {
                            assert forall|i: int| 0 <= i < lines.len() implies !(
                            #[trigger] classify_line(lines[i]) is Malformed) by {
                                if i < n {
                                    assert(rest[i] == lines[i]);
                                }
                            }
                            assert forall|i: int, j: int|
                                0 <= i < lines.len() && 0 <= j < lines.len() && #[trigger] assigned_key(
                                    lines[i],
                                ) is Some && #[trigger] assigned_key(lines[j]) is Some implies !is_proper_prefix(
                                assigned_key(lines[i])->Some_0,
                                assigned_key(lines[j])->Some_0,
                            ) by {
                                assert(rest[i] == lines[i]);
                                assert(rest[j] == lines[j]);
                            }
                        }
                    },
                    LineKind::Malformed { .. } => {
                        assert(classify_line(lines[n]) is Malformed);
                    },
                    LineKind::Entry { segments, value } => {
                        let s = segments;
                        assert(assigned_key(lines[n]) == Some(s));
                        lemma_insert_path_conflict(es, s, value);
                        if let Err(k) = insert_path(es, s, value) {
                            lemma_named_conflict_clash(rest, s, k);
                            let i = choose|i: int|
                                0 <= i < rest.len() && #[trigger] assigned_key(rest[i]) is Some
                                    && clash_named(assigned_key(rest[i])->Some_0, s, k);
                            assert(rest[i] == lines[i]);
                            assert(assigned_key(lines[i]) is Some);
                            assert(assigned_key(lines[n]) is Some);
                        } else if lines_consistent(rest) {
                            assert forall|i: int| 0 <= i < lines.len() implies !(
                            #[trigger] classify_line(lines[i]) is Malformed) by {
                                if i < n {
                                    assert(rest[i] == lines[i]);
                                }
                            }
                            assert forall|i: int, j: int|
                                0 <= i < lines.len() && 0 <= j < lines.len() && #[trigger] assigned_key(
                                    lines[i],
                                ) is Some && #[trigger] assigned_key(lines[j]) is Some implies !is_proper_prefix(
                                assigned_key(lines[i])->Some_0,
                                assigned_key(lines[j])->Some_0,
                            ) by {
                                if i < n && j < n {
                                    assert(rest[i] == lines[i]);
                                    assert(rest[j] == lines[j]);
                                } else if i < n {
                                    assert(rest[i] == lines[i]);
                                    if is_proper_prefix(assigned_key(lines[i])->Some_0, s) {
                                        lemma_clash_conflict(rest, s, i);
                                    }
                                } else if j < n {
                                    assert(rest[j] == lines[j]);
                                    if is_proper_prefix(s, assigned_key(lines[j])->Some_0) {
                                        lemma_clash_conflict(rest, s, j);
                                    }
                                }
                            }
                        }
                    },
                }
            },
        }
    }
}

/// Text parses exactly when none of its lines is malformed and no dotted key
/// that one line assigns is a proper prefix of a key that another line assigns.
pub proof fn lemma_parse_ok_iff_consistent(input: Seq<char>)
    ensures
        (spec_parse(input) is Ok) == lines_consistent(split(input, '\n')),
{
    lemma_split_pieces(input, '\n');
    lemma_parse_lines_ok_iff(split(input, '\n'));
}

/// Text none of whose lines is malformed, and none of whose assigned dotted keys
/// is a proper prefix of another, parses; the leaf at each dotted key is then the
/// value of the last line that assigns it, and there is no leaf elsewhere.
pub proof fn lemma_consistent_text_parses(input: Seq<char>, path: Seq<Seq<char>>)
    requires
        lines_consistent(split(input, '\n')),
    ensures
        spec_parse(input) is Ok,
        leaf_at(spec_parse(input)->Ok_0, path) == last_assigned(split(input, '\n'), path),
{
    lemma_parse_ok_iff_consistent(input);
    lemma_parse_leaves(input, path);
}

/// Whitespace at the end does not change `trim_end`.
proof fn lemma_trim_end_spaces(x: Seq<char>, w: Seq<char>)
    requires
        forall|i: int| 0 <= i < w.len() ==> is_space(#[trigger] w[i]),
    ensures
        trim_end(x + w) == trim_end(x),
    decreases w.len(),
{
    if w.len() == 0 {
        assert(x + w =~= x);
    } else {
        assert((x + w).last() == w.last());
        assert((x + w).drop_last() =~= x + w.drop_last());
        lemma_trim_end_spaces(x, w.drop_last());
    }
}

/// An entry line `k = v`: whatever whitespace surrounds the `=` and whatever
/// characters the value holds (`#` and `=` included), the line assigns the
/// trimmed text after the first `=` to the key, and parsed alone gives one
/// leaf holding it.
pub proof fn lemma_entry_line(k: Seq<char>, w1: Seq<char>, w2: Seq<char>, v: Seq<char>)
    requires
        k.len() > 0,
        !is_space(k[0]),
        !is_space(k.last()),
        k[0] != '#',
        k[0] != ';',
        k[0] != '-',
        forall|i: int| 0 <= i < k.len() ==> k[i] != '=' && k[i] != '.' && k[i] != '\n',
        forall|i: int| 0 <= i < w1.len() ==> is_space(#[trigger] w1[i]) && w1[i] != '\n',
        forall|i: int| 0 <= i < w2.len() ==> is_space(#[trigger] w2[i]) && w2[i] != '\n',
        v.len() > 0 ==> !is_space(v[0]) && !is_space(v.last()),
        forall|i: int| 0 <= i < v.len() ==> v[i] != '\n',
    ensures
        classify_line(k + w1 + seq!['='] + w2 + v) == (LineKind::Entry {
            segments: seq![k],
            value: v,
        }),
        spec_parse(k + w1 + seq!['='] + w2 + v) == Ok::<Seq<(Seq<char>, Tree)>, ParseFault>(
            seq![(k, Tree::Leaf(v))],
        ),
{
    let a = k + w1;
    let line = k + w1 + seq!['='] + w2 + v;
    assert(!is_space('='));
    assert(a[0] == k[0]);
    assert(line[0] == k[0]);
    assert(trim_start(line) == line);
    let r = if v.len() > 0 {
        w2 + v
    } else {
        Seq::<char>::empty()
    };
    let t = a + seq!['='] + r;
    if v.len() > 0 {
        assert(line.last() == v.last());
        assert(trim_end(line) == line);
        assert(line =~= t);
    } else {
        assert(line =~= (a + seq!['=']) + w2);
        lemma_trim_end_spaces(a + seq!['='], w2);
        assert((a + seq!['=']).last() == '=');
        assert(trim_end(a + seq!['=']) == a + seq!['=']);
        assert(a + seq!['='] =~= t);
    }
    assert(trim(line) == t);
    assert(t[0] == k[0]);
    assert(entry_body(t) == t);
    let e = a.len() as int;
    assert forall|j: int| 0 <= j < e implies t[j] != '=' by {
        if j < k.len() {
            assert(t[j] == k[j]);
        } else {
            assert(t[j] == w1[j - k.len()]);
        }
    }
    assert(t[e] == '=');
    lemma_find_at(t, '=', e);
    assert(t.take(e) =~= a);
    assert(trim_start(a) == a);
    lemma_trim_end_spaces(k, w1);
    assert(trim_end(k) == k);
    assert(trim(t.take(e)) == k);
    assert(t.skip(e + 1) =~= r);
    if v.len() > 0 {
        lemma_trim_start_after(w2, v);
        assert(trim_start(v) == v);
        assert(trim_end(v) == v);
    }
    assert(trim(t.skip(e + 1)) == v);
    lemma_find_at(k, '.', k.len() as int);
    assert(split(k, '.') == seq![k]);
    assert(!has_empty_segment(seq![k]));
    assert forall|j: int| 0 <= j < line.len() implies line[j] != '\n' by {
        if j < k.len() {
            assert(line[j] == k[j]);
        } else if j < a.len() {
            assert(line[j] == w1[j - k.len()]);
        } else if j == a.len() {
            assert(line[j] == '=');
        } else if j < a.len() + 1 + w2.len() {
            assert(line[j] == w2[j - a.len() - 1]);
        } else {
            assert(line[j] == v[j - a.len() - 1 - w2.len()]);
        }
    }
    lemma_find_at(line, '\n', line.len() as int);
    assert(split(line, '\n') == seq![line]);
    let lines = seq![line];
    assert(lines.drop_last() =~= Seq::<Seq<char>>::empty());
    assert(lines.last() == line);
    let empty = Seq::<(Seq<char>, Tree)>::empty();
    assert(lookup(empty, k) is None);
    assert(insert_path(empty, seq![k], v) == Ok::<Seq<(Seq<char>, Tree)>, Seq<char>>(
        put(empty, k, Tree::Leaf(v)),
    ));
    assert(put(empty, k, Tree::Leaf(v)) =~= seq![(k, Tree::Leaf(v))]);
    assert(parse_lines(lines.drop_last()) == Ok::<Seq<(Seq<char>, Tree)>, ParseFault>(empty));
    assert(apply_line(empty, line, 1) == Ok::<Seq<(Seq<char>, Tree)>, ParseFault>(
        seq![(k, Tree::Leaf(v))],
    ));
    assert(parse_lines(lines) == apply_line(empty, line, 1));
}

/// A line whose first non-blank character is `#` or `;` is a comment, whatever
/// follows: it assigns nothing.
pub proof fn lemma_comment_line(w: Seq<char>, c: char, rest: Seq<char>)
    requires
        forall|i: int| 0 <= i < w.len() ==> is_space(#[trigger] w[i]),
        c == '#' || c == ';',
    ensures
        classify_line(w + seq![c] + rest) == LineKind::Blank,
{
    let r = seq![c] + rest;
    assert(w + seq![c] + rest =~= w + r);
    lemma_trim_start_after(w, r);
    assert(!is_space(c));
    assert(r[0] == c);
    assert(trim_start(r) == r);
    lemma_trim_end_after(Seq::<char>::empty(), r);
    assert(trim(w + r)[0] == c);
}

} // verus!
