//! High-level [`Config`] wrapper with dotted-path lookup.

use vstd::prelude::*;

use crate::error::ParseError;
use crate::parser::{parse_str, spec_parse};
use crate::text::{find_in, lemma_find_spec, split, to_chars};
use crate::value::{opt_tree, tree_get, Tree, Value, ValueMap};

verus! {

/// A parsed sysctl.conf-style configuration.
#[derive(Debug, PartialEq, Eq)]
pub struct Config {
    root: ValueMap,
}

/// `cs[lo..hi]` as a vector of its own.
fn copy_range(cs: &Vec<char>, lo: usize, hi: usize) -> (r: Vec<char>)
    requires
        lo <= hi <= cs@.len(),
    ensures
        r@ == cs@.subrange(lo as int, hi as int),
{
    let mut r: Vec<char> = Vec::new();
    let mut i = lo;
    while i < hi
        invariant
            lo <= i <= hi <= cs@.len(),
            r@ == cs@.subrange(lo as int, i as int),
        decreases hi - i,
    {
        r.push(cs[i]);
        assert(r@ =~= cs@.subrange(lo as int, i + 1));
        i = i + 1;
    }
    r
}

impl Config {
    /// The entries of the top-level namespace.
    pub closed spec fn view(&self) -> Seq<(Seq<char>, Tree)> {
        self.root@
    }

    /// Parses a configuration from its text (what `str::parse` does).
    pub fn from_text(input: &str) -> (r: Result<Config, ParseError>)
        ensures
            match spec_parse(input@) {
                Ok(es) => r matches Ok(c) && c@ == es,
                Err(f) => r matches Err(e) && e.view() == f,
            },
    {
        match parse_str(input) {
            Ok(root) => Ok(Config { root }),
            Err(e) => Err(e),
        }
    }

    /// Borrow the root map.
    pub fn root(&self) -> (r: &ValueMap)
        ensures
            r@ == self@,
    {
        &self.root
    }

    /// Look up a value by a dotted path (`"log.file"`).
    ///
    /// Returns `None` when any segment is missing or when a non-final
    /// segment is a leaf string instead of a namespace.
    pub fn get(&self, path: &str) -> (r: Option<&Value>)
        ensures
            opt_tree(r) == tree_get(self@, split(path@, '.')),
    {
        let cs = to_chars(path);
        let n = cs.len();
        let mut map: &ValueMap = &self.root;
        let mut s: usize = 0;
        assert(cs@.skip(0) =~= cs@);
        loop
            invariant
                n == cs@.len(),
                cs@ == path@,
                s <= n,
                tree_get(self@, split(cs@, '.')) == tree_get(map@, split(cs@.skip(s as int), '.')),
            decreases n - s,
        {
            let ghost rest = cs@.skip(s as int);
            let d = match find_in(&cs, s, n, '.') {
                Some(d) => d,
                None => n,
            };
            proof {
                assert(rest =~= cs@.subrange(s as int, n as int));
                lemma_find_spec(rest, '.');
                crate::text::lemma_find_at(rest, '.', d - s);
                assert(rest.take(d - s) =~= cs@.subrange(s as int, d as int));
                if d < n {
                    assert(rest.skip(d - s + 1) =~= cs@.skip(d + 1));
                    let tail = split(cs@.skip(d + 1), '.');
                    assert(split(rest, '.') == seq![rest.take(d - s)].add(tail));
                    assert(split(rest, '.').drop_first() =~= tail);
                    crate::text::lemma_split_nonempty(cs@.skip(d + 1), '.');
                } else {
                    assert(rest =~= rest.take(d - s));
                }
            }
            let seg = copy_range(&cs, s, d);
            let (p, found) = map.position(&seg);
            if !found {
                return None;
            }
            let (_, v) = map.entry(p);
            if d == n {
                return Some(v);
            }
            match v {
                Value::Namespace(m) => {
                    map = m;
                    s = d + 1;
                },
                Value::String(_) => {
                    return None;
                },
            }
        }
    }

    /// Look up a string value by a dotted path.
    pub fn get_str(&self, path: &str) -> (r: Option<&str>)
        ensures
            match tree_get(self@, split(path@, '.')) {
                Some(Tree::Leaf(s)) => r matches Some(x) && x@ == s,
                _ => r is None,
            },
    {
        match self.get(path) {
            Some(v) => v.as_str(),
            None => None,
        }
    }

    /// Number of top-level entries.
    pub fn len(&self) -> (n: usize)
        ensures
            n == self@.len(),
    {
        self.root.len()
    }

    /// True when there are no entries.
    pub fn is_empty(&self) -> (b: bool)
        ensures
            b == (self@.len() == 0),
    {
        self.root.is_empty()
    }
}

impl Clone for Config {
    fn clone(&self) -> (c: Config)
        ensures
            c@ == self@,
    {
        Config { root: self.root.clone() }
    }
}

impl Default for Config {
    fn default() -> (c: Config)
        ensures
            c@ == Seq::<(Seq<char>, Tree)>::empty(),
    {
        Config { root: ValueMap::new() }
    }
}

impl std::str::FromStr for Config {
    type Err = ParseError;

    fn from_str(s: &str) -> (r: Result<Config, ParseError>)
        ensures
            match spec_parse(s@) {
                Ok(es) => r matches Ok(c) && c@ == es,
                Err(f) => r matches Err(e) && e.view() == f,
            },
    {
        Config::from_text(s)
    }
}

} // verus!
