//! The pluggable function registry: symbolic names bound to map and reduce
//! implementations, with last-write-wins registration. The dispatch table is
//! a closed sum type rather than trait objects, so every implementation is
//! verified against its contract.

use vstd::prelude::*;
use vstd::string::*;
use crate::ext::{lower_of, lowercase};
use crate::numbers::{
    dec_int, i64_sat_add, int_literal_val, is_int_literal, i64_to_string, parse_i64, sat_add_i64,
};
use crate::utils::str_eq;
use crate::words::{split_words, words};

verus! {

/// The built-in word-count map function.
pub struct WordCountMapper;

/// The pairs the word-count map emits for input `s`: one
/// `(lowercased word, "1")` pair per word occurrence, in input order.
pub open spec fn word_count_pairs(s: Seq<char>) -> Seq<(Seq<char>, Seq<char>)> {
    words(s).map_values(|w: Seq<char>| (lower_of(w), "1"@))
}

impl WordCountMapper {
    /// Splits the input on whitespace and emits `(word, "1")` for every
    /// occurrence, with the word lowercased. Duplicate keys are deliberate:
    /// grouping happens at reduce time.
    pub fn map(&self, input: &str) -> (r: Vec<(String, String)>)
        ensures
            r@.map_values(|p: (String, String)| (p.0@, p.1@)) == word_count_pairs(input@),
    {
        let ws = split_words(input);
        let ghost wseq = words(input@);
        let mut r: Vec<(String, String)> = Vec::new();
        let n = ws.len();
        let mut i: usize = 0;
        while i < n
            invariant
                i <= n,
                n == wseq.len(),
                wseq == words(input@),
                ws@.map_values(|w: String| w@) == wseq,
                r@.map_values(|p: (String, String)| (p.0@, p.1@)) == word_count_pairs(
                    input@,
                ).take(i as int),
            decreases n - i,
        {
            let lw = lowercase(ws[i].as_str());
            let ghost prev = r@.map_values(|p: (String, String)| (p.0@, p.1@));
            r.push((lw, "1".to_owned()));
            proof {
                assert(ws@.map_values(|w: String| w@)[i as int] == ws@[i as int]@);
                assert(word_count_pairs(input@)[i as int] == (lower_of(wseq[i as int]), "1"@));
                assert(r@.map_values(|p: (String, String)| (p.0@, p.1@)) =~= prev.push(
                    (lw@, "1"@),
                ));
                assert(word_count_pairs(input@).take(i + 1) =~= word_count_pairs(input@).take(
                    i as int,
                ).push(word_count_pairs(input@)[i as int]));
            }
            i += 1;
        }
        proof {
            assert(word_count_pairs(input@).take(n as int) =~= word_count_pairs(input@));
        }
        r
    }
}

/// The built-in sum reduce function.
pub struct SumReducer;

/// The lenient sum of a value list: each value that parses as an `i64` is
/// added (clamping at the type's bounds), unparsable values are ignored.
pub open spec fn lenient_sum(vs: Seq<Seq<char>>) -> int
    decreases vs.len(),
{
    if vs.len() == 0 {
        0
    } else {
        let rest = lenient_sum(vs.drop_last());
        let v = vs.last();
        if is_int_literal(v) && i64::MIN <= int_literal_val(v) <= i64::MAX {
            i64_sat_add(rest, int_literal_val(v))
        } else {
            rest
        }
    }
}

impl SumReducer {
    /// Parses each value as an integer, silently ignores values that do not
    /// parse, and returns the sum (clamped at the bounds of `i64`) rendered
    /// in decimal.
    pub fn reduce(&self, _key: &str, values: Vec<String>) -> (r: String)
        ensures
            r@ == dec_int(lenient_sum(values@.map_values(|v: String| v@))),
    {
        let ghost vals = values@.map_values(|v: String| v@);
        let mut acc: i64 = 0;
        let n = values.len();
        let mut i: usize = 0;
        while i < n
            invariant
                i <= n,
                n == vals.len(),
                values@.map_values(|v: String| v@) == vals,
                acc as int == lenient_sum(vals.take(i as int)),
            decreases n - i,
        {
            proof {
                assert(vals.take(i + 1).drop_last() =~= vals.take(i as int));
                assert(vals.take(i + 1).last() == vals[i as int]);
                assert(vals[i as int] == values@[i as int]@);
            }
            match parse_i64(values[i].as_str()) {
                Some(v) => {
                    acc = sat_add_i64(acc, v);
                },
                None => {
                },
            }
            i += 1;
        }
        proof {
            assert(vals.take(n as int) =~= vals);
        }
        i64_to_string(acc)
    }
}

/// A named map implementation: the closed set the registry dispatches to.
#[derive(Clone, Copy, Debug)]
pub enum MapFn {
    WordCount,
}

/// A named reduce implementation: the closed set the registry dispatches to.
#[derive(Clone, Copy, Debug)]
pub enum ReduceFn {
    Sum,
}

/// The pairs a map implementation emits for the given input.
pub open spec fn map_fn_spec(f: MapFn, s: Seq<char>) -> Seq<(Seq<char>, Seq<char>)> {
    match f {
        MapFn::WordCount => word_count_pairs(s),
    }
}

/// The value a reduce implementation returns for one key and its values.
pub open spec fn reduce_fn_spec(f: ReduceFn, key: Seq<char>, values: Seq<Seq<char>>) -> Seq<char> {
    match f {
        ReduceFn::Sum => dec_int(lenient_sum(values)),
    }
}

/// Whether a value meets a reduce implementation's parsing expectations
/// (the strict admission test the protocol layer applies before reducing).
pub open spec fn reduce_fn_accepts(f: ReduceFn, value: Seq<char>) -> bool {
    match f {
        ReduceFn::Sum => is_int_literal(value) && i64::MIN <= int_literal_val(value) <= i64::MAX,
    }
}

impl MapFn {
    /// Runs the map implementation on one input unit.
    pub fn apply(&self, input: &str) -> (r: Vec<(String, String)>)
        ensures
            r@.map_values(|p: (String, String)| (p.0@, p.1@)) == map_fn_spec(*self, input@),
    {
        match self {
            MapFn::WordCount => WordCountMapper.map(input),
        }
    }
}

impl ReduceFn {
    /// Runs the reduce implementation on one key and its collected values.
    pub fn apply(&self, key: &str, values: Vec<String>) -> (r: String)
        ensures
            r@ == reduce_fn_spec(*self, key@, values@.map_values(|v: String| v@)),
    {
        match self {
            ReduceFn::Sum => SumReducer.reduce(key, values),
        }
    }

    /// Whether one value meets this implementation's parsing expectations.
    pub fn accepts(&self, value: &str) -> (r: bool)
        ensures
            r == reduce_fn_accepts(*self, value@),
    {
        match self {
            ReduceFn::Sum => parse_i64(value).is_some(),
        }
    }
}

/// Resolution in a name-to-binding list: the most recently added binding
/// for the name wins; absent names resolve to `None`.
pub open spec fn assoc_lookup<T>(entries: Seq<(Seq<char>, T)>, name: Seq<char>) -> Option<T>
    decreases entries.len(),
{
    if entries.len() == 0 {
        None
    } else if entries.last().0 == name {
        Some(entries.last().1)
    } else {
        assoc_lookup(entries.drop_last(), name)
    }
}

/// Law: registration is last-write-wins. After binding `name` to `f`,
/// `name` resolves to `f`, and every other name resolves as before.
pub proof fn lemma_register_last_write_wins<T>(
    entries: Seq<(Seq<char>, T)>,
    name: Seq<char>,
    f: T,
    other: Seq<char>,
)
    ensures
        assoc_lookup(entries.push((name, f)), name) == Some(f),
        other != name ==> assoc_lookup(entries.push((name, f)), other) == assoc_lookup(
            entries,
            other,
        ),
{
    assert(entries.push((name, f)).drop_last() =~= entries);
}

/// Law: a name bound by no entry resolves to `None`, an absence indicator
/// rather than an error.
pub proof fn lemma_unregistered_resolves_none<T>(entries: Seq<(Seq<char>, T)>, name: Seq<char>)
    requires
        forall|i: int| 0 <= i < entries.len() ==> entries[i].0 != name,
    ensures
        assoc_lookup(entries, name) == None::<T>,
    decreases entries.len(),
{
    if entries.len() > 0 {
        lemma_unregistered_resolves_none(entries.drop_last(), name);
    }
}

/// The registry of named map and reduce functions. Registration overwrites
/// any earlier binding for the same name (last writer wins).
pub struct FunctionRegistry {
    map_functions: Vec<(String, MapFn)>,
    reduce_functions: Vec<(String, ReduceFn)>,
}

impl FunctionRegistry {
    /// The registry's map bindings, oldest first.
    pub closed spec fn map_entries(self) -> Seq<(Seq<char>, MapFn)> {
        self.map_functions@.map_values(|e: (String, MapFn)| (e.0@, e.1))
    }

    /// The registry's reduce bindings, oldest first.
    pub closed spec fn reduce_entries(self) -> Seq<(Seq<char>, ReduceFn)> {
        self.reduce_functions@.map_values(|e: (String, ReduceFn)| (e.0@, e.1))
    }

    /// Builds a registry with the two default bindings that support a
    /// zero-configuration job: `word_count` and `sum`.
    pub fn new() -> (r: FunctionRegistry)
        ensures
            r.map_entries() == seq![("word_count"@, MapFn::WordCount)],
            r.reduce_entries() == seq![("sum"@, ReduceFn::Sum)],
    {
        let mut registry = FunctionRegistry { map_functions: Vec::new(), reduce_functions: Vec::new() };
        registry.register_map_function("word_count".to_owned(), MapFn::WordCount);
        registry.register_reduce_function("sum".to_owned(), ReduceFn::Sum);
        proof {
            assert(registry.map_entries() =~= seq![("word_count"@, MapFn::WordCount)]);
            assert(registry.reduce_entries() =~= seq![("sum"@, ReduceFn::Sum)]);
        }
        registry
    }

    /// Binds `name` to a map implementation, shadowing any earlier binding.
    pub fn register_map_function(&mut self, name: String, function: MapFn)
        ensures
            final(self).map_entries() == old(self).map_entries().push((name@, function)),
            final(self).reduce_entries() == old(self).reduce_entries(),
    {
        let ghost prev = self.map_entries();
        self.map_functions.push((name, function));
        proof {
            assert(self.map_entries() =~= prev.push((name@, function)));
        }
    }

    /// Binds `name` to a reduce implementation, shadowing any earlier binding.
    pub fn register_reduce_function(&mut self, name: String, function: ReduceFn)
        ensures
            final(self).reduce_entries() == old(self).reduce_entries().push((name@, function)),
            final(self).map_entries() == old(self).map_entries(),
    {
        let ghost prev = self.reduce_entries();
        self.reduce_functions.push((name, function));
        proof {
            assert(self.reduce_entries() =~= prev.push((name@, function)));
        }
    }

    /// Resolves a map function name to its most recently registered
    /// implementation; unregistered names give `None`.
    pub fn get_map_function(&self, name: &str) -> (r: Option<MapFn>)
        ensures
            r == assoc_lookup(self.map_entries(), name@),
    {
        let ghost entries = self.map_entries();
        let mut i: usize = self.map_functions.len();
        proof {
            assert(entries.take(i as int) =~= entries);
        }
        while i > 0
            invariant
                i <= self.map_functions.len(),
                entries == self.map_entries(),
                entries.len() == self.map_functions@.len(),
                assoc_lookup(entries, name@) == assoc_lookup(entries.take(i as int), name@),
            decreases i,
        {
            i = i - 1;
            proof {
                assert(entries[i as int] == (self.map_functions@[i as int].0@,
                self.map_functions@[i as int].1));
                assert(entries.take(i + 1).last() == entries[i as int]);
                assert(entries.take(i + 1).drop_last() =~= entries.take(i as int));
            }
            if str_eq(self.map_functions[i].0.as_str(), name) {
                return Some(self.map_functions[i].1);
            }
        }
        proof {
            assert(entries.take(0) =~= Seq::<(Seq<char>, MapFn)>::empty());
        }
        None
    }

    /// Resolves a reduce function name to its most recently registered
    /// implementation; unregistered names give `None`.
    pub fn get_reduce_function(&self, name: &str) -> (r: Option<ReduceFn>)
        ensures
            r == assoc_lookup(self.reduce_entries(), name@),
    {
        let ghost entries = self.reduce_entries();
        let mut i: usize = self.reduce_functions.len();
        proof {
            assert(entries.take(i as int) =~= entries);
        }
        while i > 0
            invariant
                i <= self.reduce_functions.len(),
                entries == self.reduce_entries(),
                entries.len() == self.reduce_functions@.len(),
                assoc_lookup(entries, name@) == assoc_lookup(entries.take(i as int), name@),
            decreases i,
        {
            i = i - 1;
            proof {
                assert(entries[i as int] == (self.reduce_functions@[i as int].0@,
                self.reduce_functions@[i as int].1));
                assert(entries.take(i + 1).last() == entries[i as int]);
                assert(entries.take(i + 1).drop_last() =~= entries.take(i as int));
            }
            if str_eq(self.reduce_functions[i].0.as_str(), name) {
                return Some(self.reduce_functions[i].1);
            }
        }
        proof {
            assert(entries.take(0) =~= Seq::<(Seq<char>, ReduceFn)>::empty());
        }
        None
    }
}

} // verus!
