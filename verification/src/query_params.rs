//! Query parameters: an ordered mapping from a key to its values that is never
//! changed in place. Every operation that changes something returns a new
//! value and leaves the one it was called on as it was.

use crate::error::{EncodingError, ImmutableContainerError};
use crate::multimap::{
    append_spec, build_spec, extend_spec, first_values_spec, has_key,
    lemma_items_of_all, well_formed,
    insert_spec, items_spec, keys_of, lemma_append, lemma_build, lemma_extend, lemma_insert,
    lemma_remove, multi_items_spec, no_entries, pairs_of, remove_spec, values_of, Entries, Pair,
};
use crate::ordered_map::{
    map_append, map_clone, map_contains_key, map_entries, map_extend, map_get, map_get_index,
    map_insert, map_len, map_new, map_shift_remove,
};
use crate::percent::{urlencode, urlencode_spec};
use crate::text::{
    append_chars, from_chars, join, join_spec, lemma_chars_deep_view, lemma_rows_push, split, split_spec,
    to_chars,
};
use indexmap::IndexMap;
use vstd::prelude::*;
use vstd::string::StringExecFns;
use vstd::utf8::{decode_utf8, encode_utf8, valid_utf8};

verus! {

/// A single value as a caller supplies it.
#[derive(Debug, Clone, PartialEq, Eq)]
pub enum Primitive {
    /// A truth value, written `true` or `false`.
    Bool(bool),
    /// No value, written as the empty string.
    Null,
    /// Any other value, by its default string form.
    Text(String),
}

/// What a key of a keyed structure maps to.
#[derive(Debug, Clone, PartialEq, Eq)]
pub enum QueryValue {
    /// One value.
    Single(Primitive),
    /// A sequence of values, each of which becomes a value of the key.
    Many(Vec<Primitive>),
}

/// The query parameters.
#[derive(Debug)]
pub struct QueryParams {
    params: IndexMap<String, Vec<String>>,
}

/// What query parameters can be built from.
#[derive(Debug)]
pub enum QuerySource {
    /// Nothing: no parameters.
    Nothing,
    /// Other query parameters, which are copied.
    Instance(QueryParams),
    /// A raw query string.
    Text(String),
    /// A raw query string as bytes, which have to be UTF-8.
    Bytes(Vec<u8>),
    /// Pairs of a key and a value; a key may come more than once.
    Pairs(Vec<(String, String)>),
    /// Keys with one value or a sequence of values each.
    Keyed(Vec<(String, QueryValue)>),
}

/// Why query parameters could not be built.
#[derive(Debug, Clone, Copy, PartialEq, Eq)]
pub enum QueryError {
    /// More than one source was given.
    TooManyArguments,
    /// The bytes of a source are not UTF-8.
    Encoding(EncodingError),
}

impl View for QueryParams {
    type V = Entries;

    closed spec fn view(&self) -> Entries {
        map_entries(self.params)
    }
}

/// The string form of a single value.
pub open spec fn primitive_text(p: Primitive) -> Seq<char> {
    match p {
        Primitive::Bool(b) => if b {
            "true"@
        } else {
            "false"@
        },
        Primitive::Null => Seq::<char>::empty(),
        Primitive::Text(s) => s@,
    }
}

/// The values that a key of a keyed structure gets.
pub open spec fn value_texts(v: QueryValue) -> Seq<Seq<char>> {
    match v {
        QueryValue::Single(p) => seq![primitive_text(p)],
        QueryValue::Many(ps) => Seq::new(ps@.len(), |i: int| primitive_text(ps@[i])),
    }
}

/// The entries that a keyed structure writes: one for each of its items, but
/// for an item with an empty sequence, which writes none.
pub open spec fn keyed_entries(items: Seq<(String, QueryValue)>) -> Entries
    decreases items.len(),
{
    if items.len() == 0 {
        no_entries()
    } else if value_texts(items.last().1).len() == 0 {
        keyed_entries(items.drop_last())
    } else {
        keyed_entries(items.drop_last()).push((items.last().0@, value_texts(items.last().1)))
    }
}

/// The pair that one piece of a query string writes: a key and a value around
/// the one `=`, or a key alone. A piece with more than one `=` writes none.
pub open spec fn piece_pair(piece: Seq<char>) -> Option<Pair> {
    let parts = split_spec(piece, '=');
    if parts.len() == 2 {
        Some((parts[0], parts[1]))
    } else if parts.len() == 1 {
        Some((parts[0], Seq::<char>::empty()))
    } else {
        None
    }
}

/// The pairs that the pieces write, in their order.
pub open spec fn piece_pairs(pieces: Seq<Seq<char>>) -> Seq<Pair>
    decreases pieces.len(),
{
    if pieces.len() == 0 {
        Seq::<Pair>::empty()
    } else {
        match piece_pair(pieces.last()) {
            Some(pair) => piece_pairs(pieces.drop_last()).push(pair),
            None => piece_pairs(pieces.drop_last()),
        }
    }
}

/// The entries that a raw query string writes: none for the empty string,
/// else those of the pairs of its pieces between `&`.
pub open spec fn parse_query(s: Seq<char>) -> Entries {
    if s.len() == 0 {
        no_entries()
    } else {
        build_spec(piece_pairs(split_spec(s, '&')))
    }
}

/// The entries that a source writes, or nothing where its bytes are not UTF-8.
pub open spec fn source_entries(source: QuerySource) -> Option<Entries> {
    match source {
        QuerySource::Nothing => Some(no_entries()),
        QuerySource::Instance(q) => Some(q@),
        QuerySource::Text(s) => Some(parse_query(s@)),
        QuerySource::Bytes(b) => if valid_utf8(b@) {
            Some(parse_query(decode_utf8(b@)))
        } else {
            None
        },
        QuerySource::Pairs(pairs) => Some(build_spec(pairs.deep_view())),
        QuerySource::Keyed(items) => Some(extend_spec(no_entries(), keyed_entries(items@))),
    }
}

pub open spec fn text_view(o: Option<String>) -> Option<Seq<char>> {
    match o {
        Some(s) => Some(s@),
        None => None,
    }
}

proof fn lemma_strings_push(before: Vec<String>, after: Vec<String>, s: String)
    requires
        after@ == before@.push(s),
    ensures
        after.deep_view() == before.deep_view().push(s@),
{
    assert(after.deep_view() =~= before.deep_view().push(s@));
}

proof fn lemma_pairs_push(before: Vec<(String, String)>, after: Vec<(String, String)>, k: String, v: String)
    requires
        after@ == before@.push((k, v)),
    ensures
        after.deep_view() == before.deep_view().push((k@, v@)),
{
    assert(after.deep_view() =~= before.deep_view().push((k@, v@)));
}

/// `core::str::from_utf8` turns bytes into the text of which they are the
/// UTF-8 encoding, and fails where they are the encoding of none.
#[verifier::external_body]
fn text_of_bytes(bytes: &[u8]) -> (r: Option<&str>)
    ensures
        r is Some == valid_utf8(bytes@),
        r matches Some(s) ==> s@ == decode_utf8(bytes@),
{
    match core::str::from_utf8(bytes) {
        Ok(s) => Some(s),
        Err(_) => None,
    }
}

/// The string form of a single value: `true` or `false` for a truth value,
/// the empty string for none, its own text for any other.
pub fn primitive_value_to_str(value: &Primitive) -> (r: String)
    ensures
        r@ == primitive_text(*value),
{
    match value {
        Primitive::Bool(b) => {
            if *b {
                "true".to_owned()
            } else {
                "false".to_owned()
            }
        },
        Primitive::Null => String::new(),
        Primitive::Text(s) => s.clone(),
    }
}

fn clone_strings(v: &Vec<String>) -> (r: Vec<String>)
    ensures
        r.deep_view() == v.deep_view(),
{
    let mut r: Vec<String> = Vec::new();
    let mut i: usize = 0;
    assert(r.deep_view() =~= v.deep_view().take(0));
    while i < v.len()
        invariant
            i <= v.len(),
            r.deep_view() == v.deep_view().take(i as int),
        decreases v.len() - i,
    {
        let ghost before = r;
        let s = v[i].clone();
        r.push(s);
        proof {
            lemma_strings_push(before, r, s);
            assert(v.deep_view().take(i + 1) =~= v.deep_view().take(i as int).push(v@[i as int]@));
        }
        i += 1;
    }
    assert(v.deep_view().take(v@.len() as int) =~= v.deep_view());
    r
}

impl Clone for QueryParams {
    fn clone(&self) -> (r: Self)
        ensures
            r@ == self@,
            well_formed(r@),
    {
        proof {
            use_type_invariant(self);
        }
        QueryParams { params: map_clone(&self.params) }
    }
}

impl QueryParams {
    #[verifier::type_invariant]
    spec fn is_well_formed(&self) -> bool {
        well_formed(map_entries(self.params))
    }

    /// Query parameters without entries.
    pub fn empty() -> (r: Self)
        ensures
            r@ == no_entries(),
            well_formed(r@),
    {
        QueryParams { params: map_new() }
    }

    /// The parameters that a raw query string writes.
    pub fn from_query_string(s: &str) -> (r: Self)
        ensures
            r@ == parse_query(s@),
            well_formed(r@),
    {
        let mut params = map_new();
        if s.is_empty() {
            return QueryParams { params };
        }
        let chars = to_chars(s);
        let pieces = split(&chars, '&');
        let mut i: usize = 0;
        assert(pieces.deep_view().take(0) =~= Seq::<Seq<char>>::empty());
        proof {
            lemma_build(piece_pairs(pieces.deep_view().take(0)));
        }
        while i < pieces.len()
            invariant
                i <= pieces.len(),
                map_entries(params) == build_spec(piece_pairs(pieces.deep_view().take(i as int))),
            decreases pieces.len() - i,
        {
            let ghost done = piece_pairs(pieces.deep_view().take(i as int));
            let ghost upto = pieces.deep_view().take(i + 1);
            proof {
                assert(upto.drop_last() =~= pieces.deep_view().take(i as int));
                lemma_chars_deep_view(pieces@[i as int]);
                assert(upto.last() == pieces@[i as int]@);
            }
            let parts = split(&pieces[i], '=');
            if parts.len() == 2 {
                proof {
                    lemma_chars_deep_view(parts@[0]);
                    lemma_chars_deep_view(parts@[1]);
                    let pair = (parts@[0]@, parts@[1]@);
                    assert(parts.deep_view()[0] == parts@[0]@);
                    assert(parts.deep_view()[1] == parts@[1]@);
                    assert(piece_pair(upto.last()) == Some(pair));
                    assert(done.push(pair).drop_last() =~= done);
                }
                map_append(&mut params, from_chars(&parts[0]), from_chars(&parts[1]));
            } else if parts.len() == 1 {
                proof {
                    lemma_chars_deep_view(parts@[0]);
                    let pair = (parts@[0]@, Seq::<char>::empty());
                    assert(parts.deep_view()[0] == parts@[0]@);
                    assert(piece_pair(upto.last()) == Some(pair));
                    assert(done.push(pair).drop_last() =~= done);
                }
                map_append(&mut params, from_chars(&parts[0]), String::new());
            }
            i += 1;
        }
        proof {
            assert(pieces.deep_view().take(pieces@.len() as int) =~= pieces.deep_view());
            lemma_build(piece_pairs(pieces.deep_view()));
        }
        QueryParams { params }
    }

    /// The parameters that pairs of a key and a value write: each pair adds
    /// its value behind the values that its key has so far.
    pub fn from_pairs(pairs: &Vec<(String, String)>) -> (r: Self)
        ensures
            r@ == build_spec(pairs.deep_view()),
            well_formed(r@),
    {
        let mut params = map_new();
        let mut i: usize = 0;
        assert(pairs.deep_view().take(0) =~= Seq::<Pair>::empty());
        while i < pairs.len()
            invariant
                i <= pairs.len(),
                map_entries(params) == build_spec(pairs.deep_view().take(i as int)),
            decreases pairs.len() - i,
        {
            proof {
                let upto = pairs.deep_view().take(i + 1);
                assert(upto.drop_last() =~= pairs.deep_view().take(i as int));
                assert(upto.last() == (pairs@[i as int].0@, pairs@[i as int].1@));
            }
            map_append(&mut params, pairs[i].0.clone(), pairs[i].1.clone());
            i += 1;
        }
        proof {
            assert(pairs.deep_view().take(pairs@.len() as int) =~= pairs.deep_view());
            lemma_build(pairs.deep_view());
        }
        QueryParams { params }
    }
}

/// What `QueryParams::new` returns for its sources and its keyed items: the
/// entries, or the reason of the failure.
pub open spec fn new_spec(args: Seq<QuerySource>, kwargs: Option<Seq<(String, QueryValue)>>) -> Result<
    Entries,
    QueryError,
> {
    if args.len() > 1 {
        Err(QueryError::TooManyArguments)
    } else if args.len() == 1 {
        match source_entries(args[0]) {
            Some(e) => Ok(e),
            None => Err(QueryError::Encoding(EncodingError {  })),
        }
    } else {
        match kwargs {
            Some(items) => Ok(extend_spec(no_entries(), keyed_entries(items))),
            None => Ok(no_entries()),
        }
    }
}

/// The values that a key of a keyed structure gets, as strings.
fn value_strings(value: &QueryValue) -> (r: Vec<String>)
    ensures
        r.deep_view() == value_texts(*value),
{
    let mut r: Vec<String> = Vec::new();
    match value {
        QueryValue::Single(p) => {
            let ghost before = r;
            let s = primitive_value_to_str(p);
            r.push(s);
            proof {
                lemma_strings_push(before, r, s);
                assert(before.deep_view() =~= Seq::<Seq<char>>::empty());
                assert(r.deep_view() =~= seq![primitive_text(*p)]);
            }
        },
        QueryValue::Many(ps) => {
            let mut i: usize = 0;
            assert(r.deep_view() =~= value_texts(*value).take(0));
            while i < ps.len()
                invariant
                    i <= ps.len(),
                    *value == QueryValue::Many(*ps),
                    r.deep_view() == value_texts(*value).take(i as int),
                decreases ps.len() - i,
            {
                let ghost before = r;
                let s = primitive_value_to_str(&ps[i]);
                r.push(s);
                proof {
                    lemma_strings_push(before, r, s);
                    assert(value_texts(*value).take(i + 1) =~= value_texts(*value).take(i as int).push(
                        primitive_text(ps@[i as int]),
                    ));
                }
                i += 1;
            }
            assert(value_texts(*value).take(ps@.len() as int) =~= value_texts(*value));
        },
    }
    r
}

impl QueryParams {
    /// The parameters that a keyed structure writes: each item gives its key
    /// the values of the item, in place of any that the key had. An item
    /// with an empty sequence gives nothing and changes nothing.
    pub fn from_keyed(items: &Vec<(String, QueryValue)>) -> (r: Self)
        ensures
            r@ == extend_spec(no_entries(), keyed_entries(items@)),
            well_formed(r@),
    {
        let mut params = map_new();
        let mut i: usize = 0;
        assert(items@.take(0) =~= Seq::<(String, QueryValue)>::empty());
        while i < items.len()
            invariant
                i <= items.len(),
                map_entries(params) == extend_spec(no_entries(), keyed_entries(items@.take(i as int))),
                well_formed(map_entries(params)),
            decreases items.len() - i,
        {
            let ghost upto = items@.take(i + 1);
            proof {
                assert(upto.drop_last() =~= items@.take(i as int));
                assert(upto.last() == items@[i as int]);
            }
            let values = value_strings(&items[i].1);
            if values.len() > 0 {
                proof {
                    let entry = (items@[i as int].0@, values.deep_view());
                    let before = keyed_entries(items@.take(i as int));
                    assert(keyed_entries(upto) == before.push(entry));
                    assert(before.push(entry).drop_last() =~= before);
                    lemma_insert(map_entries(params), entry.0, entry.1);
                }
                map_insert(&mut params, items[i].0.clone(), values);
            }
            i += 1;
        }
        assert(items@.take(items@.len() as int) =~= items@);
        QueryParams { params }
    }

    /// The parameters that a source writes. Bytes that are not UTF-8 write none.
    pub fn from_source(source: &QuerySource) -> (r: Result<Self, EncodingError>)
        ensures
            match r {
                Ok(q) => source_entries(*source) == Some(q@) && well_formed(q@),
                Err(_) => source_entries(*source) is None,
            },
    {
        match source {
            QuerySource::Nothing => Ok(QueryParams::empty()),
            QuerySource::Instance(q) => {
                proof {
                    use_type_invariant(q);
                }
                Ok(q.clone())
            },
            QuerySource::Text(s) => Ok(QueryParams::from_query_string(s.as_str())),
            QuerySource::Bytes(b) => {
                match text_of_bytes(b.as_slice()) {
                    Some(s) => Ok(QueryParams::from_query_string(s)),
                    None => Err(EncodingError {  }),
                }
            },
            QuerySource::Pairs(pairs) => Ok(QueryParams::from_pairs(pairs)),
            QuerySource::Keyed(items) => Ok(QueryParams::from_keyed(items)),
        }
    }

    /// Builds query parameters from at most one source or, where there is
    /// none, from keyed items; from nothing at all they are empty.
    pub fn new(args: &Vec<QuerySource>, kwargs: Option<&Vec<(String, QueryValue)>>) -> (r: Result<
        Self,
        QueryError,
    >)
        ensures
            match r {
                Ok(q) => new_spec(
                    args@,
                    match kwargs {
                        Some(items) => Some(items@),
                        None => None,
                    },
                ) == Ok::<Entries, QueryError>(q@) && well_formed(q@),
                Err(e) => new_spec(
                    args@,
                    match kwargs {
                        Some(items) => Some(items@),
                        None => None,
                    },
                ) == Err::<Entries, QueryError>(e),
            },
    {
        if args.len() > 1 {
            return Err(QueryError::TooManyArguments);
        }
        if args.len() == 1 {
            match QueryParams::from_source(&args[0]) {
                Ok(q) => Ok(q),
                Err(e) => Err(QueryError::Encoding(e)),
            }
        } else {
            match kwargs {
                Some(items) => Ok(QueryParams::from_keyed(items)),
                None => Ok(QueryParams::empty()),
            }
        }
    }

    /// The number of keys.
    pub fn len(&self) -> (n: usize)
        ensures
            n == self@.len(),
            well_formed(self@),
    {
        proof {
            use_type_invariant(self);
        }
        map_len(&self.params)
    }

    /// Whether there is no key at all.
    pub fn is_empty(&self) -> (r: bool)
        ensures
            r == (self@.len() == 0),
            well_formed(self@),
    {
        proof {
            use_type_invariant(self);
        }
        map_len(&self.params) == 0
    }

    /// Whether `key` has an entry.
    pub fn contains(&self, key: &str) -> (r: bool)
        ensures
            r == has_key(self@, key@),
            well_formed(self@),
    {
        proof {
            use_type_invariant(self);
        }
        map_contains_key(&self.params, key)
    }

    /// The keys, in the order in which they were first seen.
    pub fn keys(&self) -> (r: Vec<String>)
        ensures
            r.deep_view() == keys_of(self@),
            well_formed(self@),
    {
        proof {
            use_type_invariant(self);
        }
        let n = map_len(&self.params);
        let mut r: Vec<String> = Vec::new();
        let mut i: usize = 0;
        assert(r.deep_view() =~= keys_of(self@).take(0));
        while i < n
            invariant
                i <= n,
                n == self@.len(),
                r.deep_view() == keys_of(self@).take(i as int),
            decreases n - i,
        {
            match map_get_index(&self.params, i) {
                Some(pair) => {
                    let ghost before = r;
                    let k = pair.0.clone();
                    r.push(k);
                    proof {
                        lemma_strings_push(before, r, k);
                        assert(keys_of(self@).take(i + 1) =~= keys_of(self@).take(i as int).push(k@));
                    }
                },
                None => {},
            }
            i += 1;
        }
        assert(keys_of(self@).take(n as int) =~= keys_of(self@));
        r
    }

    /// The first value of every key, in the order of the keys.
    pub fn values(&self) -> (r: Vec<String>)
        ensures
            r.deep_view() == first_values_spec(self@),
            r@.len() == self@.len(),
            well_formed(self@),
    {
        proof {
            use_type_invariant(self);
            lemma_items_of_all(self@);
        }
        let n = map_len(&self.params);
        let mut r: Vec<String> = Vec::new();
        let mut i: usize = 0;
        assert(self@.take(0) =~= no_entries());
        assert(r.deep_view() =~= first_values_spec(self@.take(0)));
        while i < n
            invariant
                i <= n,
                n == self@.len(),
                r.deep_view() == first_values_spec(self@.take(i as int)),
            decreases n - i,
        {
            proof {
                let upto = self@.take(i + 1);
                assert(upto.drop_last() =~= self@.take(i as int));
                assert(upto.last() == self@[i as int]);
            }
            match map_get_index(&self.params, i) {
                Some(pair) => {
                    let values = pair.1;
                    if values.len() > 0 {
                        let ghost before = r;
                        let v = values[0].clone();
                        r.push(v);
                        proof {
                            lemma_strings_push(before, r, v);
                            assert(values.deep_view()[0] == v@);
                            assert(r.deep_view() =~= first_values_spec(self@.take(i + 1)));
                        }
                    } else {
                        assert(values.deep_view().len() == 0);
                        assert(r.deep_view() =~= first_values_spec(self@.take(i + 1)));
                    }
                },
                None => {},
            }
            i += 1;
        }
        assert(self@.take(n as int) =~= self@);
        r
    }

    /// Every key with its first value, in the order of the keys.
    pub fn items(&self) -> (r: Vec<(String, String)>)
        ensures
            r.deep_view() == items_spec(self@),
            r@.len() == self@.len(),
            well_formed(self@),
    {
        proof {
            use_type_invariant(self);
            lemma_items_of_all(self@);
        }
        let n = map_len(&self.params);
        let mut r: Vec<(String, String)> = Vec::new();
        let mut i: usize = 0;
        assert(self@.take(0) =~= no_entries());
        assert(r.deep_view() =~= items_spec(self@.take(0)));
        while i < n
            invariant
                i <= n,
                n == self@.len(),
                r.deep_view() == items_spec(self@.take(i as int)),
            decreases n - i,
        {
            proof {
                let upto = self@.take(i + 1);
                assert(upto.drop_last() =~= self@.take(i as int));
                assert(upto.last() == self@[i as int]);
            }
            match map_get_index(&self.params, i) {
                Some(pair) => {
                    let values = pair.1;
                    if values.len() > 0 {
                        let ghost before = r;
                        let k = pair.0.clone();
                        let v = values[0].clone();
                        r.push((k, v));
                        proof {
                            lemma_pairs_push(before, r, k, v);
                            assert(values.deep_view()[0] == v@);
                        }
                    } else {
                        assert(values.deep_view().len() == 0);
                    }
                },
                None => {},
            }
            i += 1;
        }
        assert(self@.take(n as int) =~= self@);
        r
    }

    /// Every pair of a key and one of its values: key by key, and for each
    /// key its values in their order.
    pub fn multi_items(&self) -> (r: Vec<(String, String)>)
        ensures
            r.deep_view() == multi_items_spec(self@),
            well_formed(self@),
    {
        proof {
            use_type_invariant(self);
        }
        let n = map_len(&self.params);
        let mut r: Vec<(String, String)> = Vec::new();
        let mut i: usize = 0;
        assert(self@.take(0) =~= no_entries());
        assert(r.deep_view() =~= multi_items_spec(self@.take(0)));
        while i < n
            invariant
                i <= n,
                n == self@.len(),
                r.deep_view() == multi_items_spec(self@.take(i as int)),
            decreases n - i,
        {
            proof {
                let upto = self@.take(i + 1);
                assert(upto.drop_last() =~= self@.take(i as int));
                assert(upto.last() == self@[i as int]);
            }
            match map_get_index(&self.params, i) {
                Some(pair) => {
                    let values = pair.1;
                    let ghost done = r.deep_view();
                    let ghost entry = self@[i as int];
                    let mut j: usize = 0;
                    assert(r.deep_view() =~= done + pairs_of(entry).take(0));
                    while j < values.len()
                        invariant
                            j <= values.len(),
                            values.deep_view() == entry.1,
                            pair.0@ == entry.0,
                            r.deep_view() == done + pairs_of(entry).take(j as int),
                        decreases values.len() - j,
                    {
                        let ghost before = r;
                        let k = pair.0.clone();
                        let v = values[j].clone();
                        r.push((k, v));
                        proof {
                            lemma_pairs_push(before, r, k, v);
                            assert(values.deep_view()[j as int] == v@);
                            assert(pairs_of(entry).take(j + 1) =~= pairs_of(entry).take(j as int).push((k@, v@)));
                            assert(r.deep_view() =~= done + pairs_of(entry).take(j + 1));
                        }
                        j += 1;
                    }
                    assert(pairs_of(entry).take(values@.len() as int) =~= pairs_of(entry));
                },
                None => {},
            }
            i += 1;
        }
        assert(self@.take(n as int) =~= self@);
        r
    }

    /// All values of `key`, oldest first; none where it has no entry.
    pub fn get_list(&self, key: &str) -> (r: Vec<String>)
        ensures
            r.deep_view() == values_of(self@, key@),
            well_formed(self@),
    {
        proof {
            use_type_invariant(self);
        }
        match map_get(&self.params, key) {
            Some(values) => clone_strings(values),
            None => {
                let r: Vec<String> = Vec::new();
                assert(r.deep_view() =~= Seq::<Seq<char>>::empty());
                r
            },
        }
    }

    /// The first value of `key`, or `default` where it has none.
    pub fn get(&self, key: &str, default: Option<String>) -> (r: Option<String>)
        ensures
            text_view(r) == if values_of(self@, key@).len() > 0 {
                Some(values_of(self@, key@)[0])
            } else {
                text_view(default)
            },
    {
        match map_get(&self.params, key) {
            Some(values) => {
                if values.len() > 0 {
                    let v = values[0].clone();
                    assert(values.deep_view()[0] == v@);
                    Some(v)
                } else {
                    assert(values.deep_view().len() == 0);
                    default
                }
            },
            None => default,
        }
    }

    /// The first value of `key`, or nothing where it has no value.
    pub fn get_item(&self, key: &str) -> (r: Option<String>)
        ensures
            text_view(r) == if values_of(self@, key@).len() > 0 {
                Some(values_of(self@, key@)[0])
            } else {
                None
            },
    {
        self.get(key, None)
    }

    /// A copy in which `key` has the one value `value`, in place of any that
    /// it had. A key that is new comes last.
    pub fn set(&self, key: String, value: &Primitive) -> (r: Self)
        ensures
            r@ == insert_spec(self@, key@, seq![primitive_text(*value)]),
            well_formed(r@),
    {
        proof {
            use_type_invariant(self);
        }
        let mut params = map_clone(&self.params);
        let mut values: Vec<String> = Vec::new();
        let ghost before = values;
        let text = primitive_value_to_str(value);
        values.push(text);
        proof {
            lemma_strings_push(before, values, text);
            assert(before.deep_view() =~= Seq::<Seq<char>>::empty());
            assert(values.deep_view() =~= seq![primitive_text(*value)]);
            lemma_insert(self@, key@, values.deep_view());
        }
        map_insert(&mut params, key, values);
        QueryParams { params }
    }

    /// A copy in which `value` stands behind the values of `key`. A key that
    /// is new comes last.
    pub fn add(&self, key: &str, value: &Primitive) -> (r: Self)
        ensures
            r@ == append_spec(self@, key@, primitive_text(*value)),
            well_formed(r@),
    {
        proof {
            use_type_invariant(self);
            lemma_append(self@, key@, primitive_text(*value));
        }
        let mut params = map_clone(&self.params);
        let text = primitive_value_to_str(value);
        map_append(&mut params, key.to_owned(), text);
        QueryParams { params }
    }

    /// A copy without `key`; the other keys keep their order.
    pub fn remove(&self, key: &str) -> (r: Self)
        ensures
            r@ == remove_spec(self@, key@),
            well_formed(r@),
    {
        proof {
            use_type_invariant(self);
            lemma_remove(self@, key@);
        }
        let mut params = map_clone(&self.params);
        map_shift_remove(&mut params, key);
        QueryParams { params }
    }

    /// A copy in which every key of `params` has the values it has there, in
    /// place of any that it had here; without `params`, a plain copy.
    pub fn merge(&self, params: Option<&QuerySource>) -> (r: Result<Self, EncodingError>)
        ensures
            match r {
                Ok(q) => well_formed(q@) && match params {
                    Some(source) => source_entries(*source) matches Some(other) && q@ == extend_spec(
                        self@,
                        other,
                    ),
                    None => q@ == self@,
                },
                Err(_) => params matches Some(source) && source_entries(*source) is None,
            },
    {
        proof {
            use_type_invariant(self);
        }
        match params {
            Some(source) => {
                let mut new_params = map_clone(&self.params);
                match QueryParams::from_source(source) {
                    Ok(other) => {
                        proof {
                            lemma_extend(self@, other@);
                        }
                        map_extend(&mut new_params, other.params);
                        Ok(QueryParams { params: new_params })
                    },
                    Err(e) => Err(e),
                }
            },
            None => Ok(self.clone()),
        }
    }

    /// Always fails: query parameters are not changed in place.
    pub fn update(&self, params: Option<&QuerySource>) -> (r: Result<Self, ImmutableContainerError>)
        ensures
            r matches Err(e) && e.message@
                == "QueryParams are immutable since 0.18.0.  Use `q = q.merge(...)` to create an updated copy."@,
    {
        Err(
            ImmutableContainerError::new(
                "QueryParams are immutable since 0.18.0.  Use `q = q.merge(...)` to create an updated copy.",
            ),
        )
    }

    /// Always fails: query parameters are not changed in place.
    pub fn set_item(&self, key: String, value: String) -> (r: Result<(), ImmutableContainerError>)
        ensures
            r matches Err(e) && e.message@
                == "QueryParams are immutable since 0.18.0. Use `q = q.set(key, value)` to create an updated copy."@,
    {
        Err(
            ImmutableContainerError::new(
                "QueryParams are immutable since 0.18.0. Use `q = q.set(key, value)` to create an updated copy.",
            ),
        )
    }
}

/// A text as it stands in a query string.
pub open spec fn urlencode_text(s: Seq<char>) -> Seq<char> {
    urlencode_spec(encode_utf8(s))
}

/// A pair as it stands in a query string: the key, `=`, the value.
pub open spec fn pair_text(p: Pair) -> Seq<char> {
    urlencode_text(p.0).push('=') + urlencode_text(p.1)
}

pub open spec fn pair_texts(pairs: Seq<Pair>) -> Seq<Seq<char>> {
    Seq::new(pairs.len(), |i: int| pair_text(pairs[i]))
}

/// The canonical string form: every pair of every key, in the order of the
/// keys and of their values, with `&` between the pairs.
pub open spec fn canonical(e: Entries) -> Seq<char> {
    join_spec(pair_texts(multi_items_spec(e)), '&')
}

impl QueryParams {
    /// The canonical string form of the parameters. It keeps the order of the
    /// keys, so two values that are equal may differ in it.
    pub fn to_string(&self) -> (r: String)
        ensures
            r@ == canonical(self@),
    {
        let items = self.multi_items();
        let mut pieces: Vec<Vec<char>> = Vec::new();
        let mut i: usize = 0;
        let ghost texts = pair_texts(items.deep_view());
        assert(pieces.deep_view() =~= texts.take(0));
        while i < items.len()
            invariant
                i <= items.len(),
                texts == pair_texts(items.deep_view()),
                pieces.deep_view() == texts.take(i as int),
            decreases items.len() - i,
        {
            let key = urlencode(items[i].0.as_str());
            let value = urlencode(items[i].1.as_str());
            let mut piece = to_chars(key.as_str());
            piece.push('=');
            let value_chars = to_chars(value.as_str());
            append_chars(&mut piece, &value_chars);
            let ghost before = pieces;
            pieces.push(piece);
            proof {
                lemma_rows_push(before, pieces, piece);
                assert(items.deep_view()[i as int] == (items@[i as int].0@, items@[i as int].1@));
                assert(piece@ == texts[i as int]);
                assert(texts.take(i + 1) =~= texts.take(i as int).push(texts[i as int]));
            }
            i += 1;
        }
        assert(texts.take(items@.len() as int) =~= texts);
        let joined = join(&pieces, '&');
        from_chars(&joined)
    }

    /// The canonical string form inside `QueryParams('` and `')`.
    pub fn repr(&self) -> (r: String)
        ensures
            r@ == "QueryParams('"@ + canonical(self@) + "')"@,
    {
        let mut r = "QueryParams('".to_owned();
        let text = self.to_string();
        r.append(text.as_str());
        r.append("')");
        r
    }

    /// The keys in their order, to be taken one after the other.
    pub fn iter(&self) -> (r: QueryParamsKeysIterator)
        ensures
            r@ == keys_of(self@),
    {
        let keys = self.keys();
        assert(keys.deep_view().skip(0) =~= keys.deep_view());
        QueryParamsKeysIterator { keys, position: 0 }
    }
}

/// The keys of query parameters that are still to come, in their order.
#[derive(Debug)]
pub struct QueryParamsKeysIterator {
    keys: Vec<String>,
    position: usize,
}

impl View for QueryParamsKeysIterator {
    type V = Seq<Seq<char>>;

    closed spec fn view(&self) -> Seq<Seq<char>> {
        self.keys.deep_view().skip(self.position as int)
    }
}

impl QueryParamsKeysIterator {
    #[verifier::type_invariant]
    spec fn position_in_range(&self) -> bool {
        self.position <= self.keys@.len()
    }

    /// Takes the next key, if one is left.
    pub fn next(&mut self) -> (r: Option<String>)
        ensures
            old(self)@.len() == 0 ==> r is None && final(self)@ == old(self)@,
            old(self)@.len() > 0 ==> text_view(r) == Some(old(self)@[0]) && final(self)@ == old(self)@.skip(1),
    {
        proof {
            use_type_invariant(&*self);
        }
        if self.position < self.keys.len() {
            let key = self.keys[self.position].clone();
            proof {
                assert(self.keys.deep_view().skip(self.position as int + 1) =~= self.keys.deep_view().skip(
                    self.position as int,
                ).skip(1));
            }
            self.position = self.position + 1;
            Some(key)
        } else {
            None
        }
    }
}

} // verus!
