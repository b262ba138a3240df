//! Options container for module words: string-keyed optional parameters
//! built from a flat array of key-value pairs.

use vstd::prelude::*;
use crate::literals::{
    lemma_pairs_view, lemma_pairs_view_ext, lemma_values_view, pairs_view, value_view,
    values_view, ForthicValue, ValueSpec,
};

verus! {

/// A container of optional word parameters, built from a flat array
/// `[key1, val1, key2, val2, ...]` whose keys are strings. Lookup is by
/// key; a later pair with the same key replaces an earlier one.
#[derive(Debug, PartialEq)]
#[verifier::ext_equal]
pub struct WordOptions {
    pub entries: Vec<(String, ForthicValue)>,
}

impl Clone for WordOptions {
    /// A deep copy with the same model.
    #[verifier::loop_isolation(false)]
    fn clone(&self) -> (r: Self)
        ensures
            r@ == self@,
            pairs_view(r.entries@) == pairs_view(self.entries@),
        decreases *self,
    {
        let mut out: Vec<(String, ForthicValue)> = Vec::new();
        let mut i: usize = 0;
        while i < self.entries.len()
            invariant
                i <= self.entries@.len(),
                out@.len() == i,
                forall|j: int|
                    0 <= j < i ==> (#[trigger] out@[j]).0@ == self.entries@[j].0@ && value_view(
                        out@[j].1,
                    ) == value_view(self.entries@[j].1),
            decreases self.entries@.len() - i,
        {
            proof {
                assert(decreases_to!(*self => self.entries));
                assert(decreases_to!(self.entries => self.entries@[i as int]));
                assert(decreases_to!(self.entries@[i as int] => self.entries@[i as int].1));
            }
            let key = self.entries[i].0.clone();
            let val = self.entries[i].1.clone();
            out.push((key, val));
            i = i + 1;
        }
        proof {
            lemma_pairs_view_ext(out@, self.entries@);
            lemma_entries_map_ext(out@, self.entries@);
        }
        WordOptions { entries: out }
    }
}

impl View for WordOptions {
    type V = Map<Seq<char>, ValueSpec>;

    /// The options as a map from key to value model; later pairs win.
    open spec fn view(&self) -> Map<Seq<char>, ValueSpec> {
        spec_entries_map(self.entries@)
    }
}

/// The map that an entry list denotes: later entries replace earlier ones.
pub open spec fn spec_entries_map(entries: Seq<(String, ForthicValue)>) -> Map<
    Seq<char>,
    ValueSpec,
>
    decreases entries.len(),
{
    if entries.len() == 0 {
        Map::empty()
    } else {
        spec_entries_map(entries.drop_last()).insert(
            entries.last().0@,
            value_view(entries.last().1),
        )
    }
}

/// Entry lists with equal keys and equal value models entry by entry
/// denote the same map.
proof fn lemma_entries_map_ext(a: Seq<(String, ForthicValue)>, b: Seq<(String, ForthicValue)>)
    requires
        a.len() == b.len(),
        forall|i: int|
            0 <= i < a.len() ==> (#[trigger] a[i]).0@ == b[i].0@ && value_view(a[i].1)
                == value_view(b[i].1),
    ensures
        spec_entries_map(a) == spec_entries_map(b),
    decreases a.len(),
{
    if a.len() == 0 {
        assert(spec_entries_map(a) =~= spec_entries_map(b));
    } else {
        assert(forall|i: int| 0 <= i < a.len() - 1 ==> #[trigger] a.drop_last()[i] == a[i]);
        assert(forall|i: int| 0 <= i < b.len() - 1 ==> #[trigger] b.drop_last()[i] == b[i]);
        lemma_entries_map_ext(a.drop_last(), b.drop_last());
        assert(a.last() == a[a.len() - 1]);
        assert(b.last() == b[b.len() - 1]);
        assert(spec_entries_map(a) =~= spec_entries_map(b));
    }
}

/// What building options from a flat array of value models yields: the
/// map of its pairs if the array has even length and every key is a
/// string, and nothing otherwise.
pub open spec fn spec_from_flat_array(flat: Seq<ValueSpec>) -> Option<Map<Seq<char>, ValueSpec>>
    decreases flat.len(),
{
    if flat.len() % 2 != 0 {
        None
    } else if flat.len() == 0 {
        Some(Map::empty())
    } else {
        match spec_from_flat_array(flat.drop_last().drop_last()) {
            Some(m) => match flat[flat.len() - 2] {
                ValueSpec::Str(k) => Some(m.insert(k, flat.last())),
                _ => None,
            },
            None => None,
        }
    }
}

/// The pairs a flat array denotes, in order: nothing when the length is
/// odd or a key is not a string.
pub open spec fn spec_flat_pairs(flat: Seq<ValueSpec>) -> Option<Seq<(Seq<char>, ValueSpec)>>
    decreases flat.len(),
{
    if flat.len() % 2 != 0 {
        None
    } else if flat.len() == 0 {
        Some(Seq::empty())
    } else {
        match spec_flat_pairs(flat.drop_last().drop_last()) {
            Some(ps) => match flat[flat.len() - 2] {
                ValueSpec::Str(k) => Some(ps.push((k, flat.last()))),
                _ => None,
            },
            None => None,
        }
    }
}

impl WordOptions {
    /// An empty options container.
    pub fn new() -> (r: Self)
        ensures
            r@ == Map::<Seq<char>, ValueSpec>::empty(),
            r.entries@.len() == 0,
    {
        WordOptions { entries: Vec::new() }
    }

    /// Build options from a flat array of key-value pairs.
    ///
    /// Fails exactly when the array's length is odd or when a key is not a
    /// string.
    #[verifier::loop_isolation(false)]
    #[verifier::rlimit(50)]
    pub fn from_flat_array(flat_array: &Vec<ForthicValue>) -> (r: Result<Self, String>)
        ensures
            match r {
                Ok(opts) => spec_from_flat_array(values_view(flat_array@)) == Some(opts@)
                    && spec_flat_pairs(values_view(flat_array@)) == Some(pairs_view(
                    opts.entries@,
                )),
                Err(_) => spec_from_flat_array(values_view(flat_array@)) is None
                    && spec_flat_pairs(values_view(flat_array@)) is None,
            },
    {
        proof {
            lemma_values_view(flat_array@);
        }
        let ghost flat = values_view(flat_array@);
        if flat_array.len() % 2 != 0 {
            proof {
                lemma_flat_odd_none(flat);
            }
            return Err(crate::errors::usize_to_string(flat_array.len()));
        }
        let mut entries: Vec<(String, ForthicValue)> = Vec::new();
        let mut i: usize = 0;
        while i + 1 < flat_array.len()
            invariant
                i % 2 == 0,
                i <= flat_array@.len(),
                spec_from_flat_array(flat.take(i as int)) == Some(spec_entries_map(entries@)),
                spec_flat_pairs(flat.take(i as int)) == Some(pairs_view(entries@)),
            decreases flat_array@.len() - i,
        {
            let key = match &flat_array[i] {
                ForthicValue::Str(s) => s.clone(),
                _ => {
                    proof {
                        lemma_flat_bad_key(flat, i as int);
                    }
                    return Err(crate::errors::usize_to_string(i));
                },
            };
            let value = flat_array[i + 1].clone();
            let ghost e0 = entries@;
            let ghost gkey = key@;
            let ghost gval = value_view(value);
            entries.push((key, value));
            i = i + 2;
            proof {
                let pre = flat.take(i as int);
                assert(pre.len() == i);
                assert(pre.drop_last().drop_last() =~= flat.take(i - 2));
                assert(pre.last() == flat[i - 1]);
                assert(pre[pre.len() - 2] == flat[i - 2]);
                assert(flat[i - 2] matches ValueSpec::Str(k) && k == gkey);
                assert(flat[i - 1] == gval);
                assert(entries@.drop_last() =~= e0);
                assert(entries@.last().0@ == gkey);
                assert(value_view(entries@.last().1) == gval);
                lemma_pairs_view(entries@);
                lemma_pairs_view(e0);
                assert(pairs_view(entries@) =~= pairs_view(e0).push((gkey, gval)));
            }
        }
        proof {
            assert(flat.take(flat.len() as int) =~= flat);
        }
        Ok(WordOptions { entries })
    }

    /// Look up an option by key.
    pub fn get(&self, key: &str) -> (r: Option<&ForthicValue>)
        ensures
            match r {
                Some(v) => self@.contains_key(key@) && value_view(*v) == self@[key@],
                None => !self@.contains_key(key@),
            },
    {
        let mut i: usize = self.entries.len();
        while i > 0
            invariant
                i <= self.entries@.len(),
                forall|j: int|
                    i <= j < self.entries@.len() ==> (#[trigger] self.entries@[j]).0@ != key@,
            decreases i,
        {
            i = i - 1;
            let sk = self.entries[i].0.as_str().to_owned();
            let k2 = key.to_owned();
            if sk == k2 {
                proof {
                    lemma_entries_map_found(self.entries@, i as int, key@);
                }
                return Some(&self.entries[i].1);
            }
        }
        proof {
            lemma_entries_map_missing(self.entries@, key@);
        }
        None
    }

    /// Look up an option by key, falling back to a default.
    pub fn get_or<'a>(&'a self, key: &str, default: &'a ForthicValue) -> (r: &'a ForthicValue)
        ensures
            self@.contains_key(key@) ==> value_view(*r) == self@[key@],
            !self@.contains_key(key@) ==> r == default,
    {
        match self.get(key) {
            Some(v) => v,
            None => default,
        }
    }

    /// Whether an option with this key exists.
    pub fn has(&self, key: &str) -> (r: bool)
        ensures
            r == self@.contains_key(key@),
    {
        self.get(key).is_some()
    }

    /// The integer option with this key, if it exists and is an integer.
    pub fn get_int(&self, key: &str) -> (r: Option<i64>)
        ensures
            match r {
                Some(n) => self@.contains_key(key@) && self@[key@] == ValueSpec::Int(n as int),
                None => !self@.contains_key(key@) || !(self@[key@] is Int),
            },
    {
        match self.get(key) {
            Some(v) => v.as_int(),
            None => None,
        }
    }

    /// The float option with this key as IEEE 754 bits, if it exists and
    /// is a float.
    pub fn get_float(&self, key: &str) -> (r: Option<u64>)
        ensures
            match r {
                Some(b) => self@.contains_key(key@) && self@[key@] == ValueSpec::Float(b),
                None => !self@.contains_key(key@) || !(self@[key@] is Float),
            },
    {
        match self.get(key) {
            Some(v) => v.as_float(),
            None => None,
        }
    }

    /// The boolean option with this key, if it exists and is a boolean.
    pub fn get_bool(&self, key: &str) -> (r: Option<bool>)
        ensures
            match r {
                Some(b) => self@.contains_key(key@) && self@[key@] == ValueSpec::Bool(b),
                None => !self@.contains_key(key@) || !(self@[key@] is Bool),
            },
    {
        match self.get(key) {
            Some(v) => v.as_bool(),
            None => None,
        }
    }

    /// The string option with this key, if it exists and is a string.
    pub fn get_string(&self, key: &str) -> (r: Option<&str>)
        ensures
            match r {
                Some(s) => self@.contains_key(key@) && self@[key@] == ValueSpec::Str(s@),
                None => !self@.contains_key(key@) || !(self@[key@] is Str),
            },
    {
        match self.get(key) {
            Some(v) => v.as_string(),
            None => None,
        }
    }

    /// The keys of the options, in entry order.
    pub fn keys(&self) -> (r: Vec<String>)
        ensures
            r@.len() == self.entries@.len(),
            forall|i: int| 0 <= i < r@.len() ==> r@[i]@ == (#[trigger] self.entries@[i]).0@,
    {
        let mut out: Vec<String> = Vec::new();
        let mut i: usize = 0;
        while i < self.entries.len()
            invariant
                i <= self.entries@.len(),
                out@.len() == i,
                forall|j: int| 0 <= j < i ==> out@[j]@ == (#[trigger] self.entries@[j]).0@,
            decreases self.entries@.len() - i,
        {
            out.push(self.entries[i].0.clone());
            i = i + 1;
        }
        out
    }

    /// The number of entries.
    pub fn len(&self) -> (r: usize)
        ensures
            r == self.entries@.len(),
    {
        self.entries.len()
    }

    /// Whether there are no entries.
    pub fn is_empty(&self) -> (r: bool)
        ensures
            r == (self.entries@.len() == 0),
            r ==> self@ == Map::<Seq<char>, ValueSpec>::empty(),
    {
        self.entries.len() == 0
    }

    /// The entries as a list of key-value pairs, consuming the options.
    pub fn into_entries(self) -> (r: Vec<(String, ForthicValue)>)
        ensures
            spec_entries_map(r@) == self@,
    {
        self.entries
    }

    /// The entries as a list of key-value pairs.
    pub fn as_entries(&self) -> (r: &Vec<(String, ForthicValue)>)
        ensures
            spec_entries_map(r@) == self@,
    {
        &self.entries
    }
}

impl Default for WordOptions {
    /// An empty options container.
    fn default() -> (r: Self)
        ensures
            r@ == Map::<Seq<char>, ValueSpec>::empty(),
    {
        WordOptions::new()
    }
}

/// A flat array of odd length builds no options.
proof fn lemma_flat_odd_none(flat: Seq<ValueSpec>)
    requires
        flat.len() % 2 != 0,
    ensures
        spec_from_flat_array(flat) is None,
        spec_flat_pairs(flat) is None,
{
}

/// A flat array with a non-string key at an even position builds no
/// options.
proof fn lemma_flat_bad_key(flat: Seq<ValueSpec>, i: int)
    requires
        flat.len() % 2 == 0,
        0 <= i,
        i % 2 == 0,
        i + 1 < flat.len(),
        !(flat[i] is Str),
    ensures
        spec_from_flat_array(flat) is None,
        spec_flat_pairs(flat) is None,
    decreases flat.len(),
{
    if flat.len() > 0 {
        if i + 2 < flat.len() {
            lemma_flat_bad_key(flat.drop_last().drop_last(), i);
            assert(flat.drop_last().drop_last()[i] == flat[i]);
        } else {
            assert(flat[flat.len() - 2] == flat[i]);
        }
    }
}

/// When a scan from the end finds the key at `i` with no later match, the
/// entry map holds that entry's value.
proof fn lemma_entries_map_found(entries: Seq<(String, ForthicValue)>, i: int, key: Seq<char>)
    requires
        0 <= i < entries.len(),
        entries[i].0@ == key,
        forall|j: int| i < j < entries.len() ==> (#[trigger] entries[j]).0@ != key,
    ensures
        spec_entries_map(entries).contains_key(key),
        spec_entries_map(entries)[key] == value_view(entries[i].1),
    decreases entries.len(),
{
    if i == entries.len() - 1 {
    } else {
        lemma_entries_map_found(entries.drop_last(), i, key);
    }
}

/// When no entry has the key, the entry map does not either.
proof fn lemma_entries_map_missing(entries: Seq<(String, ForthicValue)>, key: Seq<char>)
    requires
        forall|j: int| 0 <= j < entries.len() ==> (#[trigger] entries[j]).0@ != key,
    ensures
        !spec_entries_map(entries).contains_key(key),
    decreases entries.len(),
{
    if entries.len() > 0 {
        lemma_entries_map_missing(entries.drop_last(), key);
    }
}

} // verus!
