//! Sorted maps from strings to values: a sequence of keys in strictly
//! ascending order beside a sequence of values of the same length.
//!
//! In one buffer a map is three parts: four bytes that give the length of
//! the key section, least significant byte first; the key section, a
//! sequence of strings; and the value section, which takes the rest and is a
//! sequence of records of one width or a sequence of strings.

use crate::codec::{decode_all, valid_buffer, InvalidLayout, Record};
use crate::ints::{le_u32, read_u32};
use crate::sequence::Sequence;
use crate::text::{bytes_precede, lemma_bytes_totally_ordered};
use crate::varseq::{ascending, strictly_ascending, valid_var, var_contents, VarSequence};
use vstd::prelude::*;
use vstd::seq_lib::seq_to_set_is_finite;
use vstd::slice::slice_subrange;
use vstd::string::StringSliceAdditionalSpecFns;

verus! {

/// A validated sequence of values that a map can hold beside its keys.
pub trait Column<'a>: Sized {
    /// What reading a value gives.
    type Item;

    /// What a value is in contracts.
    type Model;

    /// The values in stored order.
    spec fn model(&self) -> Seq<Self::Model>;

    /// What `item` is in contracts.
    spec fn item_model(item: Self::Item) -> Self::Model;

    /// Whether `bytes` is a sequence of such values.
    spec fn valid(bytes: Seq<u8>) -> bool;

    /// The values that a valid buffer holds.
    spec fn contents(bytes: Seq<u8>) -> Seq<Self::Model>;

    /// Wraps `bytes`, or refuses the buffer where it is not valid.
    fn parse(bytes: &'a [u8]) -> (r: Result<Self, InvalidLayout>)
        ensures
            r is Ok <==> Self::valid(bytes@),
            r matches Ok(column) ==> column.model() == Self::contents(bytes@),
    ;

    /// The number of values.
    fn count(&self) -> (n: usize)
        ensures
            n == self.model().len(),
    ;

    /// The value at `index`, or `None` where `index` is out of range.
    fn fetch(&self, index: usize) -> (r: Option<Self::Item>)
        ensures
            index < self.model().len() ==> r is Some && Self::item_model(r->0) == self.model()[index as int],
            index >= self.model().len() ==> r is None,
    ;
}

impl<'a, T: Record<W>, const W: usize> Column<'a> for Sequence<'a, T, W> {
    type Item = T;

    type Model = T;

    open spec fn model(&self) -> Seq<T> {
        self@
    }

    open spec fn item_model(item: T) -> T {
        item
    }

    open spec fn valid(bytes: Seq<u8>) -> bool {
        valid_buffer::<T, W>(bytes)
    }

    open spec fn contents(bytes: Seq<u8>) -> Seq<T> {
        decode_all::<T, W>(bytes)
    }

    fn parse(bytes: &'a [u8]) -> (r: Result<Self, InvalidLayout>) {
        Sequence::from_bytes(bytes)
    }

    fn count(&self) -> (n: usize) {
        self.len()
    }

    fn fetch(&self, index: usize) -> (r: Option<T>) {
        self.get(index)
    }
}

impl<'a> Column<'a> for VarSequence<'a> {
    type Item = &'a str;

    type Model = Seq<u8>;

    open spec fn model(&self) -> Seq<Seq<u8>> {
        self@
    }

    /// A string is its bytes.
    open spec fn item_model(item: &'a str) -> Seq<u8> {
        item.spec_bytes()
    }

    open spec fn valid(bytes: Seq<u8>) -> bool {
        valid_var(bytes)
    }

    open spec fn contents(bytes: Seq<u8>) -> Seq<Seq<u8>> {
        var_contents(bytes)
    }

    fn parse(bytes: &'a [u8]) -> (r: Result<Self, InvalidLayout>) {
        VarSequence::from_bytes_unordered(bytes)
    }

    fn count(&self) -> (n: usize) {
        self.len()
    }

    fn fetch(&self, index: usize) -> (r: Option<&'a str>) {
        self.get(index)
    }
}

/// The map that pairs each key with the value at the same place.
pub open spec fn pairs<M>(keys: Seq<Seq<u8>>, values: Seq<M>) -> Map<Seq<u8>, M> {
    Map::new(|key: Seq<u8>| keys.contains(key), |key: Seq<u8>| values[keys.index_of(key)])
}

/// In keys in strictly ascending order every key stands at one place only.
pub proof fn lemma_keys_distinct(keys: Seq<Seq<u8>>, i: int, j: int)
    requires
        strictly_ascending(keys),
        0 <= i < keys.len(),
        0 <= j < keys.len(),
        keys[i] == keys[j],
    ensures
        i == j,
{
    lemma_bytes_totally_ordered(keys[i], keys[j]);
    if i < j {
        assert(bytes_precede(keys[i], keys[j]));
    } else if j < i {
        assert(bytes_precede(keys[j], keys[i]));
    }
}

/// A map holds the pairs it was made of: key `i` leads to value `i`.
pub proof fn lemma_pairs<M>(keys: Seq<Seq<u8>>, values: Seq<M>, i: int)
    requires
        strictly_ascending(keys),
        keys.len() == values.len(),
        0 <= i < keys.len(),
    ensures
        pairs(keys, values).contains_key(keys[i]),
        pairs(keys, values)[keys[i]] == values[i],
{
    assert(keys.contains(keys[i]));
    lemma_keys_distinct(keys, i, keys.index_of(keys[i]));
}

/// What is no key leads to nothing.
pub proof fn lemma_pairs_domain<M>(keys: Seq<Seq<u8>>, values: Seq<M>, key: Seq<u8>)
    ensures
        pairs(keys, values).contains_key(key) <==> exists|i: int|
            0 <= i < keys.len() && keys[i] == key,
{
}

/// A map has no more keys than it was given.
pub proof fn lemma_pairs_finite<M>(keys: Seq<Seq<u8>>, values: Seq<M>)
    ensures
        pairs(keys, values).dom().finite(),
        pairs(keys, values).dom().len() <= keys.len(),
{
    assert(pairs(keys, values).dom() =~= keys.to_set());
    seq_to_set_is_finite(keys);
    keys.lemma_cardinality_of_set();
}

/// Keys in strictly ascending order are in ascending order.
pub proof fn lemma_strictly_ascending_is_ascending(keys: Seq<Seq<u8>>)
    requires
        strictly_ascending(keys),
    ensures
        ascending(keys),
{
    assert forall|i: int, j: int| 0 <= i < j < keys.len() implies !bytes_precede(
        #[trigger] keys[j],
        #[trigger] keys[i],
    ) by {
        assert(bytes_precede(keys[i], keys[j]));
        lemma_bytes_totally_ordered(keys[i], keys[j]);
    }
}

/// What comes before or behind every key is no key.
pub proof fn lemma_absent(keys: Seq<Seq<u8>>, key: Seq<u8>, place: int)
    requires
        0 <= place <= keys.len(),
        forall|j: int| 0 <= j < place ==> bytes_precede(#[trigger] keys[j], key),
        forall|j: int| place <= j < keys.len() ==> bytes_precede(key, #[trigger] keys[j]),
    ensures
        !keys.contains(key),
{
    if keys.contains(key) {
        let i = keys.index_of(key);
        lemma_bytes_totally_ordered(key, key);
        if i < place {
            assert(bytes_precede(keys[i], key));
        } else {
            assert(bytes_precede(key, keys[i]));
        }
    }
}

/// The four bytes in front of a map say how long its key section is.
pub open spec fn key_length(bytes: Seq<u8>) -> int {
    le_u32(bytes.subrange(0, 4)) as int
}

/// The key section of a map: a sequence of strings.
pub open spec fn key_section(bytes: Seq<u8>) -> Seq<u8> {
    bytes.subrange(4, 4 + key_length(bytes))
}

/// The value section of a map: all that follows the key section.
pub open spec fn value_section(bytes: Seq<u8>) -> Seq<u8> {
    bytes.subrange(4 + key_length(bytes), bytes.len() as int)
}

/// Whether `bytes` is a map: the length of the key section in four bytes,
/// least significant first, then the keys, a valid sequence of strings in
/// strictly ascending order, then the values, a valid sequence of as many
/// values as there are keys.
pub open spec fn map_layout<'a, V: Column<'a>>(bytes: Seq<u8>) -> bool {
    &&& 4 <= bytes.len()
    &&& 4 + key_length(bytes) <= bytes.len()
    &&& valid_var(key_section(bytes))
    &&& V::valid(value_section(bytes))
    &&& var_contents(key_section(bytes)).len() == V::contents(value_section(bytes)).len()
    &&& strictly_ascending(var_contents(key_section(bytes)))
}

/// A map from strings to values, searched by key.
///
/// The keys are held in strictly ascending order, byte by byte, so that no key
/// occurs twice, and there are as many values as keys. Both are checked once,
/// when the map is made.
#[derive(Debug, PartialEq, Eq)]
pub struct SortedMap<'a, V: Column<'a>> {
    keys: VarSequence<'a>,
    values: V,
}

impl<'a, V: Column<'a>> View for SortedMap<'a, V> {
    type V = Map<Seq<u8>, V::Model>;

    /// The pairs of the map, each key as its bytes.
    closed spec fn view(&self) -> Map<Seq<u8>, V::Model> {
        pairs(self.keys@, self.values.model())
    }
}

impl<'a, V: Column<'a>> SortedMap<'a, V> {
    #[verifier::type_invariant]
    spec fn inv(self) -> bool {
        &&& strictly_ascending(self.keys@)
        &&& self.keys@.len() == self.values.model().len()
    }

    /// The keys in stored order.
    pub closed spec fn keys(&self) -> Seq<Seq<u8>> {
        self.keys@
    }

    /// The values in stored order.
    pub closed spec fn values(&self) -> Seq<V::Model> {
        self.values.model()
    }

    /// The keys ascend strictly, there is a value for each, and the map pairs
    /// each key with the value at the same place.
    pub open spec fn wf(&self) -> bool {
        &&& strictly_ascending(self.keys())
        &&& self.keys().len() == self.values().len()
        &&& self@ == pairs(self.keys(), self.values())
    }

    /// Makes a map of keys and values, or refuses them where their numbers
    /// differ or a key does not come strictly behind the one before it.
    pub fn from_parts(keys: VarSequence<'a>, values: V) -> (r: Result<Self, InvalidLayout>)
        ensures
            r is Ok <==> keys@.len() == values.model().len() && strictly_ascending(keys@),
            r matches Ok(map) ==> map.keys() == keys@ && map.values() == values.model()
                && map.wf(),
    {
        if keys.len() != values.count() {
            return Err(InvalidLayout);
        }
        if !keys.is_strictly_ascending() {
            return Err(InvalidLayout);
        }
        Ok(SortedMap { keys, values })
    }

    /// Wraps `bytes` as a map, or refuses the buffer where it is not one.
    pub fn load(bytes: &'a [u8]) -> (r: Result<Self, InvalidLayout>)
        ensures
            r is Ok <==> map_layout::<V>(bytes@),
            r matches Ok(map) ==> map.keys() == var_contents(key_section(bytes@)) && map.values()
                == V::contents(value_section(bytes@)) && map.wf(),
    {
        let len: usize = bytes.len();
        if len < 4 {
            return Err(InvalidLayout);
        }
        let key_len: usize = read_u32(bytes, 0) as usize;
        if key_len > len - 4 {
            return Err(InvalidLayout);
        }
        let keys: VarSequence<'a> = match VarSequence::from_bytes_unordered(
            slice_subrange(bytes, 4, 4 + key_len),
        ) {
            Ok(keys) => keys,
            Err(e) => {
                return Err(e);
            },
        };
        let values: V = match V::parse(slice_subrange(bytes, 4 + key_len, len)) {
            Ok(values) => values,
            Err(e) => {
                return Err(e);
            },
        };
        Self::from_parts(keys, values)
    }

    /// The number of pairs.
    pub fn len(&self) -> (n: usize)
        ensures
            n == self.keys().len(),
            n == self.values().len(),
    {
        proof {
            use_type_invariant(self);
        }
        self.keys.len()
    }

    /// Whether the map holds no pair.
    pub fn is_empty(&self) -> (b: bool)
        ensures
            b == (self.keys().len() == 0),
    {
        self.keys.is_empty()
    }

    /// The value that belongs to `key`, or `None` where `key` is no key of the
    /// map.
    pub fn get(&self, key: &str) -> (r: Option<V::Item>)
        ensures
            match r {
                Some(value) => self@.contains_key(key.spec_bytes()) && V::item_model(value)
                    == self@[key.spec_bytes()],
                None => !self@.contains_key(key.spec_bytes()),
            },
            self.wf(),
    {
        proof {
            use_type_invariant(self);
            lemma_strictly_ascending_is_ascending(self.keys@);
        }
        match self.keys.binary_search(key) {
            Ok(i) => {
                proof {
                    lemma_pairs(self.keys@, self.values.model(), i as int);
                }
                self.values.fetch(i)
            },
            Err(p) => {
                proof {
                    lemma_absent(self.keys@, key.spec_bytes(), p as int);
                }
                None
            },
        }
    }

    /// Whether `key` is a key of the map.
    pub fn contains_key(&self, key: &str) -> (b: bool)
        ensures
            b == self@.contains_key(key.spec_bytes()),
    {
        proof {
            use_type_invariant(self);
            lemma_strictly_ascending_is_ascending(self.keys@);
        }
        match self.keys.binary_search(key) {
            Ok(i) => {
                proof {
                    lemma_pairs(self.keys@, self.values.model(), i as int);
                }
                true
            },
            Err(p) => {
                proof {
                    lemma_absent(self.keys@, key.spec_bytes(), p as int);
                }
                false
            },
        }
    }

    /// The pair at place `index` in ascending order of keys, or `None` where
    /// `index` is out of range.
    pub fn get_at(&self, index: usize) -> (r: Option<(&'a str, V::Item)>)
        ensures
            index < self.keys().len() ==> (r matches Some((key, value)) && key.spec_bytes()
                == self.keys()[index as int] && V::item_model(value) == self.values()[index as int]),
            index >= self.keys().len() ==> r is None,
    {
        proof {
            use_type_invariant(self);
        }
        match (self.keys.get(index), self.values.fetch(index)) {
            (Some(key), Some(value)) => Some((key, value)),
            _ => None,
        }
    }
}

} // verus!
