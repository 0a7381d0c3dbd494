//! An insertion-ordered table of rows keyed by 32-bit identifiers.

use indexmap::IndexMap;
use vstd::std_specs::cmp::PartialEqSpec;
use vstd::prelude::*;

verus! {

/// `indexmap::IndexMap`, of which only what the functions below say is known.
#[verifier::external_type_specification]
#[verifier::external_body]
#[verifier::reject_recursive_types(K)]
#[verifier::reject_recursive_types(V)]
#[verifier::reject_recursive_types(S)]
pub struct ExIndexMap<K, V, S>(indexmap::IndexMap<K, V, S>);

/// The keys of an `IndexMap`, in the order in which it keeps them.
pub uninterp spec fn index_keys(index: IndexMap<u32, ()>) -> Seq<u32>;

/// `IndexMap::new` makes a map without keys.
#[verifier::external_body]
fn index_new() -> (index: IndexMap<u32, ()>)
    ensures
        index_keys(index) == Seq::<u32>::empty(),
{
    IndexMap::new()
}

/// `IndexMap::get_index_of` finds the place of a key in the map's order, or
/// reports that the map does not hold it.
#[verifier::external_body]
fn index_of(index: &IndexMap<u32, ()>, key: u32) -> (found: Option<usize>)
    ensures
        found matches Some(i) ==> i < index_keys(*index).len() && index_keys(*index)[i as int]
            == key,
        found is None ==> !index_keys(*index).contains(key),
{
    index.get_index_of(&key)
}

/// `IndexMap::insert` puts a key that the map does not hold last in its order,
/// and leaves the order alone where the map holds the key already.
#[verifier::external_body]
fn index_insert(index: &mut IndexMap<u32, ()>, key: u32)
    ensures
        index_keys(*final(index)) == (if index_keys(*old(index)).contains(key) {
            index_keys(*old(index))
        } else {
            index_keys(*old(index)).push(key)
        }),
{
    index.insert(key, ());
}

/// `IndexMap::get_index` gives the key at a place in the map's order.
#[verifier::external_body]
fn index_key_at(index: &IndexMap<u32, ()>, place: usize) -> (key: Option<u32>)
    ensures
        key == (if place < index_keys(*index).len() {
            Some(index_keys(*index)[place as int])
        } else {
            None
        }),
{
    index.get_index(place).map(|entry| *entry.0)
}

/// The key order beside the rows in the same order.
#[derive(Debug)]
struct Columns<V> {
    index: IndexMap<u32, ()>,
    rows: Vec<V>,
}

/// An insertion-ordered table: every key has one row, and a key keeps the
/// place that it got when it was first inserted.
#[derive(Debug)]
pub struct Table<V> {
    columns: Columns<V>,
}

/// The place of `key` among the entries, or -1.
pub open spec fn place_of<V>(entries: Seq<(u32, V)>, key: u32) -> int
    decreases entries.len(),
{
    if entries.len() == 0 {
        -1
    } else if entries.last().0 == key {
        entries.len() - 1
    } else {
        place_of(entries.drop_last(), key)
    }
}

/// The row of `key`, where there is one.
pub open spec fn lookup<V>(entries: Seq<(u32, V)>, key: u32) -> Option<V> {
    if place_of(entries, key) >= 0 {
        Some(entries[place_of(entries, key)].1)
    } else {
        None
    }
}

/// The entries after `key` was given the row `value`: in its old place, or last.
pub open spec fn put<V>(entries: Seq<(u32, V)>, key: u32, value: V) -> Seq<(u32, V)> {
    if place_of(entries, key) >= 0 {
        entries.update(place_of(entries, key), (key, value))
    } else {
        entries.push((key, value))
    }
}

/// No key occurs twice.
pub open spec fn keys_distinct<V>(entries: Seq<(u32, V)>) -> bool {
    forall|i: int, j: int|
        0 <= i < j < entries.len() ==> #[trigger] entries[i].0 != #[trigger] entries[j].0
}

/// `place_of` finds a key exactly where it occurs.
pub proof fn lemma_place_of<V>(entries: Seq<(u32, V)>, key: u32)
    ensures
        -1 <= place_of(entries, key) < entries.len(),
        place_of(entries, key) >= 0 ==> entries[place_of(entries, key)].0 == key,
        place_of(entries, key) < 0 ==> forall|i: int|
            0 <= i < entries.len() ==> #[trigger] entries[i].0 != key,
        forall|i: int|
            place_of(entries, key) < i < entries.len() ==> #[trigger] entries[i].0 != key,
    decreases entries.len(),
{
    if entries.len() > 0 && entries.last().0 != key {
        let front = entries.drop_last();
        lemma_place_of(front, key);
        assert forall|i: int| place_of(entries, key) < i < entries.len() implies #[trigger] entries[i].0
            != key by {
            if i < front.len() {
                assert(front[i].0 != key);
            }
        }
    }
}

/// Where no key occurs twice, `place_of` is the place of the key.
pub proof fn lemma_place_of_distinct<V>(entries: Seq<(u32, V)>, i: int)
    requires
        keys_distinct(entries),
        0 <= i < entries.len(),
    ensures
        place_of(entries, entries[i].0) == i,
{
    lemma_place_of(entries, entries[i].0);
}

/// Entries that come after do not change the row of a key.
pub proof fn lemma_lookup_prefix<V>(entries: Seq<(u32, V)>, longer: Seq<(u32, V)>, key: u32)
    requires
        entries.is_prefix_of(longer),
        keys_distinct(longer),
        lookup(entries, key) is Some,
    ensures
        lookup(longer, key) == lookup(entries, key),
{
    let i = place_of(entries, key);
    lemma_place_of(entries, key);
    assert(longer[i] == entries[i]);
    lemma_place_of_distinct(longer, i);
}

/// A row that was put is found again, and no other key's row changes.
pub proof fn law_lookup_after_put<V>(entries: Seq<(u32, V)>, key: u32, value: V, other: u32)
    requires
        keys_distinct(entries),
    ensures
        keys_distinct(put(entries, key, value)),
        lookup(put(entries, key, value), key) == Some(value),
        other != key ==> lookup(put(entries, key, value), other) == lookup(entries, other),
{
    let after = put(entries, key, value);
    lemma_place_of(entries, key);
    lemma_place_of(entries, other);
    lemma_place_of(after, key);
    lemma_place_of(after, other);
    if place_of(entries, key) >= 0 {
        let p = place_of(entries, key);
        assert(after[p].0 == key);
        assert forall|i: int, j: int| 0 <= i < j < after.len() implies #[trigger] after[i].0
            != #[trigger] after[j].0 by {
            assert(after[i].0 == entries[i].0 && after[j].0 == entries[j].0);
        }
        lemma_place_of_distinct(after, p);
        if other != key && place_of(entries, other) >= 0 {
            let q = place_of(entries, other);
            assert(after[q] == entries[q]);
            lemma_place_of_distinct(after, q);
        } else if other != key && place_of(after, other) >= 0 {
            let q = place_of(after, other);
            assert(after[q] == entries[q]);
            assert(false);
        }
    } else {
        assert(after.drop_last() =~= entries);
    }
}

impl<V> Table<V> {
    #[verifier::type_invariant]
    spec fn inv(self) -> bool {
        &&& index_keys(self.columns.index).len() == self.columns.rows@.len()
        &&& index_keys(self.columns.index).no_duplicates()
    }
}

impl<V> View for Table<V> {
    type V = Seq<(u32, V)>;

    /// The entries in order.
    closed spec fn view(&self) -> Seq<(u32, V)> {
        Seq::new(
            self.columns.rows@.len(),
            |i: int| (index_keys(self.columns.index)[i], self.columns.rows@[i]),
        )
    }
}

impl<V> Table<V> {
    /// An empty table.
    pub fn new() -> (table: Self)
        ensures
            table@ == Seq::<(u32, V)>::empty(),
    {
        let table = Table { columns: Columns { index: index_new(), rows: Vec::new() } };
        assert(table@ =~= Seq::<(u32, V)>::empty());
        table
    }

    /// The number of keys.
    pub fn len(&self) -> (n: usize)
        ensures
            n == self@.len(),
            keys_distinct(self@),
    {
        proof {
            use_type_invariant(self);
        }
        self.columns.rows.len()
    }

    /// The row of `key`, where there is one.
    pub fn get(&self, key: u32) -> (row: Option<&V>)
        ensures
            row == (match lookup(self@, key) {
                Some(v) => Some(&v),
                None => None,
            }),
            keys_distinct(self@),
    {
        proof {
            use_type_invariant(self);
        }
        let found = index_of(&self.columns.index, key);
        proof {
            lemma_place_of(self@, key);
        }
        match found {
            Some(i) => {
                proof {
                    assert(self@[i as int].0 == key);
                    lemma_place_of_distinct(self@, i as int);
                }
                Some(&self.columns.rows[i])
            },
            None => {
                proof {
                    if place_of(self@, key) >= 0 {
                        assert(index_keys(self.columns.index)[place_of(self@, key)] == key);
                    }
                }
                None
            },
        }
    }

    /// The key at a place in the order.
    pub fn key_at(&self, place: usize) -> (key: u32)
        requires
            place < self@.len(),
        ensures
            key == self@[place as int].0,
    {
        proof {
            use_type_invariant(self);
        }
        match index_key_at(&self.columns.index, place) {
            Some(key) => key,
            None => 0,
        }
    }

    /// The row at a place in the order.
    pub fn row_at(&self, place: usize) -> (row: &V)
        requires
            place < self@.len(),
        ensures
            *row == self@[place as int].1,
    {
        &self.columns.rows[place]
    }

    /// Gives `key` the row `value`, in the key's old place or last.
    pub fn insert(&mut self, key: u32, value: V)
        ensures
            final(self)@ == put(old(self)@, key, value),
            keys_distinct(final(self)@),
    {
        proof {
            use_type_invariant(&*self);
            lemma_place_of(self@, key);
            law_lookup_after_put(self@, key, value, key);
        }
        let mut columns = Columns { index: index_new(), rows: Vec::new() };
        std::mem::swap(&mut columns, &mut self.columns);
        let ghost before = old(self)@;
        let ghost keys = index_keys(columns.index);
        match index_of(&columns.index, key) {
            Some(i) => {
                proof {
                    assert(before[i as int].0 == key);
                    lemma_place_of_distinct(before, i as int);
                }
                columns.rows.set(i, value);
            },
            None => {
                proof {
                    if place_of(before, key) >= 0 {
                        assert(keys[place_of(before, key)] == key);
                    }
                }
                index_insert(&mut columns.index, key);
                columns.rows.push(value);
            },
        }
        self.columns = columns;
        assert(self@ =~= put(before, key, value));
    }
}

impl<V: PartialEq> vstd::std_specs::cmp::PartialEqSpecImpl for Table<V> {
    open spec fn obeys_eq_spec() -> bool {
        V::obeys_eq_spec()
    }

    /// The same keys with the same rows, in whatever order.
    open spec fn eq_spec(&self, other: &Table<V>) -> bool {
        &&& self@.len() == other@.len()
        &&& forall|i: int|
            0 <= i < self@.len() ==> has_row(other@, (#[trigger] self@[i]).0, self@[i].1)
    }
}

/// The key has an equal row.
pub open spec fn has_row<V: PartialEq>(
    entries: Seq<(u32, V)>,
    key: u32,
    row: V,
) -> bool {
    match lookup(entries, key) {
        Some(other) => row.eq_spec(&other),
        None => false,
    }
}

impl<V: PartialEq> PartialEq for Table<V> {
    fn eq(&self, other: &Table<V>) -> (b: bool) {
        let n: usize = self.len();
        if n != other.len() {
            return false;
        }
        for i in 0..n
            invariant
                n == self@.len() == other@.len(),
                V::obeys_eq_spec() ==> forall|j: int|
                    0 <= j < i ==> has_row(other@, (#[trigger] self@[j]).0, self@[j].1),
        {
            let same = match other.get(self.key_at(i)) {
                Some(row) => *self.row_at(i) == *row,
                None => false,
            };
            if !same {
                return false;
            }
        }
        true
    }
}

impl<V: Clone> Clone for Table<V> {
    /// The same keys in the same order, each with a clone of its row.
    fn clone(&self) -> (copy: Self)
        ensures
            copy@.len() == self@.len(),
            forall|i: int|
                0 <= i < self@.len() ==> (#[trigger] copy@[i]).0 == self@[i].0 && cloned::<V>(
                    self@[i].1,
                    copy@[i].1,
                ),
    {
        let mut copy: Table<V> = Table::new();
        let n: usize = self.len();
        for place in 0..n
            invariant
                n == self@.len(),
                keys_distinct(self@),
                copy@.len() == place,
                forall|i: int|
                    0 <= i < place ==> (#[trigger] copy@[i]).0 == self@[i].0 && cloned::<V>(
                        self@[i].1,
                        copy@[i].1,
                    ),
        {
            let key: u32 = self.key_at(place);
            let row = self.row_at(place).clone();
            let ghost before = copy@;
            proof {
                lemma_place_of(before, key);
                if place_of(before, key) >= 0 {
                    assert(before[place_of(before, key)].0 == key);
                }
            }
            copy.insert(key, row);
        }
        copy
    }
}

/// A key has the row that stands beside it, and a key that stands nowhere has none.
pub proof fn law_rows_are_found<V>(entries: Seq<(u32, V)>, key: u32, i: int)
    requires
        keys_distinct(entries),
    ensures
        0 <= i < entries.len() && entries[i].0 == key ==> lookup(entries, key) == Some(
            entries[i].1,
        ),
        lookup(entries, key) is None <==> forall|j: int|
            0 <= j < entries.len() ==> (#[trigger] entries[j]).0 != key,
{
    lemma_place_of(entries, key);
    if 0 <= i < entries.len() && entries[i].0 == key {
        lemma_place_of_distinct(entries, i);
    }
}

/// Keys keep their places: a key that has a row keeps its place when it gets another
/// one, a new key comes last, and all other entries stay as they are.
pub proof fn law_keys_keep_their_places<V>(entries: Seq<(u32, V)>, key: u32, value: V, i: int)
    requires
        keys_distinct(entries),
        0 <= i < entries.len(),
    ensures
        entries[i].0 == key ==> put(entries, key, value) == entries.update(i, (key, value)),
        (forall|j: int| 0 <= j < entries.len() ==> (#[trigger] entries[j]).0 != key) ==> put(
            entries,
            key,
            value,
        ) == entries.push((key, value)),
        entries[i].0 != key ==> put(entries, key, value)[i] == entries[i],
        put(Seq::<(u32, V)>::empty(), key, value) == seq![(key, value)],
{
    lemma_place_of(entries, key);
    if entries[i].0 == key {
        lemma_place_of_distinct(entries, i);
    }
    assert(Seq::<(u32, V)>::empty().push((key, value)) =~= seq![(key, value)]);
}

/// The key stands beside an equal row.
pub open spec fn stands_beside<V: PartialEq>(entries: Seq<(u32, V)>, key: u32, row: V) -> bool {
    exists|j: int|
        0 <= j < entries.len() && (#[trigger] entries[j]).0 == key && row.eq_spec(&entries[j].1)
}

/// Tables are equal where they have as many keys, and each key of one stands beside an
/// equal row in the other, in whatever place.
pub proof fn law_equal_tables<V: PartialEq>(a: Table<V>, b: Table<V>)
    requires
        keys_distinct(b@),
    ensures
        a.eq_spec(&b) <==> {
            &&& a@.len() == b@.len()
            &&& forall|i: int|
                0 <= i < a@.len() ==> stands_beside(b@, (#[trigger] a@[i]).0, a@[i].1)
        },
{
    let (x, y) = (a@, b@);
    assert forall|i: int| 0 <= i < x.len() implies has_row(y, (#[trigger] x[i]).0, x[i].1)
        == stands_beside(y, x[i].0, x[i].1) by {
        lemma_place_of(y, x[i].0);
        if stands_beside(y, x[i].0, x[i].1) {
            let j = choose|j: int|
                0 <= j < y.len() && (#[trigger] y[j]).0 == x[i].0 && x[i].1.eq_spec(&y[j].1);
            lemma_place_of_distinct(y, j);
        }
    }
}

} // verus!
