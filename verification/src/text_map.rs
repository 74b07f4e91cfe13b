//! An ordered map from text to text.
//!
//! The entries stand in the order of their keys, byte by byte, which is how
//! `String` orders itself. One set of entries has one representation, so two
//! maps hold the same entries exactly when they compare equal, and both print
//! the same.

use vstd::prelude::*;
use vstd::string::*;
use vstd::utf8::encode_utf8;

verus! {

/// The first place at which `a` and `b` differ is `i`, and there `a` comes
/// first: by a smaller byte, or by being at its end.
pub open spec fn differs_at(a: Seq<u8>, b: Seq<u8>, i: int) -> bool {
    &&& 0 <= i <= a.len()
    &&& i < b.len()
    &&& forall|j: int| #![trigger a[j]] #![trigger b[j]] 0 <= j < i ==> a[j] == b[j]
    &&& i == a.len() || a[i] < b[i]
}

/// `a` comes before `b`.
pub open spec fn precedes(a: Seq<u8>, b: Seq<u8>) -> bool {
    exists|i: int| differs_at(a, b, i)
}

proof fn lemma_precedes_irreflexive(a: Seq<u8>)
    ensures
        !precedes(a, a),
{
}

proof fn lemma_precedes_transitive(a: Seq<u8>, b: Seq<u8>, c: Seq<u8>)
    requires
        precedes(a, b),
        precedes(b, c),
    ensures
        precedes(a, c),
{
    let i = choose|i: int| differs_at(a, b, i);
    let j = choose|j: int| differs_at(b, c, j);
    let k = if i < j {
        i
    } else {
        j
    };
    assert forall|p: int| #![trigger a[p]] #![trigger c[p]] 0 <= p < k implies a[p] == c[p] by {
        assert(a[p] == b[p]);
        assert(b[p] == c[p]);
    }
    if i < j {
        assert(b[i] == c[i]);
    } else if j < i {
        assert(a[j] == b[j]);
    }
    assert(differs_at(a, c, k));
}

/// Where one text stands with respect to another.
enum Placement {
    Before,
    Same,
    After,
}

/// Compares two texts byte by byte.
fn place(a: &[u8], b: &[u8]) -> (placement: Placement)
    ensures
        match placement {
            Placement::Before => precedes(a@, b@),
            Placement::Same => a@ == b@,
            Placement::After => precedes(b@, a@),
        },
{
    let mut i: usize = 0;
    while i < a.len() && i < b.len()
        invariant
            i <= a@.len(),
            i <= b@.len(),
            forall|j: int| #![trigger a@[j]] #![trigger b@[j]] 0 <= j < i ==> a@[j] == b@[j],
        decreases a@.len() - i,
    {
        if a[i] < b[i] {
            assert(differs_at(a@, b@, i as int));
            return Placement::Before;
        }
        if b[i] < a[i] {
            assert(differs_at(b@, a@, i as int));
            return Placement::After;
        }
        i += 1;
    }
    if i < b.len() {
        assert(differs_at(a@, b@, i as int));
        Placement::Before
    } else if i < a.len() {
        assert(differs_at(b@, a@, i as int));
        Placement::After
    } else {
        assert(a@ =~= b@);
        Placement::Same
    }
}

/// The bytes of the key of entry `i`.
pub open spec fn key_bytes(entries: Seq<(String, String)>, i: int) -> Seq<u8> {
    encode_utf8(entries[i].0@)
}

/// The keys stand in strictly ascending order.
pub open spec fn ascending(entries: Seq<(String, String)>) -> bool {
    forall|i: int, j: int|
        #![trigger key_bytes(entries, i), key_bytes(entries, j)]
        0 <= i < j < entries.len() ==> precedes(key_bytes(entries, i), key_bytes(entries, j))
}

/// Entry `i` has key `key`.
pub open spec fn holds_at(entries: Seq<(String, String)>, key: Seq<char>, i: int) -> bool {
    0 <= i < entries.len() && entries[i].0@ == key
}

spec fn contents(entries: Seq<(String, String)>) -> Map<Seq<char>, Seq<char>> {
    Map::new(
        |key: Seq<char>| exists|i: int| holds_at(entries, key, i),
        |key: Seq<char>| entries[choose|i: int| holds_at(entries, key, i)].1@,
    )
}

proof fn lemma_same_bytes(a: Seq<char>, b: Seq<char>)
    requires
        encode_utf8(a) == encode_utf8(b),
    ensures
        a == b,
{
    vstd::utf8::encode_utf8_decode_utf8(a);
    vstd::utf8::encode_utf8_decode_utf8(b);
}

/// A key stands at one place only.
proof fn lemma_contents_at(entries: Seq<(String, String)>, key: Seq<char>, i: int)
    requires
        ascending(entries),
        holds_at(entries, key, i),
    ensures
        contents(entries).contains_key(key),
        contents(entries)[key] == entries[i].1@,
{
    let j = choose|j: int| holds_at(entries, key, j);
    let a = key_bytes(entries, i);
    let b = key_bytes(entries, j);
    lemma_precedes_irreflexive(a);
    assert(i == j) by {
        if i < j {
            assert(precedes(a, b));
        } else if j < i {
            assert(precedes(b, a));
        }
    }
}

/// The entries are those of the map, in the order of their keys.
pub open spec fn lists(
    entries: Seq<(String, String)>,
    map: Map<Seq<char>, Seq<char>>,
) -> bool {
    &&& ascending(entries)
    &&& forall|key: Seq<char>| #[trigger]
        map.contains_key(key) <==> exists|i: int| holds_at(entries, key, i)
    &&& forall|i: int|
        #![trigger entries[i]]
        0 <= i < entries.len() ==> map[entries[i].0@] == entries[i].1@
}

proof fn lemma_lists_contents(entries: Seq<(String, String)>)
    requires
        ascending(entries),
    ensures
        lists(entries, contents(entries)),
{
    assert forall|i: int| #![trigger entries[i]] 0 <= i < entries.len() implies contents(
        entries,
    )[entries[i].0@] == entries[i].1@ by {
        lemma_contents_at(entries, entries[i].0@, i);
    }
}

proof fn lemma_lists_drop_last(
    entries: Seq<(String, String)>,
    map: Map<Seq<char>, Seq<char>>,
)
    requires
        lists(entries, map),
        entries.len() > 0,
    ensures
        lists(entries.drop_last(), map.remove(entries.last().0@)),
{
    let rest = entries.drop_last();
    let n = entries.len() - 1;
    let last = entries[n].0@;
    let fewer = map.remove(last);
    assert forall|i: int, j: int|
        #![trigger key_bytes(rest, i), key_bytes(rest, j)]
        0 <= i < j < rest.len() implies precedes(key_bytes(rest, i), key_bytes(rest, j)) by {
        assert(precedes(key_bytes(entries, i), key_bytes(entries, j)));
    }
    assert forall|i: int|
        #![trigger rest[i]]
        0 <= i < rest.len() implies rest[i].0@ != last && map[rest[i].0@]
        == rest[i].1@ && holds_at(entries, rest[i].0@, i) by {
        assert(rest[i] == entries[i]);
        assert(precedes(key_bytes(entries, i), key_bytes(entries, n)));
        lemma_precedes_irreflexive(key_bytes(entries, n));
    }
    assert forall|key: Seq<char>| #[trigger]
        fewer.contains_key(key) <==> exists|i: int| holds_at(rest, key, i) by {
        if fewer.contains_key(key) {
            assert(map.contains_key(key));
            let i = choose|i: int| holds_at(entries, key, i);
            assert(holds_at(rest, key, i));
        }
        if exists|i: int| holds_at(rest, key, i) {
            let i = choose|i: int| holds_at(rest, key, i);
            assert(rest[i].0@ == key);
            assert(holds_at(entries, key, i));
        }
    }
}

/// A map has one listing: two maps hold the same entries exactly when their
/// entries read the same, one by one.
pub proof fn law_one_listing(
    a: Seq<(String, String)>,
    b: Seq<(String, String)>,
    map: Map<Seq<char>, Seq<char>>,
)
    requires
        lists(a, map),
        lists(b, map),
    ensures
        a.len() == b.len(),
        forall|i: int|
            #![trigger a[i]]
            #![trigger b[i]]
            0 <= i < a.len() ==> a[i].0@ == b[i].0@ && a[i].1@ == b[i].1@,
    decreases a.len(),
{
    if a.len() == 0 || b.len() == 0 {
        if b.len() > 0 {
            assert(holds_at(b, b[0].0@, 0));
            assert(map.contains_key(b[0].0@));
        }
        if a.len() > 0 {
            assert(holds_at(a, a[0].0@, 0));
            assert(map.contains_key(a[0].0@));
        }
    } else {
        let m = a.len() - 1;
        let n = b.len() - 1;
        let x = a[m].0@;
        let y = b[n].0@;
        assert(holds_at(a, x, m));
        assert(holds_at(b, y, n));
        assert(map.contains_key(x));
        assert(map.contains_key(y));
        let i = choose|i: int| holds_at(a, y, i);
        let j = choose|j: int| holds_at(b, x, j);
        assert(x == y) by {
            if i < m && j < n {
                assert(precedes(key_bytes(a, i), key_bytes(a, m)));
                assert(precedes(key_bytes(b, j), key_bytes(b, n)));
                lemma_precedes_transitive(key_bytes(a, i), key_bytes(a, m), key_bytes(b, n));
                lemma_precedes_irreflexive(key_bytes(a, i));
            }
        }
        lemma_lists_drop_last(a, map);
        lemma_lists_drop_last(b, map);
        law_one_listing(a.drop_last(), b.drop_last(), map.remove(x));
        assert forall|k: int|
            #![trigger a[k]]
            #![trigger b[k]]
            0 <= k < a.len() implies a[k].0@ == b[k].0@ && a[k].1@ == b[k].1@ by {
            if k < m {
                assert(a.drop_last()[k] == a[k]);
                assert(b.drop_last()[k] == b[k]);
            }
        }
    }
}

/// A listing of a map holds every key with its value, once, and no other; of
/// two of its keys, the one that differs first by a smaller byte, or ends
/// first, stands first.
pub proof fn law_listing(
    entries: Seq<(String, String)>,
    map: Map<Seq<char>, Seq<char>>,
    key: Seq<char>,
    i: int,
    j: int,
)
    requires
        lists(entries, map),
        0 <= i < j < entries.len(),
    ensures
        map.contains_key(key) <==> exists|k: int|
            0 <= k < entries.len() && (#[trigger] entries[k]).0@ == key,
        map.contains_key(entries[i].0@) && map[entries[i].0@] == entries[i].1@,
        map.contains_key(entries[j].0@) && map[entries[j].0@] == entries[j].1@,
        entries[i].0@ != entries[j].0@,
        exists|n: int|
            #![trigger encode_utf8(entries[i].0@).take(n)]
            0 <= n <= encode_utf8(entries[i].0@).len() && n < encode_utf8(entries[j].0@).len()
                && encode_utf8(entries[i].0@).take(n) == encode_utf8(entries[j].0@).take(n) && (n
                == encode_utf8(entries[i].0@).len() || encode_utf8(entries[i].0@)[n]
                < encode_utf8(entries[j].0@)[n]),
{
    let a = key_bytes(entries, i);
    let b = key_bytes(entries, j);
    assert(precedes(a, b));
    lemma_precedes_irreflexive(a);
    let n = choose|n: int| differs_at(a, b, n);
    assert(a.take(n) =~= b.take(n));
    assert(holds_at(entries, entries[i].0@, i));
    assert(holds_at(entries, entries[j].0@, j));
    if map.contains_key(key) {
        let k = choose|k: int| holds_at(entries, key, k);
        assert(entries[k].0@ == key);
    }
    if exists|k: int| 0 <= k < entries.len() && (#[trigger] entries[k]).0@ == key {
        let k = choose|k: int| 0 <= k < entries.len() && (#[trigger] entries[k]).0@ == key;
        assert(holds_at(entries, key, k));
    }
}

/// Where `key` stands or would stand.
spec fn is_place(entries: Seq<(String, String)>, key: Seq<char>, at: int, found: bool) -> bool {
    &&& 0 <= at <= entries.len()
    &&& found ==> at < entries.len() && entries[at].0@ == key
    &&& !found ==> forall|i: int|
        #![trigger key_bytes(entries, i)]
        at <= i < entries.len() ==> precedes(encode_utf8(key), key_bytes(entries, i))
    &&& forall|i: int|
        #![trigger key_bytes(entries, i)]
        0 <= i < at ==> precedes(key_bytes(entries, i), encode_utf8(key))
}

/// If a key's place is empty, the map does not hold it.
proof fn lemma_absent(entries: Seq<(String, String)>, key: Seq<char>, at: int)
    requires
        is_place(entries, key, at, false),
    ensures
        !contents(entries).contains_key(key),
{
    if contents(entries).contains_key(key) {
        let i = choose|i: int| holds_at(entries, key, i);
        lemma_precedes_irreflexive(encode_utf8(key));
        assert(key_bytes(entries, i) == encode_utf8(key));
    }
}

fn find_place(entries: &Vec<(String, String)>, key: &str) -> (place: (usize, bool))
    requires
        ascending(entries@),
    ensures
        is_place(entries@, key@, place.0 as int, place.1),
{
    let bytes = key.as_bytes();
    let mut at: usize = 0;
    while at < entries.len()
        invariant
            at <= entries@.len(),
            bytes@ == encode_utf8(key@),
            ascending(entries@),
            forall|i: int|
                #![trigger key_bytes(entries@, i)]
                0 <= i < at ==> precedes(key_bytes(entries@, i), encode_utf8(key@)),
        decreases entries@.len() - at,
    {
        let other = entries[at].0.as_str().as_bytes();
        assert(other@ == key_bytes(entries@, at as int));
        match place(bytes, other) {
            Placement::Same => {
                proof {
                    lemma_same_bytes(key@, entries@[at as int].0@);
                }
                return (at, true);
            },
            Placement::Before => {
                proof {
                    assert forall|i: int|
                        #![trigger key_bytes(entries@, i)]
                        at <= i < entries@.len() implies precedes(
                        encode_utf8(key@),
                        key_bytes(entries@, i),
                    ) by {
                        if i > at {
                            lemma_precedes_transitive(
                                encode_utf8(key@),
                                key_bytes(entries@, at as int),
                                key_bytes(entries@, i),
                            );
                        }
                    }
                }
                return (at, false);
            },
            Placement::After => {},
        }
        at += 1;
    }
    (at, false)
}

/// An ordered map from text to text.
#[derive(Debug, PartialEq, Eq)]
pub struct TextMap {
    entries: Vec<(String, String)>,
}

impl View for TextMap {
    type V = Map<Seq<char>, Seq<char>>;

    closed spec fn view(&self) -> Map<Seq<char>, Seq<char>> {
        contents(self.entries@)
    }
}

impl TextMap {
    #[verifier::type_invariant]
    spec fn ordered(&self) -> bool {
        ascending(self.entries@)
    }

    pub fn new() -> (map: Self)
        ensures
            map@ == Map::<Seq<char>, Seq<char>>::empty(),
    {
        let map = TextMap { entries: Vec::new() };
        assert(map@ =~= Map::empty());
        map
    }

    pub fn get(&self, key: &str) -> (value: Option<&String>)
        ensures
            value is Some <==> self@.contains_key(key@),
            value matches Some(text) ==> text@ == self@[key@],
    {
        proof {
            use_type_invariant(self);
        }
        let (at, found): (usize, bool) = find_place(&self.entries, key);
        if found {
            proof {
                lemma_contents_at(self.entries@, key@, at as int);
            }
            Some(&self.entries[at].1)
        } else {
            proof {
                lemma_absent(self.entries@, key@, at as int);
            }
            None
        }
    }

    /// All entries, in the order of their keys.
    pub fn entries(&self) -> (entries: &Vec<(String, String)>)
        ensures
            lists(entries@, self@),
    {
        proof {
            use_type_invariant(self);
            lemma_lists_contents(self.entries@);
        }
        &self.entries
    }

    pub fn contains_key(&self, key: &str) -> (held: bool)
        ensures
            held == self@.contains_key(key@),
    {
        self.get(key).is_some()
    }

    /// Sets the value of a key and hands back the one it had before.
    pub fn insert(&mut self, key: String, value: String) -> (previous: Option<String>)
        ensures
            final(self)@ == old(self)@.insert(key@, value@),
            previous is Some <==> old(self)@.contains_key(key@),
            previous matches Some(text) ==> text@ == old(self)@[key@],
    {
        proof {
            use_type_invariant(&*self);
        }
        let mut entries: Vec<(String, String)> = Vec::new();
        std::mem::swap(&mut entries, &mut self.entries);
        let ghost before = entries@;
        let ghost wanted = key@;
        let ghost text = value@;
        let (at, found): (usize, bool) = find_place(&entries, key.as_str());
        let previous = if found {
            let (kept, old_value) = entries.remove(at);
            entries.insert(at, (kept, value));
            proof {
                lemma_contents_at(before, wanted, at as int);
            }
            Some(old_value)
        } else {
            entries.insert(at, (key, value));
            proof {
                lemma_absent(before, wanted, at as int);
            }
            None
        };
        proof {
            lemma_inserted(before, entries@, wanted, text, at as int, found);
        }
        self.entries = entries;
        previous
    }

    /// Removes a key and hands back the value it had.
    pub fn remove(&mut self, key: &str) -> (previous: Option<String>)
        ensures
            final(self)@ == old(self)@.remove(key@),
            previous is Some <==> old(self)@.contains_key(key@),
            previous matches Some(text) ==> text@ == old(self)@[key@],
    {
        proof {
            use_type_invariant(&*self);
        }
        let mut entries: Vec<(String, String)> = Vec::new();
        std::mem::swap(&mut entries, &mut self.entries);
        let ghost before = entries@;
        let (at, found): (usize, bool) = find_place(&entries, key);
        if found {
            let (_, old_value) = entries.remove(at);
            proof {
                lemma_contents_at(before, key@, at as int);
                lemma_removed(before, entries@, key@, at as int);
            }
            self.entries = entries;
            Some(old_value)
        } else {
            proof {
                lemma_absent(before, key@, at as int);
                assert(contents(before) =~= contents(before).remove(key@));
            }
            self.entries = entries;
            None
        }
    }
}

impl Default for TextMap {
    fn default() -> (map: Self)
        ensures
            map@ == Map::<Seq<char>, Seq<char>>::empty(),
    {
        TextMap::new()
    }
}

impl Clone for TextMap {
    fn clone(&self) -> (copy: Self)
        ensures
            copy@ == self@,
    {
        proof {
            use_type_invariant(self);
        }
        let mut entries: Vec<(String, String)> = Vec::new();
        let mut i: usize = 0;
        while i < self.entries.len()
            invariant
                i <= self.entries@.len(),
                entries@ == self.entries@.take(i as int),
            decreases self.entries@.len() - i,
        {
            let (key, value): &(String, String) = &self.entries[i];
            entries.push((key.clone(), value.clone()));
            i += 1;
            assert(entries@ =~= self.entries@.take(i as int));
        }
        assert(entries@ =~= self.entries@);
        TextMap { entries }
    }
}

/// Setting a key at its place keeps the order and changes that key only.
proof fn lemma_inserted(
    before: Seq<(String, String)>,
    after: Seq<(String, String)>,
    key: Seq<char>,
    value: Seq<char>,
    at: int,
    found: bool,
)
    requires
        ascending(before),
        is_place(before, key, at, found),
        at < after.len(),
        after[at].0@ == key,
        after[at].1@ == value,
        found ==> after.len() == before.len() && forall|i: int|
            0 <= i < before.len() && i != at ==> after[i] == before[i],
        !found ==> after.len() == before.len() + 1 && (forall|i: int|
            0 <= i < at ==> after[i] == before[i]) && (forall|i: int|
            at <= i < before.len() ==> after[i + 1] == before[i]),
    ensures
        ascending(after),
        contents(after) == contents(before).insert(key, value),
{
    // Where each entry was before.
    let origin = |i: int|
        if found || i < at {
            i
        } else {
            i - 1
        };
    assert forall|i: int| 0 <= i < after.len() && i != at implies #[trigger] after[i]
        == before[origin(i)] by {
        if !found && i > at {
            assert(after[(i - 1) + 1] == before[i - 1]);
        }
    }
    assert forall|i: int, j: int|
        #![trigger key_bytes(after, i), key_bytes(after, j)]
        0 <= i < j < after.len() implies precedes(key_bytes(after, i), key_bytes(after, j)) by {
        if i != at && j != at {
            assert(key_bytes(after, i) == key_bytes(before, origin(i)));
            assert(key_bytes(after, j) == key_bytes(before, origin(j)));
        } else if j == at {
            assert(key_bytes(after, i) == key_bytes(before, i));
        } else {
            assert(key_bytes(after, j) == key_bytes(before, origin(j)));
            if found {
                assert(precedes(key_bytes(before, at), key_bytes(before, j)));
            }
        }
    }
    let a = contents(before);
    let b = contents(after);
    assert(holds_at(after, key, at));
    lemma_contents_at(after, key, at);
    lemma_precedes_irreflexive(encode_utf8(key));
    assert forall|k: Seq<char>|
        #![trigger b.contains_key(k)]
        k != key implies b.contains_key(k) == a.contains_key(k) && (a.contains_key(k) ==> b[k]
        == a[k]) by {
        if a.contains_key(k) {
            let i = choose|i: int| holds_at(before, k, i);
            let j = if found || i < at {
                i
            } else {
                i + 1
            };
            assert(after[j] == before[i]);
            assert(holds_at(after, k, j));
            lemma_contents_at(after, k, j);
            lemma_contents_at(before, k, i);
        }
        if b.contains_key(k) {
            let j = choose|j: int| holds_at(after, k, j);
            assert(after[j] == before[origin(j)]);
            assert(holds_at(before, k, origin(j)));
        }
    }
    let c = a.insert(key, value);
    assert forall|k: Seq<char>| #[trigger] b.contains_key(k) <==> c.contains_key(k) by {}
    assert forall|k: Seq<char>| #[trigger] b.contains_key(k) implies b[k] == c[k] by {}
    assert(b =~= c);
}

/// Taking an entry out keeps the order and removes that key only.
proof fn lemma_removed(
    before: Seq<(String, String)>,
    after: Seq<(String, String)>,
    key: Seq<char>,
    at: int,
)
    requires
        ascending(before),
        holds_at(before, key, at),
        after == before.remove(at),
    ensures
        ascending(after),
        contents(after) == contents(before).remove(key),
{
    let origin = |i: int|
        if i < at {
            i
        } else {
            i + 1
        };
    assert forall|i: int| 0 <= i < after.len() implies #[trigger] after[i] == before[origin(i)] by {}
    assert forall|i: int, j: int|
        #![trigger key_bytes(after, i), key_bytes(after, j)]
        0 <= i < j < after.len() implies precedes(key_bytes(after, i), key_bytes(after, j)) by {
        assert(key_bytes(after, i) == key_bytes(before, origin(i)));
        assert(key_bytes(after, j) == key_bytes(before, origin(j)));
    }
    let a = contents(before);
    let b = contents(after);
    assert forall|k: Seq<char>| #[trigger] b.contains_key(k) <==> a.contains_key(k) && k != key by {
        if b.contains_key(k) {
            let j = choose|j: int| holds_at(after, k, j);
            assert(after[j] == before[origin(j)]);
            assert(holds_at(before, k, origin(j)));
            if k == key {
                lemma_precedes_irreflexive(key_bytes(before, at));
                assert(key_bytes(before, origin(j)) == key_bytes(before, at));
            }
        }
        if a.contains_key(k) && k != key {
            let i = choose|i: int| holds_at(before, k, i);
            let j = if i < at {
                i
            } else {
                i - 1
            };
            assert(after[j] == before[i]);
            assert(holds_at(after, k, j));
        }
    }
    assert forall|k: Seq<char>| #[trigger] b.contains_key(k) implies b[k] == a[k] by {
        let j = choose|j: int| holds_at(after, k, j);
        assert(after[j] == before[origin(j)]);
        assert(holds_at(before, k, origin(j)));
        lemma_contents_at(after, k, j);
        lemma_contents_at(before, k, origin(j));
    }
    assert(b =~= a.remove(key));
}

} // verus!
