//! A map from text to values that keeps its keys in order.
//!
//! Text is ordered as its UTF-8 bytes are, byte by byte: the order of code
//! points, not of any alphabet.

use vstd::prelude::*;
use vstd::string::*;
use vstd::utf8::*;

verus! {

/// `a` comes before `b` in dictionary order: at the first place where they
/// differ `a` has the smaller byte, or `a` ends there and `b` goes on.
pub open spec fn bytes_before(a: Seq<u8>, b: Seq<u8>) -> bool
    decreases a.len(),
{
    if b.len() == 0 {
        false
    } else if a.len() == 0 {
        true
    } else if a[0] != b[0] {
        a[0] < b[0]
    } else {
        bytes_before(a.skip(1), b.skip(1))
    }
}

/// `a` comes before `b` in the order of their UTF-8 bytes.
pub open spec fn text_before(a: Seq<char>, b: Seq<char>) -> bool {
    bytes_before(encode_utf8(a), encode_utf8(b))
}

/// Every key comes before the keys behind it.
pub open spec fn increasing(keys: Seq<Seq<char>>) -> bool {
    forall|i: int, j: int| 0 <= i < j < keys.len() ==> text_before(#[trigger] keys[i], #[trigger] keys[j])
}

/// Of two byte strings exactly one holds: the first comes before the second,
/// they are equal, or the second comes before the first.
pub proof fn lemma_bytes_order(a: Seq<u8>, b: Seq<u8>)
    ensures
        bytes_before(a, b) || a == b || bytes_before(b, a),
        !(bytes_before(a, b) && bytes_before(b, a)),
        !(bytes_before(a, b) && a == b),
    decreases a.len(),
{
    if a.len() > 0 && b.len() > 0 && a[0] == b[0] {
        lemma_bytes_order(a.skip(1), b.skip(1));
        if a.skip(1) == b.skip(1) {
            assert(a =~= seq![a[0]] + a.skip(1));
            assert(b =~= seq![b[0]] + b.skip(1));
        }
        if a == b {
            assert(a.skip(1) == b.skip(1));
        }
    } else if a.len() == 0 && b.len() == 0 {
        assert(a =~= b);
    }
}

/// Dictionary order carries over: before something that is itself before a
/// third is before the third.
pub proof fn lemma_bytes_before_transitive(a: Seq<u8>, b: Seq<u8>, c: Seq<u8>)
    requires
        bytes_before(a, b),
        bytes_before(b, c),
    ensures
        bytes_before(a, c),
    decreases a.len(),
{
    if a.len() > 0 && a[0] == b[0] && b[0] == c[0] {
        lemma_bytes_before_transitive(a.skip(1), b.skip(1), c.skip(1));
    }
}

/// Of two texts exactly one holds: the first comes before the second, they
/// are equal, or the second comes before the first.
pub proof fn lemma_text_order(a: Seq<char>, b: Seq<char>)
    ensures
        text_before(a, b) || a == b || text_before(b, a),
        !(text_before(a, b) && text_before(b, a)),
        !(text_before(a, b) && a == b),
{
    lemma_bytes_order(encode_utf8(a), encode_utf8(b));
    encode_utf8_decode_utf8(a);
    encode_utf8_decode_utf8(b);
}

/// The order of texts carries over.
pub proof fn lemma_text_before_transitive(a: Seq<char>, b: Seq<char>, c: Seq<char>)
    requires
        text_before(a, b),
        text_before(b, c),
    ensures
        text_before(a, c),
{
    lemma_bytes_before_transitive(encode_utf8(a), encode_utf8(b), encode_utf8(c));
}

/// In an increasing run no key occurs twice, so a key is found where it
/// stands.
pub proof fn lemma_increasing_index(keys: Seq<Seq<char>>, at: int)
    requires
        increasing(keys),
        0 <= at < keys.len(),
    ensures
        keys.contains(keys[at]),
        keys.index_of(keys[at]) == at,
{
    let found = keys.index_of(keys[at]);
    assert(keys[found] == keys[at]);
    if found < at {
        lemma_text_order(keys[found], keys[at]);
    } else if at < found {
        lemma_text_order(keys[at], keys[found]);
    }
}

/// Two increasing runs of the same keys are the same run: the keys alone
/// say in which order they lie.
pub proof fn lemma_increasing_unique(a: Seq<Seq<char>>, b: Seq<Seq<char>>)
    requires
        increasing(a),
        increasing(b),
        forall|key: Seq<char>| a.contains(key) <==> b.contains(key),
    ensures
        a == b,
    decreases a.len(),
{
    if a.len() == 0 {
        if b.len() > 0 {
            assert(b.contains(b[0]));
        }
        assert(a =~= b);
    } else {
        assert(a.contains(a[0]));
        let j = b.index_of(a[0]);
        assert(b[j] == a[0]);
        assert(b.contains(b[0]));
        let i = a.index_of(b[0]);
        assert(a[i] == b[0]);
        if a[0] != b[0] {
            assert(text_before(a[0], a[i]));
            assert(text_before(b[0], b[j]));
            lemma_text_order(a[0], b[0]);
        }
        let rest_a = a.skip(1);
        let rest_b = b.skip(1);
        assert forall|x: int, y: int| 0 <= x < y < rest_a.len() implies text_before(
            #[trigger] rest_a[x],
            #[trigger] rest_a[y],
        ) by {
            assert(text_before(a[x + 1], a[y + 1]));
        }
        assert forall|x: int, y: int| 0 <= x < y < rest_b.len() implies text_before(
            #[trigger] rest_b[x],
            #[trigger] rest_b[y],
        ) by {
            assert(text_before(b[x + 1], b[y + 1]));
        }
        assert forall|key: Seq<char>| rest_a.contains(key) <==> rest_b.contains(key) by {
            if rest_a.contains(key) {
                let x = rest_a.index_of(key);
                assert(a[x + 1] == key);
                assert(text_before(a[0], a[x + 1]));
                lemma_text_order(a[0], key);
                assert(a.contains(key));
                let y = b.index_of(key);
                assert(b[y] == key);
                assert(y != 0);
                assert(rest_b[y - 1] == key);
            }
            if rest_b.contains(key) {
                let y = rest_b.index_of(key);
                assert(b[y + 1] == key);
                assert(text_before(b[0], b[y + 1]));
                lemma_text_order(b[0], key);
                assert(b.contains(key));
                let x = a.index_of(key);
                assert(a[x] == key);
                assert(x != 0);
                assert(rest_a[x - 1] == key);
            }
        }
        lemma_increasing_unique(rest_a, rest_b);
        assert(a =~= seq![a[0]] + rest_a);
        assert(b =~= seq![b[0]] + rest_b);
    }
}

/// How one text stands to another.
#[derive(Clone, Copy, Debug, PartialEq, Eq)]
pub enum TextOrder {
    Before,
    Same,
    After,
}

/// Says how `a` stands to `b` in the order of their UTF-8 bytes.
pub fn compare_text(a: &str, b: &str) -> (order: TextOrder)
    ensures
        order is Before <==> text_before(a@, b@),
        order is Same <==> a@ == b@,
        order is After <==> text_before(b@, a@),
{
    let left = a.as_bytes();
    let right = b.as_bytes();
    proof {
        lemma_text_order(a@, b@);
        assert(left@.skip(0) =~= left@);
        assert(right@.skip(0) =~= right@);
    }
    let mut at: usize = 0;
    while at < left.len() && at < right.len()
        invariant
            at <= left.len(),
            at <= right.len(),
            left@ == encode_utf8(a@),
            right@ == encode_utf8(b@),
            forall|i: int| 0 <= i < at ==> left@[i] == right@[i],
            bytes_before(left@, right@) == bytes_before(left@.skip(at as int), right@.skip(at as int)),
            bytes_before(right@, left@) == bytes_before(right@.skip(at as int), left@.skip(at as int)),
            text_before(a@, b@) || a@ == b@ || text_before(b@, a@),
            !(text_before(a@, b@) && text_before(b@, a@)),
            !(text_before(a@, b@) && a@ == b@),
            !(text_before(b@, a@) && a@ == b@),
        decreases left.len() - at,
    {
        if left[at] < right[at] {
            return TextOrder::Before;
        }
        if left[at] > right[at] {
            return TextOrder::After;
        }
        proof {
            assert(left@.skip(at as int).skip(1) =~= left@.skip(at as int + 1));
            assert(right@.skip(at as int).skip(1) =~= right@.skip(at as int + 1));
        }
        at = at + 1;
    }
    if at < right.len() {
        TextOrder::Before
    } else if at < left.len() {
        TextOrder::After
    } else {
        proof {
            assert(left@ =~= right@);
            encode_utf8_decode_utf8(a@);
            encode_utf8_decode_utf8(b@);
        }
        TextOrder::Same
    }
}

/// A map from text to values whose entries lie in the order of their keys.
#[derive(Debug, PartialEq, Eq)]
pub struct OrderedMap<V> {
    entries: Vec<(String, V)>,
}

impl<V> OrderedMap<V> {
    /// The keys, in the order in which the entries lie.
    pub closed spec fn keys(&self) -> Seq<Seq<char>> {
        Seq::new(self.entries@.len(), |i: int| self.entries@[i].0@)
    }

    /// The values, each where its key is in [`Self::keys`].
    pub closed spec fn values(&self) -> Seq<V> {
        Seq::new(self.entries@.len(), |i: int| self.entries@[i].1)
    }

    /// The entries lie in increasing order of their keys, so that no key
    /// occurs twice.
    pub open spec fn wf(&self) -> bool {
        &&& self.keys().len() == self.values().len()
        &&& increasing(self.keys())
    }

    /// The map holds each key of [`Self::keys`] with the value that lies at
    /// the same place in [`Self::values`].
    pub proof fn lemma_listing(&self, at: int)
        requires
            self.wf(),
            0 <= at < self.keys().len(),
        ensures
            self@.contains_key(self.keys()[at]),
            self@[self.keys()[at]] == self.values()[at],
    {
        lemma_increasing_index(self.keys(), at);
    }

    /// Two maps that hold the same have the same keys and values in the
    /// same order: what a map holds says how it is laid out.
    pub proof fn lemma_same_view_same_listing(&self, other: &Self)
        requires
            self.wf(),
            other.wf(),
            self@ == other@,
        ensures
            self.keys() == other.keys(),
            self.values() == other.values(),
    {
        assert forall|key: Seq<char>| self.keys().contains(key) <==> other.keys().contains(
            key,
        ) by {
            assert(self@.contains_key(key) == self.keys().contains(key));
            assert(other@.contains_key(key) == other.keys().contains(key));
        }
        lemma_increasing_unique(self.keys(), other.keys());
        assert forall|i: int| 0 <= i < self.values().len() implies self.values()[i]
            == other.values()[i] by {
            self.lemma_listing(i);
            other.lemma_listing(i);
        }
        assert(self.values() =~= other.values());
    }

    /// A map with no entry.
    pub fn new() -> (map: Self)
        ensures
            map.wf(),
            map.keys() == Seq::<Seq<char>>::empty(),
            map.values() == Seq::<V>::empty(),
            map@ == Map::<Seq<char>, V>::empty(),
    {
        let map = OrderedMap { entries: Vec::new() };
        assert(map.keys() =~= Seq::<Seq<char>>::empty());
        assert(map.values() =~= Seq::<V>::empty());
        assert(map@ =~= Map::<Seq<char>, V>::empty());
        map
    }

    /// How many entries the map holds.
    pub fn len(&self) -> (count: usize)
        ensures
            count == self.keys().len(),
            count == self.values().len(),
    {
        self.entries.len()
    }

    /// The key of the entry at `at`, counting in key order.
    pub fn key(&self, at: usize) -> (key: &String)
        requires
            at < self.keys().len(),
        ensures
            key@ == self.keys()[at as int],
    {
        &self.entries[at].0
    }

    /// The value of the entry at `at`, counting in key order.
    pub fn value(&self, at: usize) -> (value: &V)
        requires
            at < self.values().len(),
        ensures
            *value == self.values()[at as int],
    {
        &self.entries[at].1
    }

    /// Where `key` stands or would stand: the number of keys before it, and
    /// whether the key at that place is `key`.
    pub fn position(&self, key: &str) -> (place: (usize, bool))
        requires
            self.wf(),
        ensures
            place.0 <= self.keys().len(),
            forall|i: int| 0 <= i < place.0 ==> text_before(#[trigger] self.keys()[i], key@),
            place.1 ==> place.0 < self.keys().len() && self.keys()[place.0 as int] == key@,
            !place.1 ==> forall|i: int|
                place.0 <= i < self.keys().len() ==> text_before(key@, #[trigger] self.keys()[i]),
            place.1 == self.keys().contains(key@),
    {
        let mut at: usize = 0;
        while at < self.entries.len()
            invariant
                at <= self.keys().len(),
                self.keys().len() == self.entries@.len(),
                self.wf(),
                forall|i: int| 0 <= i < at ==> text_before(#[trigger] self.keys()[i], key@),
            decreases self.entries.len() - at,
        {
            match compare_text(self.entries[at].0.as_str(), key) {
                TextOrder::Before => {
                    at = at + 1;
                },
                TextOrder::Same => {
                    proof {
                        assert(self.keys()[at as int] == key@);
                    }
                    return (at, true);
                },
                TextOrder::After => {
                    proof {
                        let keys = self.keys();
                        assert forall|i: int| at <= i < keys.len() implies text_before(
                            key@,
                            #[trigger] keys[i],
                        ) by {
                            if at < i {
                                lemma_text_before_transitive(key@, keys[at as int], keys[i]);
                            }
                        }
                        assert forall|i: int| 0 <= i < keys.len() implies keys[i] != key@ by {
                            lemma_text_order(keys[i], key@);
                        }
                    }
                    return (at, false);
                },
            }
        }
        proof {
            let keys = self.keys();
            assert forall|i: int| 0 <= i < keys.len() implies keys[i] != key@ by {
                lemma_text_order(keys[i], key@);
            }
        }
        (at, false)
    }

    /// The value that `key` maps to, if any.
    pub fn get(&self, key: &str) -> (value: Option<&V>)
        requires
            self.wf(),
        ensures
            match value {
                Some(found) => self@.contains_key(key@) && *found == self@[key@],
                None => !self@.contains_key(key@),
            },
    {
        let (at, found) = self.position(key);
        if found {
            proof {
                lemma_increasing_index(self.keys(), at as int);
            }
            Some(&self.entries[at].1)
        } else {
            None
        }
    }

    /// Maps `key` to `value`, in place of what it mapped to before.
    pub fn insert(&mut self, key: String, value: V)
        requires
            old(self).wf(),
        ensures
            final(self).wf(),
            final(self)@ == old(self)@.insert(key@, value),
    {
        let (at, found) = self.position(key.as_str());
        let ghost keys = self.keys();
        let ghost values = self.values();
        let ghost text = key@;
        if found {
            self.entries.set(at, (key, value));
            proof {
                assert(self.keys() =~= keys);
                assert(self.values() =~= values.update(at as int, value));
                lemma_increasing_index(keys, at as int);
                assert forall|k: Seq<char>| keys.contains(k) implies #[trigger] self@[k] == old(
                    self,
                )@.insert(text, value)[k] by {
                    let i = keys.index_of(k);
                    lemma_increasing_index(keys, i);
                }
                assert(self@ =~= old(self)@.insert(text, value));
            }
        } else {
            self.entries.insert(at, (key, value));
            proof {
                let grown = self.keys();
                assert(grown =~= keys.insert(at as int, text));
                assert(self.values() =~= values.insert(at as int, value));
                assert forall|i: int, j: int| 0 <= i < j < grown.len() implies text_before(
                    #[trigger] grown[i],
                    #[trigger] grown[j],
                ) by {
                    if j < at {
                        assert(text_before(keys[i], keys[j]));
                    } else if j == at {
                        assert(text_before(keys[i], text));
                    } else if i < at {
                        assert(text_before(keys[i], keys[j - 1]));
                    } else if i == at {
                        assert(text_before(text, keys[j - 1]));
                    } else {
                        assert(text_before(keys[i - 1], keys[j - 1]));
                    }
                }
                let after = self@;
                let want = old(self)@.insert(text, value);
                assert forall|k: Seq<char>| #[trigger] want.contains_key(k) implies after.contains_key(k)
                    && after[k] == want[k] by {
                    if k == text {
                        assert(grown[at as int] == text);
                        lemma_increasing_index(grown, at as int);
                    } else {
                        let i = keys.index_of(k);
                        lemma_increasing_index(keys, i);
                        if i < at {
                            assert(grown[i] == k);
                            lemma_increasing_index(grown, i);
                        } else {
                            assert(grown[i + 1] == k);
                            lemma_increasing_index(grown, i + 1);
                        }
                    }
                }
                assert forall|k: Seq<char>| #[trigger] after.contains_key(k) implies want.contains_key(k) by {
                    let i = grown.index_of(k);
                    if i < at {
                        assert(keys[i] == k);
                    } else if i > at {
                        assert(keys[i - 1] == k);
                    }
                }
                assert(after =~= want);
            }
        }
    }
}

impl<V> View for OrderedMap<V> {
    type V = Map<Seq<char>, V>;

    /// Each key with the value that lies where the key does.
    open spec fn view(&self) -> Map<Seq<char>, V> {
        Map::new(
            |key: Seq<char>| self.keys().contains(key),
            |key: Seq<char>| self.values()[self.keys().index_of(key)],
        )
    }
}

} // verus!
