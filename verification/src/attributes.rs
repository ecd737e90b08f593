use vstd::prelude::*;
use crate::render::attributes_text;
use vstd::string::*;

verus! {

/// The attributes of an element: a mapping from attribute names to values in
/// which every name occurs once.
///
/// The attributes are kept in some order, [`Attributes::listing`], which is
/// the order in which an element writes them out. Nothing is promised about
/// that order: an insertion may put the new attribute anywhere.
#[derive(Debug)]
pub struct Attributes {
    entries: Vec<(String, String)>,
}

/// Whether no two pairs of `pairs` have the same first component.
pub open spec fn distinct_keys(pairs: Seq<(Seq<char>, Seq<char>)>) -> bool {
    forall|i: int, j: int|
        0 <= i < j < pairs.len() ==> (#[trigger] pairs[i]).0 != (#[trigger] pairs[j]).0
}

/// Whether `pairs` lists the mapping `map`: every key once, with its value.
pub open spec fn lists(pairs: Seq<(Seq<char>, Seq<char>)>, map: Map<Seq<char>, Seq<char>>) -> bool {
    &&& distinct_keys(pairs)
    &&& forall|i: int|
        0 <= i < pairs.len() ==> map.contains_key((#[trigger] pairs[i]).0) && map[pairs[i].0]
            == pairs[i].1
    &&& forall|k: Seq<char>|
        map.contains_key(k) ==> exists|i: int| 0 <= i < pairs.len() && (#[trigger] pairs[i]).0 == k
}

impl Attributes {
    #[verifier::type_invariant]
    closed spec fn well_formed(self) -> bool {
        distinct_keys(self.listing())
    }

    /// The attributes as pairs of name and value, in the order in which they
    /// are written out.
    pub closed spec fn listing(self) -> Seq<(Seq<char>, Seq<char>)> {
        Seq::new(self.entries@.len(), |i: int| (self.entries@[i].0@, self.entries@[i].1@))
    }

    /// Whether `key` is the name of an attribute.
    pub open spec fn has(self, key: Seq<char>) -> bool {
        exists|i: int| 0 <= i < self.listing().len() && (#[trigger] self.listing()[i]).0 == key
    }

    /// The place of `key` in the listing.
    pub open spec fn place(self, key: Seq<char>) -> int {
        choose|i: int| 0 <= i < self.listing().len() && (#[trigger] self.listing()[i]).0 == key
    }

    /// A listing without repeated names lists the mapping.
    pub proof fn lemma_listing(self)
        requires
            distinct_keys(self.listing()),
        ensures
            lists(self.listing(), self@),
    {
        let l = self.listing();
        assert forall|i: int| 0 <= i < l.len() implies self@.contains_key((#[trigger] l[i]).0)
            && self@[l[i].0] == l[i].1 by {
            assert(self.has(l[i].0));
            let p: int = self.place(l[i].0);
            if p < i {
                assert(l[p].0 != l[i].0);
            } else if i < p {
                assert(l[i].0 != l[p].0);
            }
        }
    }

    /// An empty set of attributes.
    pub fn new() -> (r: Attributes)
        ensures
            r@ == Map::<Seq<char>, Seq<char>>::empty(),
            r.listing().len() == 0,
    {
        let r = Attributes { entries: Vec::new() };
        assert(r@ =~= Map::<Seq<char>, Seq<char>>::empty());
        r
    }

    /// The number of attributes.
    pub fn len(&self) -> (n: usize)
        ensures
            n == self.listing().len(),
            n == self@.dom().len(),
            self@.dom().finite(),
            lists(self.listing(), self@),
    {
        proof {
            use_type_invariant(self);
            self.lemma_listing();
            lemma_lists_len(self.listing(), self@);
        }
        self.entries.len()
    }

    /// Whether there is no attribute.
    pub fn is_empty(&self) -> (b: bool)
        ensures
            b == (self.listing().len() == 0),
            b == (self@ == Map::<Seq<char>, Seq<char>>::empty()),
    {
        proof {
            use_type_invariant(self);
            if self.listing().len() == 0 {
                assert(self@ =~= Map::<Seq<char>, Seq<char>>::empty());
            } else {
                assert(self@.contains_key(self.listing()[0].0));
            }
        }
        self.entries.len() == 0
    }

    /// The name and the value of the attribute at place `i` of the listing.
    pub fn entry(&self, i: usize) -> (r: (&String, &String))
        requires
            i < self.listing().len(),
        ensures
            (r.0@, r.1@) == self.listing()[i as int],
    {
        (&self.entries[i].0, &self.entries[i].1)
    }

    /// The attributes as they are written in a tag, in the order of the
    /// listing.
    pub fn to_string(&self) -> (r: String)
        ensures
            r@ == attributes_text(self.listing()),
    {
        let mut text = String::new();
        let mut i: usize = 0;
        while i < self.entries.len()
            invariant
                i <= self.entries@.len(),
                text@ == attributes_text(self.listing().take(i as int)),
            decreases self.entries@.len() - i,
        {
            proof {
                assert(self.listing().take(i + 1).drop_last() =~= self.listing().take(i as int));
            }
            text.append(" ");
            text.append(self.entries[i].0.as_str());
            text.append("=\"");
            text.append(self.entries[i].1.as_str());
            text.append("\"");
            i += 1;
        }
        proof {
            assert(self.listing().take(i as int) =~= self.listing());
        }
        text
    }

    fn position(&self, key: &String) -> (r: Option<usize>)
        ensures
            match r {
                Some(i) => i < self.listing().len() && self.listing()[i as int].0 == key@,
                None => !self.has(key@),
            },
    {
        let mut i: usize = 0;
        while i < self.entries.len()
            invariant
                i <= self.entries@.len(),
                forall|j: int| 0 <= j < i ==> (#[trigger] self.listing()[j]).0 != key@,
            decreases self.entries@.len() - i,
        {
            if self.entries[i].0 == *key {
                return Some(i);
            }
            i += 1;
        }
        None
    }

    /// The value of the attribute `key`, if there is one.
    pub fn get(&self, key: &str) -> (r: Option<&String>)
        ensures
            match r {
                Some(v) => self@.contains_key(key@) && v@ == self@[key@],
                None => !self@.contains_key(key@),
            },
    {
        proof {
            use_type_invariant(self);
        }
        let owned = String::from_str(key);
        match self.position(&owned) {
            Some(i) => {
                assert(self.listing()[i as int].0 == key@);
                assert(self.has(key@));
                Some(&self.entries[i].1)
            },
            None => None,
        }
    }

    /// Whether `key` is the name of an attribute.
    pub fn contains_key(&self, key: &str) -> (b: bool)
        ensures
            b == self@.contains_key(key@),
    {
        let owned = String::from_str(key);
        self.position(&owned).is_some()
    }

    /// Sets the attribute `key` to `value` and returns the value that it had
    /// before, if it had one.
    pub fn insert(&mut self, key: String, value: String) -> (r: Option<String>)
        ensures
            final(self)@ == old(self)@.insert(key@, value@),
            match r {
                Some(v) => old(self)@.contains_key(key@) && v@ == old(self)@[key@],
                None => !old(self)@.contains_key(key@),
            },
    {
        proof {
            use_type_invariant(&*self);
        }
        let ghost before = *self;
        match self.position(&key) {
            Some(i) => {
                assert(before.listing()[i as int].0 == key@);
                assert(before.has(key@));
                let mut entries = Vec::new();
                std::mem::swap(&mut entries, &mut self.entries);
                entries.push((key, value));
                let previous = entries.swap_remove(i);
                let ghost after = Seq::new(
                    entries@.len(),
                    |j: int| (entries@[j].0@, entries@[j].1@),
                );
                proof {
                    assert(after =~= before.listing().update(i as int, (key@, value@)));
                    assert forall|a: int, b: int| 0 <= a < b < after.len() implies (
                    #[trigger] after[a]).0 != (#[trigger] after[b]).0 by {
                        assert(after[a].0 == before.listing()[a].0);
                        assert(after[b].0 == before.listing()[b].0);
                    }
                }
                self.entries = entries;
                proof {
                    assert(self.listing() =~= after);
                    lemma_replaced(before, *self, i as int, key@, value@);
                }
                Some(previous.1)
            },
            None => {
                let mut entries = Vec::new();
                std::mem::swap(&mut entries, &mut self.entries);
                entries.push((key, value));
                let ghost after = Seq::new(
                    entries@.len(),
                    |j: int| (entries@[j].0@, entries@[j].1@),
                );
                proof {
                    assert(after =~= before.listing().push((key@, value@)));
                    assert forall|a: int, b: int| 0 <= a < b < after.len() implies (
                    #[trigger] after[a]).0 != (#[trigger] after[b]).0 by {
                        assert(after[a] == before.listing()[a]);
                        if b < after.len() - 1 {
                            assert(after[b] == before.listing()[b]);
                        }
                    }
                }
                self.entries = entries;
                proof {
                    assert(self.listing() =~= after);
                    lemma_added(before, *self, key@, value@);
                }
                None
            },
        }
    }
}

impl View for Attributes {
    type V = Map<Seq<char>, Seq<char>>;

    /// The attributes as a mapping from names to values.
    open spec fn view(&self) -> Map<Seq<char>, Seq<char>> {
        Map::new(|k: Seq<char>| self.has(k), |k: Seq<char>| self.listing()[self.place(k)].1)
    }
}

/// What [`Attributes::insert`] leaves where the name was there before.
proof fn lemma_replaced(
    before: Attributes,
    after: Attributes,
    i: int,
    key: Seq<char>,
    value: Seq<char>,
)
    requires
        distinct_keys(before.listing()),
        distinct_keys(after.listing()),
        0 <= i < before.listing().len(),
        before.listing()[i].0 == key,
        after.listing() == before.listing().update(i, (key, value)),
    ensures
        after@ == before@.insert(key, value),
{
    let b = before.listing();
    let a = after.listing();
    assert forall|k: Seq<char>| after.has(k) <==> (k == key || before.has(k)) by {
        if after.has(k) {
            let j: int = after.place(k);
            assert(a[j].0 == b[j].0);
        }
        if before.has(k) {
            let j: int = before.place(k);
            assert(a[j].0 == b[j].0);
        }
        if k == key {
            assert(a[i].0 == key);
        }
    }
    assert forall|k: Seq<char>| after.has(k) implies after@[k] == before@.insert(key, value)[k] by {
        let j: int = after.place(k);
        if k == key {
            assert(a[i].0 == key);
            if j < i {
                assert(a[j].0 != a[i].0);
            } else if i < j {
                assert(a[i].0 != a[j].0);
            }
        } else {
            assert(a[j] == b[j]);
            assert(before.has(k));
            let p: int = before.place(k);
            if p < j {
                assert(b[p].0 != b[j].0);
            } else if j < p {
                assert(b[j].0 != b[p].0);
            }
        }
    }
    assert(after@ =~= before@.insert(key, value));
}

/// What [`Attributes::insert`] leaves where the name is new.
proof fn lemma_added(before: Attributes, after: Attributes, key: Seq<char>, value: Seq<char>)
    requires
        distinct_keys(before.listing()),
        distinct_keys(after.listing()),
        !before.has(key),
        after.listing() == before.listing().push((key, value)),
    ensures
        after@ == before@.insert(key, value),
{
    let b = before.listing();
    let a = after.listing();
    assert forall|k: Seq<char>| after.has(k) <==> (k == key || before.has(k)) by {
        if after.has(k) {
            let j: int = after.place(k);
            if j < a.len() - 1 {
                assert(a[j] == b[j]);
            }
        }
        if before.has(k) {
            let j: int = before.place(k);
            assert(a[j] == b[j]);
        }
        if k == key {
            assert(a[a.len() - 1].0 == key);
        }
    }
    assert forall|k: Seq<char>| after.has(k) implies after@[k] == before@.insert(key, value)[k] by {
        let j: int = after.place(k);
        if k == key {
            assert(a[a.len() - 1].0 == key);
            assert(j == a.len() - 1);
        } else {
            assert(j < a.len() - 1);
            assert(a[j] == b[j]);
            assert(before.has(k));
            assert(before.place(k) == j);
        }
    }
    assert(after@ =~= before@.insert(key, value));
}

/// A mapping has as many keys as a sequence that lists it has pairs.
pub proof fn lemma_lists_len(pairs: Seq<(Seq<char>, Seq<char>)>, map: Map<Seq<char>, Seq<char>>)
    requires
        lists(pairs, map),
    ensures
        map.dom().finite(),
        map.dom().len() == pairs.len(),
    decreases pairs.len(),
{
    if pairs.len() == 0 {
        assert(map.dom() =~= Set::<Seq<char>>::empty());
    } else {
        let last = pairs.last();
        let rest = pairs.drop_last();
        let smaller = map.remove(last.0);
        assert forall|i: int| 0 <= i < rest.len() implies smaller.contains_key(
            (#[trigger] rest[i]).0,
        ) && smaller[rest[i].0] == rest[i].1 by {
            assert(rest[i] == pairs[i]);
            assert(pairs[i].0 != pairs[pairs.len() - 1].0);
        }
        assert forall|k: Seq<char>| smaller.contains_key(k) implies exists|i: int|
            0 <= i < rest.len() && (#[trigger] rest[i]).0 == k by {
            let i: int = choose|i: int| 0 <= i < pairs.len() && (#[trigger] pairs[i]).0 == k;
            assert(rest[i] == pairs[i]);
        }
        assert forall|i: int, j: int| 0 <= i < j < rest.len() implies (#[trigger] rest[i]).0 != (
        #[trigger] rest[j]).0 by {
            assert(rest[i] == pairs[i]);
            assert(rest[j] == pairs[j]);
        }
        lemma_lists_len(rest, smaller);
        assert(map.contains_key(pairs[pairs.len() - 1].0));
        assert(map.dom() =~= smaller.dom().insert(last.0));
    }
}

} // verus!
