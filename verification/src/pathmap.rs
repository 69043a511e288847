//! Collections keyed by path, kept in path order.

use crate::order::Standing;
use crate::types::FileRecord;
use vstd::prelude::*;

verus! {

/// Something that is found by its path.
pub trait HasPath: View + Sized {
    /// The path.
    spec fn key(&self) -> Seq<char>;

    /// The path.
    fn key_text(&self) -> (r: &str)
        ensures
            r@ == self.key(),
    ;
}

impl HasPath for String {
    open spec fn key(&self) -> Seq<char> {
        self@
    }

    fn key_text(&self) -> (r: &str) {
        self.as_str()
    }
}

impl HasPath for FileRecord {
    open spec fn key(&self) -> Seq<char> {
        self@.path
    }

    fn key_text(&self) -> (r: &str) {
        self.path.as_str()
    }
}

/// Items with different paths, in path order.
pub struct PathMap<T: HasPath> {
    items: Vec<T>,
}

/// The paths of some items.
pub open spec fn keys_of<T: HasPath>(items: Seq<T>) -> Seq<Seq<char>> {
    Seq::new(items.len(), |i: int| items[i].key())
}

/// Each path comes strictly before the later ones.
pub open spec fn ascending(keys: Seq<Seq<char>>) -> bool {
    forall|i: int, j: int|
        0 <= i < j < keys.len() ==> crate::order::text_lt(#[trigger] keys[i], #[trigger] keys[j])
}

/// The items as a map from their paths.
pub open spec fn entries_of<T: HasPath>(items: Seq<T>) -> Map<Seq<char>, T::V> {
    Map::new(
        |k: Seq<char>| keys_of(items).contains(k),
        |k: Seq<char>| items[keys_of(items).index_of(k)]@,
    )
}

/// A path stands at one position only.
pub proof fn lemma_key_position<T: HasPath>(items: Seq<T>, i: int)
    requires
        ascending(keys_of(items)),
        0 <= i < items.len(),
    ensures
        keys_of(items).contains(items[i].key()),
        keys_of(items).index_of(items[i].key()) == i,
        entries_of(items)[items[i].key()] == items[i]@,
{
    let keys = keys_of(items);
    assert(keys[i] == items[i].key());
    let k = keys.index_of(keys[i]);
    if k != i {
        crate::order::lemma_lex_irreflexive(vstd::utf8::encode_utf8(keys[i]));
        if k < i {
            assert(crate::order::text_lt(keys[k], keys[i]));
        } else {
            assert(crate::order::text_lt(keys[i], keys[k]));
        }
    }
}

impl<T: HasPath> PathMap<T> {
    /// The items in path order.
    pub closed spec fn items(&self) -> Seq<T> {
        self.items@
    }

    /// The paths ascend.
    pub open spec fn wf(&self) -> bool {
        ascending(keys_of(self.items()))
    }

    /// The items as a map from their paths.
    pub open spec fn entries(&self) -> Map<Seq<char>, T::V> {
        entries_of(self.items())
    }

    /// Nothing yet.
    pub fn new() -> (r: PathMap<T>)
        ensures
            r.wf(),
            r.items() == Seq::<T>::empty(),
            r.entries() == Map::<Seq<char>, T::V>::empty(),
    {
        let r = PathMap { items: Vec::new() };
        assert(r.items() =~= Seq::empty());
        assert(r.entries() =~= Map::empty());
        r
    }

    /// How many items there are.
    pub fn len(&self) -> (n: usize)
        requires
            self.wf(),
        ensures
            n == self.entries().len(),
            n == self.items().len(),
    {
        proof {
            let keys = keys_of(self.items());
            assert forall|i: int, j: int| 0 <= i < keys.len() && 0 <= j < keys.len() && i != j
                implies keys[i] != keys[j] by {
                lemma_key_position(self.items(), i);
                lemma_key_position(self.items(), j);
            }
            keys.unique_seq_to_set();
            assert(self.entries().dom() =~= keys.to_set());
        }
        self.items.len()
    }

    /// The items in path order.
    pub fn into_items(self) -> (r: Vec<T>)
        ensures
            r@ == self.items(),
    {
        self.items
    }

    /// The items in path order.
    pub fn as_slice(&self) -> (r: &[T])
        ensures
            r@ == self.items(),
    {
        self.items.as_slice()
    }

    /// Where `key` stands, or where it would have to stand.
    fn find(&self, key: &str) -> (r: (bool, usize))
        requires
            self.wf(),
        ensures
            r.1 <= self.items().len(),
            r.0 ==> r.1 < self.items().len() && self.items()[r.1 as int].key() == key@,
            !r.0 ==> !self.entries().contains_key(key@),
            forall|i: int|
                0 <= i < r.1 ==> crate::order::text_lt(#[trigger] keys_of(self.items())[i], key@),
            forall|i: int|
                r.1 <= i < self.items().len() && !r.0 ==> crate::order::text_lt(
                    key@,
                    #[trigger] keys_of(self.items())[i],
                ),
    {
        let ghost keys = keys_of(self.items());
        let mut low: usize = 0;
        let mut high: usize = self.items.len();
        while low < high
            invariant
                low <= high <= self.items@.len(),
                keys == keys_of(self.items@),
                ascending(keys),
                forall|i: int| 0 <= i < low ==> crate::order::text_lt(#[trigger] keys[i], key@),
                forall|i: int|
                    high <= i < keys.len() ==> crate::order::text_lt(key@, #[trigger] keys[i]),
            decreases high - low,
        {
            let mid: usize = low + (high - low) / 2;
            assert(keys[mid as int] == self.items@[mid as int].key());
            match crate::order::text_standing(self.items[mid].key_text(), key) {
                Standing::Before => {
                    proof {
                        assert forall|i: int| 0 <= i < mid + 1 implies crate::order::text_lt(
                            #[trigger] keys[i],
                            key@,
                        ) by {
                            if i < mid {
                                assert(crate::order::text_lt(keys[i], keys[mid as int]));
                                crate::order::lemma_lex_transitive(
                                    vstd::utf8::encode_utf8(keys[i]),
                                    vstd::utf8::encode_utf8(keys[mid as int]),
                                    vstd::utf8::encode_utf8(key@),
                                );
                            }
                        }
                    }
                    low = mid + 1;
                },
                Standing::Same => {
                    return (true, mid);
                },
                Standing::After => {
                    proof {
                        assert forall|i: int|
                            mid <= i < keys.len() implies crate::order::text_lt(
                            key@,
                            #[trigger] keys[i],
                        ) by {
                            if i > mid {
                                assert(crate::order::text_lt(keys[mid as int], keys[i]));
                                crate::order::lemma_lex_transitive(
                                    vstd::utf8::encode_utf8(key@),
                                    vstd::utf8::encode_utf8(keys[mid as int]),
                                    vstd::utf8::encode_utf8(keys[i]),
                                );
                            }
                        }
                    }
                    high = mid;
                },
            }
        }
        proof {
            if keys.contains(key@) {
                let i = keys.index_of(key@);
                crate::order::lemma_lex_irreflexive(vstd::utf8::encode_utf8(key@));
            }
        }
        (false, low)
    }

    /// Whether there is an item at this path.
    pub fn contains(&self, key: &str) -> (r: bool)
        requires
            self.wf(),
        ensures
            r == self.entries().contains_key(key@),
    {
        let (found, at): (bool, usize) = self.find(key);
        proof {
            if found {
                lemma_key_position(self.items(), at as int);
            }
        }
        found
    }

    /// The item at this path.
    pub fn get(&self, key: &str) -> (r: Option<&T>)
        requires
            self.wf(),
        ensures
            match r {
                Some(x) => x.key() == key@ && self.entries().contains_key(key@)
                    && self.entries()[key@] == x@ && self.items().contains(*x),
                None => !self.entries().contains_key(key@),
            },
    {
        let (found, at): (bool, usize) = self.find(key);
        if found {
            proof {
                lemma_key_position(self.items(), at as int);
                assert(self.items().contains(self.items()[at as int]));
            }
            Some(&self.items[at])
        } else {
            None
        }
    }

    /// Puts an item at its path, in place of the one that is there.
    pub fn insert(&mut self, item: T)
        requires
            old(self).wf(),
        ensures
            final(self).wf(),
            final(self).entries() == old(self).entries().insert(item.key(), item@),
            forall|x: T| #[trigger]
                final(self).items().contains(x) ==> x == item || old(self).items().contains(x),
    {
        let (found, at): (bool, usize) = self.find(item.key_text());
        let ghost before = self.items@;
        let ghost keys = keys_of(before);
        let ghost it = item;
        if found {
            self.items.set(at, item);
            proof {
                let now = self.items@;
                assert(keys_of(now) =~= keys);
                lemma_key_position(before, at as int);
                assert(entries_of(now) =~= entries_of(before).insert(it.key(), it@)) by {
                    assert forall|k: Seq<char>| keys.contains(k) implies entries_of(now)[k] == (
                    if k == it.key() {
                        it@
                    } else {
                        entries_of(before)[k]
                    }) by {
                        let i = keys.index_of(k);
                        lemma_key_position(now, i);
                        lemma_key_position(before, i);
                    }
                }
            }
        } else {
            self.items.insert(at, item);
            proof {
                let now = self.items@;
                let nk = keys_of(now);
                assert(nk =~= keys.insert(at as int, it.key()));
                assert forall|i: int, j: int| 0 <= i < j < nk.len() implies crate::order::text_lt(
                    #[trigger] nk[i],
                    #[trigger] nk[j],
                ) by {
                    let a = if i < at {
                        i
                    } else {
                        i - 1
                    };
                    let b = if j < at {
                        j
                    } else {
                        j - 1
                    };
                    if i == at {
                        assert(nk[j] == keys[b]);
                    } else if j == at {
                        assert(nk[i] == keys[a]);
                    } else {
                        assert(nk[i] == keys[a] && nk[j] == keys[b]);
                    }
                }
                assert(entries_of(now) =~= entries_of(before).insert(it.key(), it@)) by {
                    assert forall|k: Seq<char>| nk.contains(k) <==> keys.contains(k) || k
                        == it.key() by {
                        if nk.contains(k) {
                            let i = nk.index_of(k);
                            if i < at {
                                assert(keys[i] == k);
                            } else if i > at {
                                assert(keys[i - 1] == k);
                            }
                        }
                        if keys.contains(k) {
                            let i = keys.index_of(k);
                            if i < at {
                                assert(nk[i] == k);
                            } else {
                                assert(nk[i + 1] == k);
                            }
                        }
                        if k == it.key() {
                            assert(nk[at as int] == k);
                        }
                    }
                    assert forall|k: Seq<char>| nk.contains(k) implies entries_of(now)[k] == (if k
                        == it.key() {
                        it@
                    } else {
                        entries_of(before)[k]
                    }) by {
                        let i = nk.index_of(k);
                        lemma_key_position(now, i);
                        if i < at {
                            lemma_key_position(before, i);
                        } else if i > at {
                            lemma_key_position(before, i - 1);
                        }
                    }
                }
            }
        }
    }

    /// Takes the item at this path away, where there is one.
    pub fn remove(&mut self, key: &str)
        requires
            old(self).wf(),
        ensures
            final(self).wf(),
            final(self).entries() == old(self).entries().remove(key@),
    {
        let _gone = self.take(key);
    }

    /// Takes the item at this path out, where there is one.
    pub fn take(&mut self, key: &str) -> (r: Option<T>)
        requires
            old(self).wf(),
        ensures
            final(self).wf(),
            final(self).entries() == old(self).entries().remove(key@),
            match r {
                Some(x) => x.key() == key@ && old(self).entries().contains_key(key@)
                    && old(self).entries()[key@] == x@ && old(self).items().contains(x),
                None => !old(self).entries().contains_key(key@),
            },
            forall|x: T| #[trigger]
                final(self).items().contains(x) ==> old(self).items().contains(x),
    {
        let (found, at): (bool, usize) = self.find(key);
        let ghost before = self.items@;
        let ghost keys = keys_of(before);
        if found {
            let gone = self.items.remove(at);
            proof {
                let now = self.items@;
                let nk = keys_of(now);
                assert(nk =~= keys.remove(at as int));
                assert forall|i: int, j: int| 0 <= i < j < nk.len() implies crate::order::text_lt(
                    #[trigger] nk[i],
                    #[trigger] nk[j],
                ) by {
                    let a = if i < at {
                        i
                    } else {
                        i + 1
                    };
                    let b = if j < at {
                        j
                    } else {
                        j + 1
                    };
                    assert(nk[i] == keys[a] && nk[j] == keys[b]);
                }
                lemma_key_position(before, at as int);
                assert(entries_of(now) =~= entries_of(before).remove(key@)) by {
                    assert forall|k: Seq<char>| nk.contains(k) <==> keys.contains(k) && k != key@ by {
                        if nk.contains(k) {
                            let i = nk.index_of(k);
                            let a = if i < at {
                                i
                            } else {
                                i + 1
                            };
                            assert(keys[a] == k);
                            lemma_key_position(before, a);
                        }
                        if keys.contains(k) && k != key@ {
                            let i = keys.index_of(k);
                            if i < at {
                                assert(nk[i] == k);
                            } else {
                                assert(nk[i - 1] == k);
                            }
                        }
                    }
                    assert forall|k: Seq<char>| nk.contains(k) implies entries_of(now)[k]
                        == entries_of(before)[k] by {
                        let i = nk.index_of(k);
                        lemma_key_position(now, i);
                        if i < at {
                            lemma_key_position(before, i);
                        } else {
                            lemma_key_position(before, i + 1);
                        }
                    }
                }
                assert forall|x: T| #[trigger] now.contains(x) implies before.contains(x) by {
                    let i = now.index_of(x);
                    if i < at {
                        assert(before[i] == x);
                    } else {
                        assert(before[i + 1] == x);
                    }
                }
                assert(before.contains(before[at as int]));
            }
            Some(gone)
        } else {
            assert(self.entries() =~= self.entries().remove(key@));
            None
        }
    }
}

} // verus!
