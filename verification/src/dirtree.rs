//! Paths from parent links: a directory leads to its parent, and so on up to a root. Links
//! may be broken or run in circles.

use std::collections::{HashMap, HashSet};
use vstd::prelude::*;

verus! {

broadcast use vstd::std_specs::hash::group_hash_axioms;

/// Directories with links to their parents.
pub trait DirTable {
    /// The table can be read.
    spec fn valid(&self) -> bool;

    /// The directories that have a link.
    spec fn ids(&self) -> Set<u64>;

    /// Where a directory's link leads, and the directory's name.
    spec fn step(&self, id: u64) -> Option<(u64, Seq<char>)>;

    /// There are finitely many, and only these have a link.
    proof fn bounded(&self)
        ensures
            self.ids().finite(),
            forall|id: u64| #[trigger] self.step(id) is Some ==> self.ids().contains(id),
    ;

    /// Where a directory's link leads, and the directory's name.
    fn step_of(&self, id: u64) -> (r: Option<(u64, String)>)
        requires
            self.valid(),
        ensures
            match r {
                Some((parent, name)) => self.step(id) == Some((parent, name@)),
                None => self.step(id) is None,
            },
    ;
}

/// A path with one more component.
pub open spec fn appended(parent: Seq<char>, name: Seq<char>) -> Seq<char> {
    if parent.len() == 0 {
        name
    } else {
        parent.push('/') + name
    }
}

/// A path with one more component.
pub fn append_component(parent: &str, name: &str) -> (r: String)
    ensures
        r@ == appended(parent@, name@),
{
    if parent.is_empty() {
        let r = name.to_owned();
        r
    } else {
        let r = crate::text::joined3(parent, "/", name);
        proof {
            reveal_strlit("/");
            assert(r@ =~= parent@.push('/') + name@);
        }
        r
    }
}

/// The path of a directory below the root, if the root is reached in at most `steps` links.
pub open spec fn climb<T: DirTable>(t: &T, root: u64, id: u64, steps: nat) -> Option<Seq<char>>
    decreases steps,
{
    if id == root {
        Some(Seq::empty())
    } else if steps == 0 {
        None
    } else {
        match t.step(id) {
            None => None,
            Some((parent, name)) => match climb(t, root, parent, (steps - 1) as nat) {
                None => None,
                Some(path) => Some(appended(path, name)),
            },
        }
    }
}

/// `path` is the path of the directory below the root.
pub open spec fn leads_to<T: DirTable>(t: &T, root: u64, id: u64, path: Seq<char>) -> bool {
    exists|steps: nat| #[trigger] climb(t, root, id, steps) == Some(path)
}

/// The root can be reached.
pub open spec fn reaches<T: DirTable>(t: &T, root: u64, id: u64) -> bool {
    exists|steps: nat| #[trigger] climb(t, root, id, steps) is Some
}

/// The path of a directory that reaches the root.
pub open spec fn path_below<T: DirTable>(t: &T, root: u64, id: u64) -> Seq<char> {
    choose|path: Seq<char>| leads_to(t, root, id, path)
}

proof fn lemma_more_steps<T: DirTable>(t: &T, root: u64, id: u64, a: nat, b: nat)
    requires
        a <= b,
        climb(t, root, id, a) is Some,
    ensures
        climb(t, root, id, b) == climb(t, root, id, a),
    decreases a,
{
    if id != root {
        let (parent, name) = t.step(id)->0;
        lemma_more_steps(t, root, parent, (a - 1) as nat, (b - 1) as nat);
    }
}

/// A directory has one path at most.
pub proof fn law_paths_are_unique<T: DirTable>(
    t: &T,
    root: u64,
    id: u64,
    p: Seq<char>,
    q: Seq<char>,
)
    requires
        leads_to(t, root, id, p),
        leads_to(t, root, id, q),
    ensures
        p == q,
{
    let a = choose|steps: nat| #[trigger] climb(t, root, id, steps) == Some(p);
    let b = choose|steps: nat| #[trigger] climb(t, root, id, steps) == Some(q);
    if a <= b {
        lemma_more_steps(t, root, id, a, b);
    } else {
        lemma_more_steps(t, root, id, b, a);
    }
}

/// The path that was found is the path.
pub proof fn lemma_path_below<T: DirTable>(t: &T, root: u64, id: u64, p: Seq<char>)
    requires
        leads_to(t, root, id, p),
    ensures
        path_below(t, root, id) == p,
        reaches(t, root, id),
{
    let a = choose|steps: nat| #[trigger] climb(t, root, id, steps) == Some(p);
    assert(climb(t, root, id, a) is Some);
    law_paths_are_unique(t, root, id, p, path_below(t, root, id));
}

/// Links from directory to directory.
spec fn linked<T: DirTable>(t: &T, root: u64, chain: Seq<u64>, end: u64) -> bool {
    forall|j: int|
        0 <= j < chain.len() ==> (#[trigger] chain[j]) != root && t.step(chain[j]) is Some
            && parent_in(t, chain[j]) == (if j + 1 < chain.len() {
            chain[j + 1]
        } else {
            end
        })
}

spec fn parent_in<T: DirTable>(t: &T, id: u64) -> u64 {
    match t.step(id) {
        Some((parent, _)) => parent,
        None => id,
    }
}

/// Whoever climbs from a link of the chain comes past its end.
proof fn lemma_past_the_end<T: DirTable>(
    t: &T,
    root: u64,
    chain: Seq<u64>,
    end: u64,
    j: int,
    steps: nat,
)
    requires
        linked(t, root, chain, end),
        0 <= j <= chain.len(),
        climb(
            t,
            root,
            if j < chain.len() {
                chain[j]
            } else {
                end
            },
            steps,
        ) is Some,
    ensures
        steps >= chain.len() - j,
        climb(t, root, end, (steps - (chain.len() - j)) as nat) is Some,
    decreases chain.len() - j,
{
    if j < chain.len() {
        let id = chain[j];
        assert(id != root);
        lemma_past_the_end(t, root, chain, end, j + 1, (steps - 1) as nat);
    }
}

/// A circle never reaches the root.
proof fn lemma_circle<T: DirTable>(t: &T, root: u64, chain: Seq<u64>, j: int, steps: nat)
    requires
        0 <= j < chain.len(),
        linked(t, root, chain, chain[j]),
    ensures
        climb(t, root, chain[j], steps) is None,
    decreases steps,
{
    if climb(t, root, chain[j], steps) is Some {
        lemma_past_the_end(t, root, chain, chain[j], j, steps);
        lemma_circle(t, root, chain, j, (steps - (chain.len() - j)) as nat);
    }
}

/// Every path in the cache is right, and the root is there.
pub open spec fn sound<T: DirTable>(t: &T, root: u64, cache: Map<u64, String>) -> bool {
    &&& cache.contains_key(root)
    &&& forall|id: u64| #[trigger]
        cache.contains_key(id) ==> leads_to(t, root, id, cache[id]@)
}

/// Whoever climbs from `id` comes past `k` in at most `steps` links, before anything that is
/// known already.
pub open spec fn passes<T: DirTable>(t: &T, known: Set<u64>, id: u64, k: u64, steps: nat) -> bool
    decreases steps,
{
    !known.contains(id) && (id == k || (steps > 0 && match t.step(id) {
        Some((parent, _)) => passes(t, known, parent, k, (steps - 1) as nat),
        None => false,
    }))
}

/// The directory `k` lies between `id` and the first directory above it that is known, `id`
/// included.
pub open spec fn on_the_way<T: DirTable>(t: &T, known: Set<u64>, id: u64, k: u64) -> bool {
    exists|steps: nat| #[trigger] passes(t, known, id, k, steps)
}

/// What a cache holds once a directory was looked up: on success also the directories on the
/// way, otherwise what it held before.
pub open spec fn looked_up<T: DirTable>(
    t: &T,
    id: u64,
    before: Map<u64, String>,
    after: Map<u64, String>,
    found: bool,
) -> bool {
    &&& !found ==> after == before
    &&& found ==> after.contains_key(id)
    &&& found ==> forall|k: u64| #[trigger]
        after.contains_key(k) <==> before.contains_key(k) || on_the_way(t, before.dom(), id, k)
    &&& forall|k: u64| #[trigger]
        before.contains_key(k) ==> after.contains_key(k) && after[k]@ == before[k]@
}

/// The chain holds `k` at `from` or later.
spec fn listed(chain: Seq<u64>, from: int, k: u64) -> bool
    decreases chain.len() - from,
{
    from < chain.len() && (chain[from] == k || listed(chain, from + 1, k))
}

/// What lies on the way above a directory that is not known lies on its own way.
proof fn lemma_one_link<T: DirTable>(t: &T, known: Set<u64>, id: u64, parent: u64, k: u64)
    requires
        !known.contains(id),
        t.step(id) matches Some((p, _)) && p == parent,
    ensures
        on_the_way(t, known, id, k) == (id == k || on_the_way(t, known, parent, k)),
{
    if id == k {
        assert(passes(t, known, id, k, 0));
    } else {
        if on_the_way(t, known, id, k) {
            let steps = choose|steps: nat| #[trigger] passes(t, known, id, k, steps);
            assert(passes(t, known, parent, k, (steps - 1) as nat));
        }
        if on_the_way(t, known, parent, k) {
            let steps = choose|steps: nat| #[trigger] passes(t, known, parent, k, steps);
            assert(passes(t, known, id, k, steps + 1));
        }
    }
}

/// The links of a chain up to something known are what lies on the way.
proof fn lemma_chain_is_the_way<T: DirTable>(
    t: &T,
    root: u64,
    known: Set<u64>,
    chain: Seq<u64>,
    end: u64,
    j: int,
    k: u64,
)
    requires
        linked(t, root, chain, end),
        known.contains(end),
        forall|i: int| 0 <= i < chain.len() ==> !known.contains(#[trigger] chain[i]),
        0 <= j <= chain.len(),
    ensures
        on_the_way(
            t,
            known,
            if j < chain.len() {
                chain[j]
            } else {
                end
            },
            k,
        ) == listed(chain, j, k),
    decreases chain.len() - j,
{
    if j < chain.len() {
        lemma_chain_is_the_way(t, root, known, chain, end, j + 1, k);
        lemma_one_link(t, known, chain[j], parent_in(t, chain[j]), k);
    }
}

/// Finds the path of a directory and those on the way, and keeps them.
pub fn ensure_path<T: DirTable>(t: &T, root: u64, id: u64, cache: &mut HashMap<u64, String>) -> (r:
    bool)
    requires
        t.valid(),
        sound(t, root, old(cache)@),
    ensures
        sound(t, root, final(cache)@),
        r == reaches(t, root, id),
        looked_up(t, id, old(cache)@, final(cache)@, r),
{
    let mut current: u64 = id;
    let mut chain: Vec<u64> = Vec::new();
    let mut names: Vec<String> = Vec::new();
    let mut seen: HashSet<u64> = HashSet::new();
    proof {
        t.bounded();
    }
    while !cache.contains_key(&current)
        invariant
            t.valid(),
            sound(t, root, cache@),
            cache@ == old(cache)@,
            linked(t, root, chain@, current),
            chain@.len() == names@.len(),
            chain@.len() > 0 ==> chain@[0] == id,
            chain@.len() == 0 ==> current == id,
            chain@.no_duplicates(),
            forall|j: int| 0 <= j < chain@.len() ==> !cache@.contains_key(#[trigger] chain@[j]),
            forall|k: u64| #[trigger] seen@.contains(k) <==> chain@.contains(k),
            forall|j: int|
                0 <= j < chain@.len() ==> t.ids().contains(#[trigger] chain@[j]) && t.step(
                    chain@[j],
                ) == Some((parent_in(t, chain@[j]), names@[j]@)),
            t.ids().finite(),
            forall|k: u64| #[trigger] t.step(k) is Some ==> t.ids().contains(k),
        decreases t.ids().len() - chain@.len(),
    {
        if seen.contains(&current) {
            proof {
                let j = chain@.index_of(current);
                assert forall|steps: nat| (#[trigger] climb(t, root, id, steps)) is None by {
                    if climb(t, root, id, steps) is Some {
                        lemma_past_the_end(t, root, chain@, current, 0, steps);
                        lemma_circle(t, root, chain@, j, (steps - chain@.len()) as nat);
                    }
                }
            }
            return false;
        }
        match t.step_of(current) {
            None => {
                proof {
                    assert forall|steps: nat| (#[trigger] climb(t, root, id, steps)) is None by {
                        if climb(t, root, id, steps) is Some {
                            lemma_past_the_end(t, root, chain@, current, 0, steps);
                        }
                    }
                }
                return false;
            },
            Some((parent, name)) => {
                let ghost before = chain@;
                chain.push(current);
                names.push(name);
                seen.insert(current);
                proof {
                    assert(current != root);
                    assert forall|j: int| 0 <= j < chain@.len() implies (#[trigger] chain@[j])
                        != root && t.step(chain@[j]) is Some && parent_in(t, chain@[j]) == (if j + 1
                        < chain@.len() {
                        chain@[j + 1]
                    } else {
                        parent
                    }) by {
                        if j < before.len() {
                            assert(before[j] == chain@[j]);
                        }
                    }
                    assert forall|k: u64| #[trigger] seen@.contains(k) <==> chain@.contains(
                        k,
                    ) by {
                        if chain@.contains(k) {
                            let m = chain@.index_of(k);
                            if m < before.len() {
                                assert(before[m] == k);
                            }
                        }
                        if before.contains(k) {
                            let m = before.index_of(k);
                            assert(chain@[m] == k);
                        }
                        assert(chain@[before.len() as int] == current);
                    }
                    assert(chain@.no_duplicates()) by {
                        assert(!before.contains(current));
                    }
                    chain@.unique_seq_to_set();
                    assert(chain@.to_set().subset_of(t.ids())) by {
                        assert forall|k: u64| chain@.to_set().contains(k) implies t.ids().contains(
                            k,
                        ) by {
                            let m = chain@.index_of(k);
                            assert(t.ids().contains(chain@[m]));
                        }
                    }
                    vstd::set_lib::lemma_len_subset(chain@.to_set(), t.ids());
                }
                current = parent;
            },
        }
    }
    let mut path: String = match cache.get(&current) {
        Some(p) => p.clone(),
        None => {
            return false;
        },
    };
    let mut left: usize = chain.len();
    let ghost n = chain@.len();
    let ghost held = cache@;
    while left > 0
        invariant
            left <= n == chain@.len(),
            forall|j: int| 0 <= j < n ==> !held.contains_key(#[trigger] chain@[j]),
            forall|k: u64| #[trigger]
                cache@.contains_key(k) <==> held.contains_key(k) || listed(
                    chain@,
                    left as int,
                    k,
                ),
            forall|k: u64| #[trigger] held.contains_key(k) ==> cache@[k]@ == held[k]@,
            n == names@.len(),
            sound(t, root, cache@),
            linked(t, root, chain@, current),
            forall|j: int|
                0 <= j < n ==> t.step(#[trigger] chain@[j]) == Some(
                    (parent_in(t, chain@[j]), names@[j]@),
                ),
            leads_to(
                t,
                root,
                if left < n {
                    chain@[left as int]
                } else {
                    current
                },
                path@,
            ),
        decreases left,
    {
        left -= 1;
        let below = append_component(path.as_str(), names[left].as_str());
        proof {
            let at = chain@[left as int];
            let above = parent_in(t, at);
            let steps = choose|steps: nat| #[trigger] climb(t, root, above, steps) == Some(path@);
            assert(climb(t, root, at, steps + 1) == Some(below@));
        }
        path = below;
        let copy = path.clone();
        cache.insert(chain[left], copy);
    }
    proof {
        assert forall|k: u64| #[trigger] cache@.contains_key(k) <==> held.contains_key(k)
            || on_the_way(t, held.dom(), id, k) by {
            lemma_chain_is_the_way(t, root, held.dom(), chain@, current, 0, k);
        }
        assert(leads_to(t, root, id, path@));
        lemma_path_below(t, root, id, path@);
    }
    true
}

} // verus!
