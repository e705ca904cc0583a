//! An insertion-ordered map keyed by strings, the container behind every
//! table of the repository (paths, branch names, object digests).

use vstd::prelude::*;

verus! {

/// String slices compare equal exactly when they hold the same characters;
/// this states what std documents of `==` on `str`.
pub assume_specification[ <str as PartialEq>::eq ](a: &str, b: &str) -> (r: bool)
    ensures
        r == (a@ == b@),
;

/// The character sequences of a sequence of strings.
pub open spec fn texts(v: Seq<String>) -> Seq<Seq<char>> {
    v.map_values(|s: String| s@)
}

/// Whether two string slices hold the same characters.
pub fn str_eq(a: &str, b: &str) -> (r: bool)
    ensures
        r == (a@ == b@),
{
    a.eq(b)
}

/// A map from strings to values that remembers the order in which keys were
/// first inserted.
#[derive(Debug)]
pub struct StrMap<V> {
    keys: Vec<String>,
    vals: Vec<V>,
}

impl<V> View for StrMap<V> {
    type V = Map<Seq<char>, V>;

    closed spec fn view(&self) -> Map<Seq<char>, V> {
        Map::new(
            |k: Seq<char>| self.order().contains(k),
            |k: Seq<char>| self.vals@[self.order().index_of(k)],
        )
    }
}

impl<V> StrMap<V> {
    /// The keys in insertion order.
    pub closed spec fn order(&self) -> Seq<Seq<char>> {
        self.keys@.map_values(|s: String| s@)
    }

    /// Every key occurs once and has its value.
    pub closed spec fn wf(&self) -> bool {
        self.keys@.len() == self.vals@.len() && self.order().no_duplicates()
    }

    /// The keys are distinct, and they are exactly the domain of the view.
    pub proof fn lemma_order(&self)
        requires
            self.wf(),
        ensures
            self.order().no_duplicates(),
            self@.dom().finite(),
            self@.dom() == self.order().to_set(),
            forall|k: Seq<char>| self@.contains_key(k) <==> self.order().contains(k),
            forall|i: int|
                0 <= i < self.order().len() ==> self@.contains_key(#[trigger] self.order()[i]),
    {
        assert(self@.dom() =~= self.order().to_set());
        vstd::seq_lib::seq_to_set_is_finite(self.order());
    }

    proof fn lemma_position(&self, i: int)
        requires
            self.wf(),
            0 <= i < self.order().len(),
        ensures
            self.order().index_of(self.order()[i]) == i,
            self@.contains_key(self.order()[i]),
            self@[self.order()[i]] == self.vals@[i],
    {
        let k = self.order()[i];
        assert(self.order().contains(k));
        let j = self.order().index_of(k);
        assert(0 <= j < self.order().len() && self.order()[j] == k);
    }

    pub fn new() -> (r: Self)
        ensures
            r.wf(),
            r@ == Map::<Seq<char>, V>::empty(),
            r.order() == Seq::<Seq<char>>::empty(),
    {
        let r = StrMap { keys: Vec::new(), vals: Vec::new() };
        proof {
            assert(r.order() =~= Seq::<Seq<char>>::empty());
            assert(r@ =~= Map::<Seq<char>, V>::empty());
        }
        r
    }

    pub fn len(&self) -> (r: usize)
        requires
            self.wf(),
        ensures
            r == self.order().len(),
            r == self@.dom().len(),
    {
        proof {
            self.lemma_order();
            self.order().unique_seq_to_set();
        }
        self.keys.len()
    }

    pub fn is_empty(&self) -> (r: bool)
        requires
            self.wf(),
        ensures
            r == (self@ == Map::<Seq<char>, V>::empty()),
            r == (self.order().len() == 0),
    {
        proof {
            self.lemma_order();
            if self.order().len() == 0 {
                assert(self@ =~= Map::<Seq<char>, V>::empty());
            } else {
                assert(self@.contains_key(self.order()[0]));
            }
        }
        self.keys.len() == 0
    }

    /// The key at position `i` of the insertion order.
    pub fn key_at(&self, i: usize) -> (r: &String)
        requires
            self.wf(),
            i < self.order().len(),
        ensures
            r@ == self.order()[i as int],
            self@.contains_key(r@),
    {
        proof {
            self.lemma_position(i as int);
        }
        &self.keys[i]
    }

    /// The value of the key at position `i` of the insertion order.
    pub fn value_at(&self, i: usize) -> (r: &V)
        requires
            self.wf(),
            i < self.order().len(),
        ensures
            self@.contains_key(self.order()[i as int]),
            *r == self@[self.order()[i as int]],
    {
        proof {
            self.lemma_position(i as int);
        }
        &self.vals[i]
    }

    fn position(&self, key: &str) -> (r: Option<usize>)
        requires
            self.wf(),
        ensures
            match r {
                Some(i) => i < self.order().len() && self.order()[i as int] == key@
                    && self@.contains_key(key@) && self@[key@] == self.vals@[i as int],
                None => !self.order().contains(key@) && !self@.contains_key(key@),
            },
    {
        let mut i: usize = 0;
        while i < self.keys.len()
            invariant
                self.wf(),
                i <= self.keys.len(),
                forall|j: int| 0 <= j < i ==> self.order()[j] != key@,
            decreases self.keys.len() - i,
        {
            assert(self.order()[i as int] == self.keys@[i as int]@);
            if str_eq(self.keys[i].as_str(), key) {
                proof {
                    self.lemma_position(i as int);
                }
                return Some(i);
            }
            i = i + 1;
        }
        None
    }

    pub fn contains_key(&self, key: &str) -> (r: bool)
        requires
            self.wf(),
        ensures
            r == self@.contains_key(key@),
    {
        self.position(key).is_some()
    }

    pub fn get(&self, key: &str) -> (r: Option<&V>)
        requires
            self.wf(),
        ensures
            match r {
                Some(v) => self@.contains_key(key@) && *v == self@[key@],
                None => !self@.contains_key(key@),
            },
    {
        match self.position(key) {
            Some(i) => Some(&self.vals[i]),
            None => None,
        }
    }

    /// Inserts or replaces. A new key goes to the end of the order; a
    /// replaced key keeps its place.
    pub fn insert(&mut self, key: String, value: V)
        requires
            old(self).wf(),
        ensures
            final(self).wf(),
            final(self)@ == old(self)@.insert(key@, value),
            final(self).order() == if old(self)@.contains_key(key@) {
                old(self).order()
            } else {
                old(self).order().push(key@)
            },
    {
        let ghost before = *self;
        match self.position(key.as_str()) {
            Some(i) => {
                self.vals.set(i, value);
                proof {
                    assert(self.order() == before.order());
                    assert forall|k: Seq<char>| #[trigger] self@.contains_key(k) implies self@[k]
                        == before@.insert(key@, value)[k] by {
                        let j = self.order().index_of(k);
                        before.lemma_position(j);
                    }
                    assert(self@ =~= before@.insert(key@, value));
                }
            },
            None => {
                self.keys.push(key);
                self.vals.push(value);
                proof {
                    assert(self.order() =~= before.order().push(key@));
                    assert forall|k: Seq<char>| #[trigger]
                        self.order().contains(k) <==> (before.order().contains(k) || k == key@) by {
                        if before.order().contains(k) {
                            let j = before.order().index_of(k);
                            assert(self.order()[j] == k);
                        }
                        if k == key@ {
                            assert(self.order()[before.order().len() as int] == k);
                        }
                    }
                    assert forall|k: Seq<char>| #[trigger] self@.contains_key(k) implies self@[k]
                        == before@.insert(key@, value)[k] by {
                        let j = self.order().index_of(k);
                        self.lemma_position(j);
                        if j < before.order().len() {
                            before.lemma_position(j);
                        }
                    }
                    assert(self@ =~= before@.insert(key@, value));
                }
            },
        }
    }

    /// Removes a key, handing back its value if it was present. The other
    /// keys keep their relative order.
    pub fn remove(&mut self, key: &str) -> (r: Option<V>)
        requires
            old(self).wf(),
        ensures
            final(self).wf(),
            final(self)@ == old(self)@.remove(key@),
            final(self).order() == without(old(self).order(), key@),
            match r {
                Some(v) => old(self)@.contains_key(key@) && v == old(self)@[key@],
                None => !old(self)@.contains_key(key@),
            },
    {
        let ghost before = *self;
        match self.position(key) {
            Some(i) => {
                self.keys.remove(i);
                let v = self.vals.remove(i);
                proof {
                    let o = before.order();
                    assert(self.order() =~= o.remove(i as int));
                    lemma_without_present(o, i as int);
                    assert forall|a: int, b: int|
                        0 <= a < self.order().len() && 0 <= b < self.order().len() && a
                            != b implies self.order()[a] != self.order()[b] by {
                        let a0 = if a < i { a } else { a + 1 };
                        let b0 = if b < i { b } else { b + 1 };
                        assert(self.order()[a] == o[a0] && self.order()[b] == o[b0]);
                    }
                    assert forall|k: Seq<char>| #[trigger]
                        self.order().contains(k) <==> (o.contains(k) && k != key@) by {
                        if self.order().contains(k) {
                            let a = self.order().index_of(k);
                            let a0 = if a < i { a } else { a + 1 };
                            assert(o[a0] == k);
                        }
                        if o.contains(k) && k != key@ {
                            let a0 = o.index_of(k);
                            let a = if a0 < i { a0 } else { a0 - 1 };
                            assert(self.order()[a] == k);
                        }
                    }
                    assert forall|k: Seq<char>| #[trigger]
                        self@.contains_key(k) implies self@[k] == before@.remove(key@)[k] by {
                        let a = self.order().index_of(k);
                        self.lemma_position(a);
                        let a0 = if a < i { a } else { a + 1 };
                        before.lemma_position(a0);
                    }
                    assert(self@ =~= before@.remove(key@));
                }
                Some(v)
            },
            None => {
                proof {
                    lemma_without_absent(before.order(), key@);
                    assert(self@ =~= before@.remove(key@));
                }
                None
            },
        }
    }
}

/// Extending a prefix by one position adds exactly the element there.
pub proof fn lemma_prefix_step(s: Seq<Seq<char>>, i: int)
    requires
        0 <= i < s.len(),
    ensures
        s.subrange(0, i + 1) == s.subrange(0, i).push(s[i]),
        forall|k: Seq<char>|
            #[trigger] s.subrange(0, i + 1).contains(k) <==> (s.subrange(0, i).contains(k) || k
                == s[i]),
{
    let short = s.subrange(0, i);
    let long = s.subrange(0, i + 1);
    assert(long =~= short.push(s[i]));
    assert forall|k: Seq<char>| #[trigger]
        long.contains(k) <==> (short.contains(k) || k == s[i]) by {
        if short.contains(k) {
            let j = short.index_of(k);
            assert(long[j] == k);
        }
        if k == s[i] {
            assert(long[i] == k);
        }
        if long.contains(k) {
            let j = long.index_of(k);
            if j < i {
                assert(short[j] == k);
            }
        }
    }
}

/// A concatenation holds what either part holds.
pub proof fn lemma_concat_contains(a: Seq<Seq<char>>, b: Seq<Seq<char>>)
    ensures
        forall|k: Seq<char>| #[trigger] (a + b).contains(k) <==> (a.contains(k) || b.contains(k)),
{
    assert forall|k: Seq<char>| #[trigger] (a + b).contains(k) <==> (a.contains(k) || b.contains(
        k,
    )) by {
        if a.contains(k) {
            let j = a.index_of(k);
            assert((a + b)[j] == k);
        }
        if b.contains(k) {
            let j = b.index_of(k);
            assert((a + b)[a.len() + j] == k);
        }
        if (a + b).contains(k) {
            let j = (a + b).index_of(k);
            if j < a.len() {
                assert(a[j] == k);
            } else {
                assert(b[j - a.len()] == k);
            }
        }
    }
}

/// The elements of `paths` that `keep` accepts, in order.
pub open spec fn select(paths: Seq<Seq<char>>, keep: spec_fn(Seq<char>) -> bool) -> Seq<Seq<char>>
    decreases paths.len(),
{
    if paths.len() == 0 {
        paths
    } else if keep(paths.last()) {
        select(paths.drop_last(), keep).push(paths.last())
    } else {
        select(paths.drop_last(), keep)
    }
}

/// Selecting from a prefix one longer looks at one more element.
pub proof fn lemma_select_step(paths: Seq<Seq<char>>, i: int, keep: spec_fn(Seq<char>) -> bool)
    requires
        0 <= i < paths.len(),
    ensures
        select(paths.subrange(0, i + 1), keep) == if keep(paths[i]) {
            select(paths.subrange(0, i), keep).push(paths[i])
        } else {
            select(paths.subrange(0, i), keep)
        },
{
    let long = paths.subrange(0, i + 1);
    assert(long.drop_last() =~= paths.subrange(0, i));
    assert(long.last() == paths[i]);
}

/// A selection holds exactly the accepted elements.
pub proof fn lemma_select_contains(paths: Seq<Seq<char>>, keep: spec_fn(Seq<char>) -> bool)
    ensures
        forall|k: Seq<char>| #[trigger]
            select(paths, keep).contains(k) <==> (paths.contains(k) && keep(k)),
    decreases paths.len(),
{
    if paths.len() > 0 {
        let front = paths.drop_last();
        let x = paths.last();
        lemma_select_contains(front, keep);
        let chosen = select(paths, keep);
        let before = select(front, keep);
        if keep(x) {
            assert(chosen == before.push(x));
        } else {
            assert(chosen == before);
        }
        assert forall|k: Seq<char>| #[trigger]
            chosen.contains(k) implies (paths.contains(k) && keep(k)) by {
            let j = chosen.index_of(k);
            assert(chosen[j] == k);
            if j < before.len() {
                assert(before[j] == k);
                assert(before.contains(k));
                let a = front.index_of(k);
                assert(front[a] == k);
                assert(paths[a] == k);
            } else {
                assert(k == x);
                assert(paths[paths.len() - 1] == k);
            }
        }
        assert forall|k: Seq<char>| paths.contains(k) && keep(k) implies #[trigger]
            chosen.contains(k) by {
            let a = paths.index_of(k);
            assert(paths[a] == k);
            if a < front.len() {
                assert(front[a] == k);
                assert(front.contains(k));
                assert(before.contains(k));
                let j = before.index_of(k);
                assert(before[j] == k);
                assert(chosen[j] == k);
            } else {
                assert(k == x);
                assert(chosen[chosen.len() - 1] == k);
            }
        }
    }
}

/// Selecting distributes over concatenation.
pub proof fn lemma_select_concat(
    a: Seq<Seq<char>>,
    b: Seq<Seq<char>>,
    keep: spec_fn(Seq<char>) -> bool,
)
    ensures
        select(a + b, keep) == select(a, keep) + select(b, keep),
    decreases b.len(),
{
    if b.len() == 0 {
        assert(a + b =~= a);
        assert(select(a, keep) + select(b, keep) =~= select(a, keep));
    } else {
        let whole = a + b;
        assert(whole.drop_last() =~= a + b.drop_last());
        assert(whole.last() == b.last());
        lemma_select_concat(a, b.drop_last(), keep);
        if keep(b.last()) {
            assert((select(a, keep) + select(b.drop_last(), keep)).push(b.last()) =~= select(
                a,
                keep,
            ) + select(b.drop_last(), keep).push(b.last()));
        }
    }
}

/// A sequence of keys with every occurrence of `key` left out.
pub open spec fn without(s: Seq<Seq<char>>, key: Seq<char>) -> Seq<Seq<char>>
    decreases s.len(),
{
    if s.len() == 0 {
        s
    } else if s.last() == key {
        without(s.drop_last(), key)
    } else {
        without(s.drop_last(), key).push(s.last())
    }
}

/// Leaving out a key that does not occur changes nothing.
pub proof fn lemma_without_absent(s: Seq<Seq<char>>, key: Seq<char>)
    requires
        !s.contains(key),
    ensures
        without(s, key) == s,
    decreases s.len(),
{
    if s.len() > 0 {
        let front = s.drop_last();
        assert(s.last() == s[s.len() - 1]);
        assert forall|j: int| 0 <= j < front.len() implies front[j] != key by {
            assert(front[j] == s[j]);
        }
        lemma_without_absent(front, key);
        assert(front.push(s.last()) =~= s);
    }
}

/// Leaving out a key that occurs once removes its position.
pub proof fn lemma_without_present(s: Seq<Seq<char>>, i: int)
    requires
        s.no_duplicates(),
        0 <= i < s.len(),
    ensures
        without(s, s[i]) == s.remove(i),
    decreases s.len(),
{
    let n = s.len() - 1;
    let front = s.drop_last();
    if i == n {
        assert forall|j: int| 0 <= j < front.len() implies front[j] != s[i] by {
            assert(front[j] == s[j]);
        }
        lemma_without_absent(front, s[i]);
        assert(s.remove(i) =~= front);
    } else {
        assert(front[i] == s[i]);
        assert(s.last() == s[n] && s[n] != s[i]);
        lemma_without_present(front, i);
        assert(s.remove(i) =~= front.remove(i).push(s[n]));
    }
}

} // verus!
