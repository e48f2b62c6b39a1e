//! A map from strings to strings, kept as an association list whose keys
//! are distinct. It stands for the ordered and hashed maps that hold
//! attributes, declarations, computed properties and storage items.
use vstd::prelude::*;
use crate::text::{chars_of, chars_eq};

verus! {

/// The map denoted by an association list; a later entry wins over an earlier one.
pub open spec fn map_of(e: Seq<(String, String)>) -> Map<Seq<char>, Seq<char>>
    decreases e.len(),
{
    if e.len() == 0 {
        Map::empty()
    } else {
        map_of(e.drop_last()).insert(e.last().0@, e.last().1@)
    }
}

/// No key occurs twice.
pub open spec fn keys_distinct(e: Seq<(String, String)>) -> bool {
    forall|i: int, j: int| 0 <= i < e.len() && 0 <= j < e.len() && i != j ==> e[i].0@ != e[j].0@
}

pub proof fn lemma_map_of_dom(e: Seq<(String, String)>, k: Seq<char>)
    ensures
        map_of(e).dom().contains(k) <==> exists|i: int| 0 <= i < e.len() && e[i].0@ == k,
    decreases e.len(),
{
    if e.len() > 0 {
        lemma_map_of_dom(e.drop_last(), k);
        if map_of(e.drop_last()).dom().contains(k) {
            let i = choose|i: int| 0 <= i < e.drop_last().len() && e.drop_last()[i].0@ == k;
            assert(e[i].0@ == k);
        }
        if exists|i: int| 0 <= i < e.len() && e[i].0@ == k {
            let i = choose|i: int| 0 <= i < e.len() && e[i].0@ == k;
            if i < e.len() - 1 {
                assert(e.drop_last()[i].0@ == k);
            }
        }
    }
}

pub proof fn lemma_map_of_index(e: Seq<(String, String)>, i: int)
    requires
        keys_distinct(e),
        0 <= i < e.len(),
    ensures
        map_of(e).dom().contains(e[i].0@),
        map_of(e)[e[i].0@] == e[i].1@,
    decreases e.len(),
{
    if i < e.len() - 1 {
        assert(keys_distinct(e.drop_last()));
        assert(e.drop_last()[i] == e[i]);
        lemma_map_of_index(e.drop_last(), i);
        assert(e[i].0@ != e.last().0@);
    }
}

pub proof fn lemma_map_of_finite_len(e: Seq<(String, String)>)
    requires
        keys_distinct(e),
    ensures
        map_of(e).dom().finite(),
        map_of(e).dom().len() == e.len(),
    decreases e.len(),
{
    if e.len() > 0 {
        assert(keys_distinct(e.drop_last()));
        lemma_map_of_finite_len(e.drop_last());
        lemma_map_of_dom(e.drop_last(), e.last().0@);
        if map_of(e.drop_last()).dom().contains(e.last().0@) {
            let i = choose|i: int|
                0 <= i < e.drop_last().len() && e.drop_last()[i].0@ == e.last().0@;
            assert(e[i].0@ == e[e.len() - 1].0@);
        }
    }
}

/// Replacing the value of entry `i` updates the map at that key.
proof fn lemma_map_of_update(e: Seq<(String, String)>, i: int, v: String)
    requires
        keys_distinct(e),
        0 <= i < e.len(),
    ensures
        map_of(e.update(i, (e[i].0, v))) == map_of(e).insert(e[i].0@, v@),
{
    let e2 = e.update(i, (e[i].0, v));
    assert(keys_distinct(e2));
    assert forall|k: Seq<char>| #[trigger] map_of(e2).dom().contains(k) <==> map_of(e).insert(e[i].0@, v@).dom().contains(k) by {
        lemma_map_of_dom(e2, k);
        lemma_map_of_dom(e, k);
        if exists|j: int| 0 <= j < e2.len() && e2[j].0@ == k {
            let j = choose|j: int| 0 <= j < e2.len() && e2[j].0@ == k;
            assert(e[j].0@ == k);
        }
        if exists|j: int| 0 <= j < e.len() && e[j].0@ == k {
            let j = choose|j: int| 0 <= j < e.len() && e[j].0@ == k;
            assert(e2[j].0@ == k);
        }
    }
    assert forall|k: Seq<char>| #[trigger] map_of(e2).dom().contains(k) implies map_of(e2)[k] == map_of(e).insert(e[i].0@, v@)[k] by {
        lemma_map_of_dom(e2, k);
        let j = choose|j: int| 0 <= j < e2.len() && e2[j].0@ == k;
        lemma_map_of_index(e2, j);
        if j != i {
            assert(e[j] == e2[j]);
            lemma_map_of_index(e, j);
        }
    }
    assert(map_of(e2) =~= map_of(e).insert(e[i].0@, v@));
}

/// Removing entry `i` removes its key from the map.
proof fn lemma_map_of_remove(e: Seq<(String, String)>, i: int)
    requires
        keys_distinct(e),
        0 <= i < e.len(),
    ensures
        map_of(e.remove(i)) == map_of(e).remove(e[i].0@),
        keys_distinct(e.remove(i)),
{
    let e2 = e.remove(i);
    assert forall|a: int, b: int| 0 <= a < e2.len() && 0 <= b < e2.len() && a != b implies e2[a].0@ != e2[b].0@ by {
        let ia = if a < i { a } else { a + 1 };
        let ib = if b < i { b } else { b + 1 };
        assert(e2[a] == e[ia]);
        assert(e2[b] == e[ib]);
    }
    assert forall|k: Seq<char>| #[trigger] map_of(e2).dom().contains(k) <==> map_of(e).remove(e[i].0@).dom().contains(k) by {
        lemma_map_of_dom(e2, k);
        lemma_map_of_dom(e, k);
        if exists|j: int| 0 <= j < e2.len() && e2[j].0@ == k {
            let j = choose|j: int| 0 <= j < e2.len() && e2[j].0@ == k;
            let ij = if j < i { j } else { j + 1 };
            assert(e2[j] == e[ij]);
        }
        if exists|j: int| 0 <= j < e.len() && e[j].0@ == k && k != e[i].0@ {
            let j = choose|j: int| 0 <= j < e.len() && e[j].0@ == k && k != e[i].0@;
            if j < i {
                assert(e2[j] == e[j]);
            } else {
                assert(e2[j - 1] == e[j]);
            }
        }
    }
    assert forall|k: Seq<char>| #[trigger] map_of(e2).dom().contains(k) implies map_of(e2)[k] == map_of(e).remove(e[i].0@)[k] by {
        lemma_map_of_dom(e2, k);
        let j = choose|j: int| 0 <= j < e2.len() && e2[j].0@ == k;
        lemma_map_of_index(e2, j);
        let ij = if j < i { j } else { j + 1 };
        assert(e2[j] == e[ij]);
        lemma_map_of_index(e, ij);
    }
    assert(map_of(e2) =~= map_of(e).remove(e[i].0@));
}

/// Association lists with the same key and value views denote the same map.
proof fn lemma_map_of_same_views(a: Seq<(String, String)>, b: Seq<(String, String)>)
    requires
        a.len() == b.len(),
        forall|m: int| 0 <= m < a.len() ==> (#[trigger] a[m]).0@ == b[m].0@ && a[m].1@ == b[m].1@,
    ensures
        map_of(a) == map_of(b),
        keys_distinct(b) ==> keys_distinct(a),
    decreases a.len(),
{
    if a.len() > 0 {
        assert(a[a.len() - 1].0@ == b[b.len() - 1].0@);
        lemma_map_of_same_views(a.drop_last(), b.drop_last());
    }
}

/// A string-to-string map whose entries keep their insertion order.
#[derive(Debug, PartialEq)]
pub struct StrMap {
    entries: Vec<(String, String)>,
}

impl View for StrMap {
    type V = Map<Seq<char>, Seq<char>>;

    open spec fn view(&self) -> Map<Seq<char>, Seq<char>> {
        map_of(self.entries())
    }
}

impl StrMap {
    #[verifier::type_invariant]
    pub closed spec fn inv(self) -> bool {
        keys_distinct(self.entries@)
    }

    /// The entries in insertion order.
    pub closed spec fn entries(self) -> Seq<(String, String)> {
        self.entries@
    }

    /// The keys in insertion order.
    /// What the type invariant gives: distinct keys, so one entry per key.
    pub proof fn lemma_wf(&self)
        requires
            self.inv(),
        ensures
            keys_distinct(self.entries()),
            self@.dom().finite(),
            self@.dom().len() == self.entries().len(),
            forall|i: int| 0 <= i < self.entries().len() ==> self@.dom().contains(#[trigger] self.entries()[i].0@)
                && self@[self.entries()[i].0@] == self.entries()[i].1@,
            forall|k: Seq<char>| #[trigger] self@.dom().contains(k) <==> exists|i: int| 0 <= i < self.entries().len() && self.entries()[i].0@ == k,
    {
        lemma_map_of_finite_len(self.entries@);
        assert forall|i: int| 0 <= i < self.entries().len() implies self@.dom().contains(#[trigger] self.entries()[i].0@)
            && self@[self.entries()[i].0@] == self.entries()[i].1@ by {
            lemma_map_of_index(self.entries@, i);
        }
        assert forall|k: Seq<char>| #[trigger] self@.dom().contains(k) <==> exists|i: int| 0 <= i < self.entries().len() && self.entries()[i].0@ == k by {
            lemma_map_of_dom(self.entries@, k);
        }
    }

    /// A copy with the same entries.
    pub fn duplicate(&self) -> (r: Self)
        ensures
            r@ == self@,
            r.entries().map_values(|p: (String, String)| (p.0@, p.1@)) == self.entries().map_values(|p: (String, String)| (p.0@, p.1@)),
    {
        proof {
            use_type_invariant(self);
        }
        let mut out: Vec<(String, String)> = Vec::new();
        let mut i: usize = 0;
        while i < self.entries.len()
            invariant
                i <= self.entries@.len(),
                out@.len() == i,
                forall|m: int| 0 <= m < i ==> (#[trigger] out@[m]) == self.entries@[m],
            decreases self.entries@.len() - i,
        {
            let k = self.entries[i].0.clone();
            let v = self.entries[i].1.clone();
            out.push((k, v));
            i = i + 1;
        }
        proof {
            lemma_map_of_same_views(out@, self.entries@);
        }
        assert(out@ =~= self.entries@);
        assert(out@.map_values(|p: (String, String)| (p.0@, p.1@)) =~= self.entries@.map_values(|p: (String, String)| (p.0@, p.1@)));
        StrMap { entries: out }
    }

    pub fn new() -> (m: Self)
        ensures
            m@ == Map::<Seq<char>, Seq<char>>::empty(),
            m.entries().len() == 0,
    {
        StrMap { entries: Vec::new() }
    }

    /// Number of entries.
    pub fn len(&self) -> (n: usize)
        ensures
            n == self.entries().len(),
            n == self@.dom().len(),
    {
        proof {
            use_type_invariant(self);
            self.lemma_wf();
        }
        self.entries.len()
    }

    /// Position of `key` among the entries, if present.
    fn position(&self, key: &Vec<char>) -> (r: Option<usize>)
        ensures
            match r {
                Some(i) => i < self.entries().len() && self.entries()[i as int].0@ == key@,
                None => forall|i: int| 0 <= i < self.entries().len() ==> self.entries()[i].0@ != key@,
            },
    {
        let mut i: usize = 0;
        while i < self.entries.len()
            invariant
                i <= self.entries@.len(),
                forall|m: int| 0 <= m < i ==> self.entries@[m].0@ != key@,
            decreases self.entries@.len() - i,
        {
            let k = chars_of(self.entries[i].0.as_str());
            if chars_eq(&k, key) {
                return Some(i);
            }
            i = i + 1;
        }
        None
    }

    /// The value stored under `key`.
    pub fn get(&self, key: &str) -> (r: Option<&String>)
        ensures
            match r {
                Some(v) => self@.dom().contains(key@) && v@ == self@[key@],
                None => !self@.dom().contains(key@),
            },
    {
        proof {
            use_type_invariant(self);
            self.lemma_wf();
        }
        let kv = chars_of(key);
        match self.position(&kv) {
            Some(i) => Some(&self.entries[i].1),
            None => None,
        }
    }

    /// Whether `key` is present.
    pub fn contains_key(&self, key: &str) -> (b: bool)
        ensures
            b == self@.dom().contains(key@),
    {
        self.get(key).is_some()
    }

    /// The entry at `i`, in insertion order.
    pub fn entry(&self, i: usize) -> (r: (&String, &String))
        requires
            i < self.entries().len(),
        ensures
            r.0 == self.entries()[i as int].0,
            r.1 == self.entries()[i as int].1,
    {
        (&self.entries[i].0, &self.entries[i].1)
    }

    /// Sets `key` to `value`, replacing an earlier value.
    pub fn insert(&mut self, key: String, value: String)
        ensures
            final(self)@ == old(self)@.insert(key@, value@),
    {
        proof {
            use_type_invariant(&*self);
        }
        let kv = chars_of(key.as_str());
        match self.position(&kv) {
            Some(i) => {
                let ghost e = self.entries@;
                proof {
                    lemma_map_of_update(e, i as int, value);
                }
                let mut entries: Vec<(String, String)> = Vec::new();
                std::mem::swap(&mut entries, &mut self.entries);
                let k = entries[i].0.clone();
                entries.set(i, (k, value));
                assert(entries@ == e.update(i as int, (e[i as int].0, value)));
                self.entries = entries;
            },
            None => {
                let ghost e = self.entries@;
                assert(forall|m: int| 0 <= m < e.len() ==> e[m].0@ != kv@) by {
                    assert(e == self.entries());
                }
                let mut entries: Vec<(String, String)> = Vec::new();
                std::mem::swap(&mut entries, &mut self.entries);
                entries.push((key, value));
                assert(entries@.drop_last() == e);
                assert(entries@.last().0@ == kv@);
                assert forall|a: int, b: int| 0 <= a < entries@.len() && 0 <= b < entries@.len() && a != b
                    implies entries@[a].0@ != entries@[b].0@ by {
                    assert(keys_distinct(e));
                    if a < e.len() && b < e.len() {
                        assert(entries@[a] == e[a] && entries@[b] == e[b]);
                    } else if a < e.len() {
                        assert(entries@[a] == e[a]);
                        assert(b == e.len());
                        assert(entries@[b].0@ == kv@);
                    } else {
                        assert(entries@[b] == e[b]);
                        assert(entries@[a].0@ == kv@);
                    }
                }
                self.entries = entries;
            },
        }
    }

    /// Removes `key`.
    pub fn remove(&mut self, key: &str)
        ensures
            final(self)@ == old(self)@.remove(key@),
    {
        proof {
            use_type_invariant(&*self);
        }
        let kv = chars_of(key);
        match self.position(&kv) {
            Some(i) => {
                let ghost e = self.entries@;
                proof {
                    lemma_map_of_remove(e, i as int);
                }
                let mut entries: Vec<(String, String)> = Vec::new();
                std::mem::swap(&mut entries, &mut self.entries);
                entries.remove(i);
                self.entries = entries;
            },
            None => {
                proof {
                    lemma_map_of_dom(self.entries@, key@);
                    assert(self@ =~= self@.remove(key@));
                }
            },
        }
    }

    /// Removes every entry.
    pub fn clear(&mut self)
        ensures
            final(self)@ == Map::<Seq<char>, Seq<char>>::empty(),
            final(self).entries().len() == 0,
    {
        self.entries = Vec::new();
    }

    /// Sets every entry of `other` in turn (`extend`).
    pub fn extend_from(&mut self, other: &StrMap)
        ensures
            final(self)@ == old(self)@.union_prefer_right(other@),
    {
        proof {
            use_type_invariant(other);
            other.lemma_wf();
        }
        let n = other.len();
        let mut i: usize = 0;
        while i < n
            invariant
                n == other.entries().len(),
                i <= n,
                self@ == old(self)@.union_prefer_right(map_of(other.entries().take(i as int))),
            decreases n - i,
        {
            let (k, v) = other.entry(i);
            let kc = k.clone();
            let vc = v.clone();
            self.insert(kc, vc);
            proof {
                let e = other.entries();
                assert(e.take(i + 1).drop_last() == e.take(i as int));
                assert(e.take(i + 1).last() == e[i as int]);
            }
            i = i + 1;
            assert(self@ =~= old(self)@.union_prefer_right(map_of(other.entries().take(i as int))));
        }
        assert(other.entries().take(n as int) == other.entries());
    }
}

} // verus!

verus! {

impl Clone for StrMap {
    fn clone(&self) -> (r: Self)
        ensures
            r@ == self@,
    {
        self.duplicate()
    }
}

} // verus!
