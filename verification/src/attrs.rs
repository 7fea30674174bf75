//! An attribute map: key/value pairs of strings, looked up by key, kept in
//! first-seen key order with last-write-wins values. The same shape carries a
//! parsed `style` attribute. Keeping the order fixed makes the rewritten
//! output deterministic.

use vstd::prelude::*;

use crate::text::str_eq;

verus! {

/// The view of one string pair.
pub open spec fn pair_view(p: (String, String)) -> (Seq<char>, Seq<char>) {
    (p.0@, p.1@)
}

/// The view of a list of string pairs.
pub open spec fn pairs_view(s: Seq<(String, String)>) -> Seq<(Seq<char>, Seq<char>)> {
    s.map_values(|p: (String, String)| pair_view(p))
}

/// Index of the first pair whose key is `k`, or `ps.len()` when absent.
pub open spec fn assoc_find(ps: Seq<(Seq<char>, Seq<char>)>, k: Seq<char>) -> int
    decreases ps.len(),
{
    if ps.len() == 0 {
        0
    } else if ps[0].0 == k {
        0
    } else {
        1 + assoc_find(ps.drop_first(), k)
    }
}

pub open spec fn assoc_has(ps: Seq<(Seq<char>, Seq<char>)>, k: Seq<char>) -> bool {
    assoc_find(ps, k) < ps.len()
}

/// The value stored under `k`, if any.
pub open spec fn assoc_get(ps: Seq<(Seq<char>, Seq<char>)>, k: Seq<char>) -> Option<Seq<char>> {
    if assoc_has(ps, k) {
        Some(ps[assoc_find(ps, k)].1)
    } else {
        None
    }
}

/// `ps` with `k` bound to `v`: overwritten in place when `k` is present,
/// appended otherwise.
pub open spec fn assoc_insert(
    ps: Seq<(Seq<char>, Seq<char>)>,
    k: Seq<char>,
    v: Seq<char>,
) -> Seq<(Seq<char>, Seq<char>)> {
    if assoc_has(ps, k) {
        ps.update(assoc_find(ps, k), (k, v))
    } else {
        ps.push((k, v))
    }
}

/// No key occurs twice.
pub open spec fn keys_distinct(ps: Seq<(Seq<char>, Seq<char>)>) -> bool {
    forall|i: int, j: int| 0 <= i < j < ps.len() ==> ps[i].0 != ps[j].0
}

pub proof fn lemma_assoc_find_props(ps: Seq<(Seq<char>, Seq<char>)>, k: Seq<char>)
    ensures
        0 <= assoc_find(ps, k) <= ps.len(),
        assoc_find(ps, k) < ps.len() ==> ps[assoc_find(ps, k)].0 == k,
        forall|j: int| 0 <= j < assoc_find(ps, k) ==> ps[j].0 != k,
    decreases ps.len(),
{
    if ps.len() > 0 && ps[0].0 != k {
        lemma_assoc_find_props(ps.drop_first(), k);
        assert forall|j: int| 0 <= j < assoc_find(ps, k) implies ps[j].0 != k by {
            if j > 0 {
                assert(ps.drop_first()[j - 1] == ps[j]);
            }
        }
    }
}

pub proof fn lemma_assoc_find_at(ps: Seq<(Seq<char>, Seq<char>)>, k: Seq<char>, i: int)
    requires
        0 <= i <= ps.len(),
        forall|j: int| 0 <= j < i ==> ps[j].0 != k,
        i == ps.len() || ps[i].0 == k,
    ensures
        assoc_find(ps, k) == i,
    decreases i,
{
    if i == 0 {
        if ps.len() > 0 && ps[0].0 != k {
            assert(i < ps.len());
        }
    } else {
        assert(ps[0].0 != k);
        let t = ps.drop_first();
        assert forall|j: int| 0 <= j < i - 1 implies t[j].0 != k by {
            assert(t[j] == ps[j + 1]);
        }
        assert(i - 1 == t.len() || t[i - 1].0 == k);
        lemma_assoc_find_at(t, k, i - 1);
    }
}

/// After an insert, `k` reads back as `v` and every other key reads as before;
/// the insert also keeps the keys distinct.
pub proof fn lemma_assoc_insert(ps: Seq<(Seq<char>, Seq<char>)>, k: Seq<char>, v: Seq<char>)
    ensures
        assoc_get(assoc_insert(ps, k, v), k) == Some(v),
        forall|k2: Seq<char>|
            k2 != k ==> #[trigger] assoc_get(assoc_insert(ps, k, v), k2) == assoc_get(ps, k2),
        keys_distinct(ps) ==> keys_distinct(assoc_insert(ps, k, v)),
        assoc_insert(ps, k, v).len() == if assoc_has(ps, k) {
            ps.len() as int
        } else {
            ps.len() as int + 1
        },
        forall|j: int|
            0 <= j < assoc_insert(ps, k, v).len() && j != assoc_find(ps, k)
                ==> #[trigger] assoc_insert(ps, k, v)[j] == ps[j],
        assoc_insert(ps, k, v)[assoc_find(ps, k)] == (k, v),
{
    lemma_assoc_find_props(ps, k);
    let r = assoc_insert(ps, k, v);
    let i = assoc_find(ps, k);
    if assoc_has(ps, k) {
        assert forall|j: int| 0 <= j < i implies r[j].0 != k by {
            assert(r[j] == ps[j]);
        }
        lemma_assoc_find_at(r, k, i);
        assert(assoc_get(r, k) == Some(v));
        assert forall|k2: Seq<char>| k2 != k implies #[trigger] assoc_get(r, k2) == assoc_get(
            ps,
            k2,
        ) by {
            lemma_assoc_find_props(ps, k2);
            lemma_assoc_find_props(r, k2);
            let i2 = assoc_find(ps, k2);
            if i2 < ps.len() {
                assert(r[i2].0 == k2) by {
                    if i2 == i {
                        assert(ps[i].0 == k);
                    }
                }
                assert forall|j: int| 0 <= j < i2 implies r[j].0 != k2 by {
                    if j == i {
                        assert(r[j].0 == k);
                        assert(ps[i].0 == k);
                        assert(ps[i2].0 == k2);
                    } else {
                        assert(r[j] == ps[j]);
                    }
                }
                lemma_assoc_find_at(r, k2, i2);
                assert(r[i2].1 == ps[i2].1) by {
                    if i2 == i {
                        assert(ps[i].0 == k);
                    }
                }
            } else {
                assert forall|j: int| 0 <= j < r.len() implies r[j].0 != k2 by {
                    if j == i {
                        assert(r[j].0 == k);
                    } else {
                        assert(r[j] == ps[j]);
                        assert(ps[j].0 != k2);
                    }
                }
                lemma_assoc_find_at(r, k2, r.len() as int);
            }
        }
        if keys_distinct(ps) {
            assert forall|a: int, b: int| 0 <= a < b < r.len() implies r[a].0 != r[b].0 by {
                assert(r[a].0 == ps[a].0);
                assert(r[b].0 == ps[b].0);
            }
        }
    } else {
        assert(i == ps.len());
        assert forall|j: int| 0 <= j < i implies r[j].0 != k by {
            assert(r[j] == ps[j]);
        }
        assert(r[i].0 == k);
        lemma_assoc_find_at(r, k, i);
        assert forall|k2: Seq<char>| k2 != k implies #[trigger] assoc_get(r, k2) == assoc_get(
            ps,
            k2,
        ) by {
            lemma_assoc_find_props(ps, k2);
            lemma_assoc_find_props(r, k2);
            let i2 = assoc_find(ps, k2);
            if i2 < ps.len() {
                assert(r[i2] == ps[i2]);
                assert forall|j: int| 0 <= j < i2 implies r[j].0 != k2 by {
                    assert(r[j] == ps[j]);
                }
                lemma_assoc_find_at(r, k2, i2);
            } else {
                assert forall|j: int| 0 <= j < r.len() implies r[j].0 != k2 by {
                    if j < ps.len() {
                        assert(r[j] == ps[j]);
                    } else {
                        assert(r[j].0 == k);
                    }
                }
                lemma_assoc_find_at(r, k2, r.len() as int);
            }
        }
        if keys_distinct(ps) {
            assert forall|a: int, b: int| 0 <= a < b < r.len() implies r[a].0 != r[b].0 by {
                if b < ps.len() {
                    assert(r[a] == ps[a]);
                    assert(r[b] == ps[b]);
                } else {
                    assert(r[a] == ps[a]);
                    assert(r[b].0 == k);
                    assert(ps[a].0 != k);
                }
            }
        }
    }
}

/// Every raw pair inserted in order, later values overwriting earlier ones.
pub open spec fn map_of_pairs(raw: Seq<(Seq<char>, Seq<char>)>) -> Seq<(Seq<char>, Seq<char>)>
    decreases raw.len(),
{
    if raw.len() == 0 {
        Seq::empty()
    } else {
        assoc_insert(map_of_pairs(raw.drop_last()), raw.last().0, raw.last().1)
    }
}

pub proof fn lemma_map_of_pairs_distinct(raw: Seq<(Seq<char>, Seq<char>)>)
    ensures
        keys_distinct(map_of_pairs(raw)),
    decreases raw.len(),
{
    if raw.len() > 0 {
        lemma_map_of_pairs_distinct(raw.drop_last());
        lemma_assoc_insert(map_of_pairs(raw.drop_last()), raw.last().0, raw.last().1);
    }
}

/// Inserting a list whose keys are already distinct reproduces the list.
pub proof fn lemma_map_of_pairs_id(ps: Seq<(Seq<char>, Seq<char>)>)
    requires
        keys_distinct(ps),
    ensures
        map_of_pairs(ps) == ps,
    decreases ps.len(),
{
    if ps.len() > 0 {
        let d = ps.drop_last();
        assert(keys_distinct(d)) by {
            assert(forall|i: int| 0 <= i < d.len() ==> d[i] == ps[i]);
        }
        lemma_map_of_pairs_id(d);
        let k = ps.last().0;
        assert(!assoc_has(d, k)) by {
            lemma_assoc_find_props(d, k);
            if assoc_find(d, k) < d.len() {
                let i = assoc_find(d, k);
                assert(d[i] == ps[i]);
                assert(ps[i].0 == ps[ps.len() - 1].0);
            }
        }
        assert(map_of_pairs(ps) == d.push(ps.last()));
        assert(d.push(ps.last()) =~= ps);
    }
}

/// A key/value map of strings: first-seen key order, last-write-wins values.
pub struct AttrMap {
    pairs: Vec<(String, String)>,
}

impl View for AttrMap {
    type V = Seq<(Seq<char>, Seq<char>)>;

    closed spec fn view(&self) -> Seq<(Seq<char>, Seq<char>)> {
        pairs_view(self.pairs@)
    }
}

impl AttrMap {
    /// The map's keys never repeat.
    pub open spec fn wf(&self) -> bool {
        keys_distinct(self@)
    }

    /// An empty map.
    pub fn new() -> (r: AttrMap)
        ensures
            r@ =~= Seq::<(Seq<char>, Seq<char>)>::empty(),
            r.wf(),
    {
        AttrMap { pairs: Vec::new() }
    }

    pub fn len(&self) -> (r: usize)
        ensures
            r == self@.len(),
    {
        self.pairs.len()
    }

    /// The pair at position `i`, for walking the map in its stored order.
    pub fn pair_at(&self, i: usize) -> (r: (&String, &String))
        requires
            i < self@.len(),
        ensures
            r.0@ == self@[i as int].0,
            r.1@ == self@[i as int].1,
    {
        (&self.pairs[i].0, &self.pairs[i].1)
    }

    /// The value stored under `key`, if any.
    pub fn get(&self, key: &str) -> (r: Option<&String>)
        ensures
            match r {
                Some(v) => assoc_get(self@, key@) == Some(v@),
                None => assoc_get(self@, key@) is None,
            },
    {
        let n = self.pairs.len();
        let mut i: usize = 0;
        while i < n
            invariant
                0 <= i <= n,
                n == self@.len(),
                forall|j: int| 0 <= j < i ==> self@[j].0 != key@,
            decreases n - i,
        {
            if str_eq(self.pairs[i].0.as_str(), key) {
                proof {
                    lemma_assoc_find_at(self@, key@, i as int);
                }
                return Some(&self.pairs[i].1);
            }
            i += 1;
        }
        proof {
            lemma_assoc_find_at(self@, key@, n as int);
        }
        None
    }

    /// Binds `key` to `value`: overwrites in place when present, appends
    /// otherwise.
    pub fn insert(&mut self, key: String, value: String)
        ensures
            final(self)@ == assoc_insert(old(self)@, key@, value@),
            old(self).wf() ==> final(self).wf(),
    {
        let n = self.pairs.len();
        let mut i: usize = 0;
        while i < n
            invariant
                0 <= i <= n,
                n == self@.len(),
                self == old(self),
                forall|j: int| 0 <= j < i ==> self@[j].0 != key@,
            decreases n - i,
        {
            if str_eq(self.pairs[i].0.as_str(), key.as_str()) {
                proof {
                    lemma_assoc_find_at(self@, key@, i as int);
                    lemma_assoc_insert(self@, key@, value@);
                }
                self.pairs.set(i, (key, value));
                proof {
                    assert(final(self)@ =~= assoc_insert(old(self)@, key@, value@));
                }
                return ;
            }
            i += 1;
        }
        proof {
            lemma_assoc_find_at(self@, key@, n as int);
            lemma_assoc_insert(self@, key@, value@);
        }
        self.pairs.push((key, value));
        proof {
            assert(final(self)@ =~= assoc_insert(old(self)@, key@, value@));
        }
    }

    /// The map flattened back to an attribute list, in stored order.
    pub fn to_attributes(&self) -> (r: Vec<(String, String)>)
        ensures
            pairs_view(r@) == self@,
    {
        let n = self.pairs.len();
        let mut out: Vec<(String, String)> = Vec::new();
        let mut i: usize = 0;
        while i < n
            invariant
                0 <= i <= n,
                n == self@.len(),
                out@.len() == i,
                forall|j: int| 0 <= j < i ==> pair_view(#[trigger] out@[j]) == self@[j],
            decreases n - i,
        {
            let k = self.pairs[i].0.clone();
            let v = self.pairs[i].1.clone();
            out.push((k, v));
            i += 1;
        }
        proof {
            assert(pairs_view(out@) =~= self@);
        }
        out
    }
}

/// Reads a raw attribute list into a map; a repeated key keeps its last
/// value.
pub fn new_attr_map(attrs: &Vec<(String, String)>) -> (r: AttrMap)
    ensures
        r@ == map_of_pairs(pairs_view(attrs@)),
        r.wf(),
{
    let n = attrs.len();
    let mut m = AttrMap::new();
    let mut i: usize = 0;
    proof {
        assert(pairs_view(attrs@).subrange(0, 0) =~= Seq::<(Seq<char>, Seq<char>)>::empty());
        assert(m@ =~= map_of_pairs(pairs_view(attrs@).subrange(0, 0)));
    }
    while i < n
        invariant
            0 <= i <= n,
            n == attrs@.len(),
            m@ == map_of_pairs(pairs_view(attrs@).subrange(0, i as int)),
            m.wf(),
        decreases n - i,
    {
        let k = attrs[i].0.clone();
        let v = attrs[i].1.clone();
        proof {
            let ps = pairs_view(attrs@);
            assert(ps.subrange(0, i + 1).drop_last() =~= ps.subrange(0, i as int));
            assert(ps.subrange(0, i + 1).last() == ps[i as int]);
        }
        m.insert(k, v);
        i += 1;
    }
    proof {
        assert(pairs_view(attrs@).subrange(0, n as int) =~= pairs_view(attrs@));
    }
    m
}

} // verus!
