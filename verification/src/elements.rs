//! The in-memory model of OpenStreetMap data: elements (nodes, ways and
//! relations), their tag mappings, and document-level metadata.
//!
//! Coordinates are held as fixed-point integers counting ten-millionths of a
//! degree, so that every function over them stays within plain integer
//! arithmetic.

use vstd::prelude::*;

verus! {

/// Element types without any additional data attached.
#[derive(Debug, Clone, Copy, PartialEq, Eq, Structural)]
pub enum SimpleElementType {
    Node,
    Way,
    Relation,
}

/// A member of a relation: a reference to another element by identifier,
/// with an optional type and an optional role.
#[derive(Debug, Clone)]
pub struct Member {
    pub t: Option<SimpleElementType>,
    pub id: i64,
    pub role: Option<String>,
}

/// The mathematical value of a `Member`.
pub struct MemberView {
    pub t: Option<SimpleElementType>,
    pub id: int,
    pub role: Option<Seq<char>>,
}

impl View for Member {
    type V = MemberView;

    open spec fn view(&self) -> MemberView {
        MemberView { t: self.t, id: self.id as int, role: self.role.deep_view() }
    }
}

/// The varying part of each element type.  A node's position is held in
/// ten-millionths of a degree.
#[derive(Debug, Clone)]
pub enum ElementType {
    Node { lat: i64, lon: i64 },
    Way { nodes: Vec<i64> },
    Relation { members: Vec<Member> },
}

/// The mathematical value of an `ElementType`.
pub enum ElementTypeView {
    Node { lat: int, lon: int },
    Way { nodes: Seq<int> },
    Relation { members: Seq<MemberView> },
}

impl View for ElementType {
    type V = ElementTypeView;

    open spec fn view(&self) -> ElementTypeView {
        match self {
            ElementType::Node { lat, lon } => ElementTypeView::Node {
                lat: *lat as int,
                lon: *lon as int,
            },
            ElementType::Way { nodes } => ElementTypeView::Way {
                nodes: nodes@.map_values(|n: i64| n as int),
            },
            ElementType::Relation { members } => ElementTypeView::Relation {
                members: members@.map_values(|m: Member| m@),
            },
        }
    }
}

/// A tag mapping as a sequence of key/value pairs, in insertion order.
pub open spec fn tags_distinct(ts: Seq<(Seq<char>, Seq<char>)>) -> bool {
    forall|i: int, j: int| 0 <= i < j < ts.len() ==> (#[trigger] ts[i]).0 != (#[trigger] ts[j]).0
}

/// Whether the mapping holds the key `k`.
pub open spec fn tags_contains(ts: Seq<(Seq<char>, Seq<char>)>, k: Seq<char>) -> bool {
    exists|i: int| 0 <= i < ts.len() && (#[trigger] ts[i]).0 == k
}

/// The value mapped to `k`, reading front to back.
pub open spec fn tags_get(ts: Seq<(Seq<char>, Seq<char>)>, k: Seq<char>) -> Option<Seq<char>>
    decreases ts.len(),
{
    if ts.len() == 0 {
        Option::None
    } else if ts[0].0 == k {
        Option::Some(ts[0].1)
    } else {
        tags_get(ts.drop_first(), k)
    }
}

/// The mapping with every pair keyed `k` removed.
pub open spec fn tags_remove(ts: Seq<(Seq<char>, Seq<char>)>, k: Seq<char>) -> Seq<
    (Seq<char>, Seq<char>),
>
    decreases ts.len(),
{
    if ts.len() == 0 {
        ts
    } else if ts[0].0 == k {
        tags_remove(ts.drop_first(), k)
    } else {
        seq![ts[0]] + tags_remove(ts.drop_first(), k)
    }
}

/// The mapping with `k` now mapped to `v`: any old pair for `k` leaves, and
/// the new pair arrives at the back.
pub open spec fn tags_set(ts: Seq<(Seq<char>, Seq<char>)>, k: Seq<char>, v: Seq<char>) -> Seq<
    (Seq<char>, Seq<char>),
> {
    tags_remove(ts, k).push((k, v))
}

/// The mapping after `rename(old_key, new_key)`: nothing when `old_key` is
/// absent; otherwise `old_key` leaves and `new_key` takes its value.
pub open spec fn tags_rename(
    ts: Seq<(Seq<char>, Seq<char>)>,
    old_key: Seq<char>,
    new_key: Seq<char>,
) -> Seq<(Seq<char>, Seq<char>)> {
    match tags_get(ts, old_key) {
        Option::Some(v) => tags_set(tags_remove(ts, old_key), new_key, v),
        Option::None => ts,
    }
}

/// The mapping restricted to the keys listed in `keys`.
pub open spec fn tags_keep(ts: Seq<(Seq<char>, Seq<char>)>, keys: Seq<Seq<char>>) -> Seq<
    (Seq<char>, Seq<char>),
>
    decreases ts.len(),
{
    if ts.len() == 0 {
        ts
    } else if keys.contains(ts[0].0) {
        seq![ts[0]] + tags_keep(ts.drop_first(), keys)
    } else {
        tags_keep(ts.drop_first(), keys)
    }
}

/// The mapping with every key listed in `keys` removed, one after the other.
pub open spec fn tags_delete(ts: Seq<(Seq<char>, Seq<char>)>, keys: Seq<Seq<char>>) -> Seq<
    (Seq<char>, Seq<char>),
>
    decreases keys.len(),
{
    if keys.len() == 0 {
        ts
    } else {
        tags_delete(tags_remove(ts, keys[0]), keys.drop_first())
    }
}

/// A tag mapping: string keys to string values, keys unique, insertion
/// order kept.
#[derive(Debug, Clone)]
pub struct Tags {
    pairs: Vec<(String, String)>,
}

impl View for Tags {
    type V = Seq<(Seq<char>, Seq<char>)>;

    closed spec fn view(&self) -> Seq<(Seq<char>, Seq<char>)> {
        self.pairs@.map_values(|p: (String, String)| (p.0@, p.1@))
    }
}

impl Tags {
    /// A well-formed mapping never holds a key twice.
    pub open spec fn wf(&self) -> bool {
        tags_distinct(self@)
    }

    /// The empty mapping.
    pub fn new() -> (t: Tags)
        ensures
            t@ == Seq::<(Seq<char>, Seq<char>)>::empty(),
            t.wf(),
    {
        let t = Tags { pairs: Vec::new() };
        proof {
            assert(t@ =~= Seq::<(Seq<char>, Seq<char>)>::empty());
        }
        t
    }

    /// How many pairs the mapping holds.
    pub fn len(&self) -> (n: usize)
        ensures
            n == self@.len(),
    {
        self.pairs.len()
    }

    /// The key of the pair at `i`.
    pub fn key_at(&self, i: usize) -> (k: &String)
        requires
            i < self@.len(),
        ensures
            k@ == self@[i as int].0,
    {
        &self.pairs[i].0
    }

    /// The value of the pair at `i`.
    pub fn value_at(&self, i: usize) -> (v: &String)
        requires
            i < self@.len(),
        ensures
            v@ == self@[i as int].1,
    {
        &self.pairs[i].1
    }

    /// Whether the mapping holds `key`.
    pub fn contains_key(&self, key: &String) -> (r: bool)
        ensures
            r == tags_contains(self@, key@),
    {
        let mut i: usize = 0;
        while i < self.pairs.len()
            invariant
                i <= self@.len(),
                self@.len() == self.pairs@.len(),
                forall|j: int| 0 <= j < i ==> (#[trigger] self@[j]).0 != key@,
            decreases self@.len() - i,
        {
            if self.pairs[i].0 == *key {
                assert(self@[i as int].0 == key@);
                return true;
            }
            i = i + 1;
        }
        false
    }

    /// The value mapped to `key`, if any.
    pub fn get(&self, key: &String) -> (r: Option<&String>)
        ensures
            match r {
                Option::Some(v) => tags_get(self@, key@) == Option::Some(v@),
                Option::None => tags_get(self@, key@) is None,
            },
    {
        let ghost whole = self@;
        proof {
            assert(whole.skip(0) =~= whole);
        }
        let mut i: usize = 0;
        while i < self.pairs.len()
            invariant
                i <= self@.len(),
                self@.len() == self.pairs@.len(),
                whole == self@,
                tags_get(whole, key@) == tags_get(whole.skip(i as int), key@),
            decreases self@.len() - i,
        {
            proof {
                assert(whole.skip(i as int)[0] == self@[i as int]);
                assert(whole.skip(i as int).drop_first() =~= whole.skip(i + 1));
            }
            if self.pairs[i].0 == *key {
                return Option::Some(&self.pairs[i].1);
            }
            i = i + 1;
        }
        proof {
            assert(whole.skip(whole.len() as int).len() == 0);
        }
        Option::None
    }

    /// Removes the pair keyed `key`, returning its value when one was there.
    pub fn remove(&mut self, key: &String) -> (r: Option<String>)
        ensures
            final(self)@ == tags_remove(old(self)@, key@),
            old(self).wf() ==> final(self).wf(),
            match r {
                Option::Some(v) => tags_get(old(self)@, key@) == Option::Some(v@),
                Option::None => tags_get(old(self)@, key@) is None,
            },
    {
        let ghost whole = self@;
        let mut out: Vec<(String, String)> = Vec::new();
        let mut found: Option<String> = Option::None;
        proof {
            assert(whole.skip(0) =~= whole);
            assert(out@.map_values(|p: (String, String)| (p.0@, p.1@)) =~= Seq::<
                (Seq<char>, Seq<char>),
            >::empty());
            assert(Seq::<(Seq<char>, Seq<char>)>::empty() + tags_remove(whole, key@)
                =~= tags_remove(whole, key@));
            assert(whole.take(0).len() == 0);
        }
        let mut i: usize = 0;
        while i < self.pairs.len()
            invariant
                i <= self.pairs@.len(),
                whole == self.pairs@.map_values(|p: (String, String)| (p.0@, p.1@)),
                whole.len() == self.pairs@.len(),
                tags_remove(whole, key@) == out@.map_values(|p: (String, String)| (p.0@, p.1@))
                    + tags_remove(whole.skip(i as int), key@),
                match found {
                    Option::Some(v) => tags_get(whole.take(i as int), key@) == Option::Some(v@),
                    Option::None => tags_get(whole.take(i as int), key@) is None,
                },
            decreases self.pairs@.len() - i,
        {
            proof {
                assert(whole.skip(i as int)[0] == whole[i as int]);
                assert(whole.skip(i as int).drop_first() =~= whole.skip(i + 1));
                lemma_tags_get_take_step(whole, key@, i as int);
            }
            if self.pairs[i].0 == *key {
                if found.is_none() {
                    found = Option::Some(self.pairs[i].1.clone());
                }
            } else {
                out.push((self.pairs[i].0.clone(), self.pairs[i].1.clone()));
                proof {
                    assert(out@.map_values(|p: (String, String)| (p.0@, p.1@)) =~= out@.drop_last()
                        .map_values(|p: (String, String)| (p.0@, p.1@)).push(
                        (whole[i as int].0, whole[i as int].1),
                    ));
                    assert(seq![whole.skip(i as int)[0]] + tags_remove(whole.skip(i + 1), key@)
                        =~= tags_remove(whole.skip(i as int), key@));
                    assert(out@.drop_last().map_values(|p: (String, String)| (p.0@, p.1@)) + (seq![
                        whole.skip(i as int)[0],
                    ] + tags_remove(whole.skip(i + 1), key@)) =~= out@.map_values(
                        |p: (String, String)| (p.0@, p.1@),
                    ) + tags_remove(whole.skip(i + 1), key@));
                }
            }
            i = i + 1;
        }
        proof {
            assert(whole.skip(whole.len() as int).len() == 0);
            assert(tags_remove(whole.skip(whole.len() as int), key@) =~= Seq::<
                (Seq<char>, Seq<char>),
            >::empty());
            assert(whole.take(whole.len() as int) =~= whole);
        }
        self.pairs = out;
        proof {
            assert(self@ =~= tags_remove(whole, key@));
            if tags_distinct(whole) {
                lemma_tags_remove_distinct(whole, key@);
            }
        }
        found
    }

    /// Maps `key` to `value`: any pair already keyed `key` leaves, and the
    /// new pair joins at the back.
    pub fn insert(&mut self, key: String, value: String)
        ensures
            final(self)@ == tags_set(old(self)@, key@, value@),
            old(self).wf() ==> final(self).wf(),
    {
        let _ = self.remove(&key);
        let ghost removed = self@;
        self.pairs.push((key, value));
        proof {
            assert(self@ =~= removed.push((key@, value@)));
            if tags_distinct(old(self)@) {
                lemma_tags_remove_distinct(old(self)@, key@);
                lemma_tags_remove_get(old(self)@, key@, key@);
                lemma_tags_get_contains(removed, key@);
                assert forall|i: int, j: int|
                    0 <= i < j < self@.len() implies (#[trigger] self@[i]).0 != (
                #[trigger] self@[j]).0 by {
                    if j == self@.len() - 1 {
                        assert(self@[i] == removed[i]);
                        assert(!tags_contains(removed, key@));
                        assert(removed[i].0 != key@);
                    }
                }
            }
        }
    }

    /// Keeps only the pairs whose key stands in `keys`.
    pub fn retain_keys(&mut self, keys: &Vec<String>)
        ensures
            final(self)@ == tags_keep(old(self)@, keys.deep_view()),
            old(self).wf() ==> final(self).wf(),
    {
        let ghost whole = self@;
        let mut out: Vec<(String, String)> = Vec::new();
        proof {
            assert(whole.skip(0) =~= whole);
            assert(out@.map_values(|p: (String, String)| (p.0@, p.1@)) =~= Seq::<
                (Seq<char>, Seq<char>),
            >::empty());
            assert(Seq::<(Seq<char>, Seq<char>)>::empty() + tags_keep(whole, keys.deep_view())
                =~= tags_keep(whole, keys.deep_view()));
        }
        let mut i: usize = 0;
        while i < self.pairs.len()
            invariant
                i <= self.pairs@.len(),
                whole == self.pairs@.map_values(|p: (String, String)| (p.0@, p.1@)),
                whole.len() == self.pairs@.len(),
                tags_keep(whole, keys.deep_view()) == out@.map_values(
                    |p: (String, String)| (p.0@, p.1@),
                ) + tags_keep(whole.skip(i as int), keys.deep_view()),
            decreases self.pairs@.len() - i,
        {
            proof {
                assert(whole.skip(i as int)[0] == whole[i as int]);
                assert(whole.skip(i as int).drop_first() =~= whole.skip(i + 1));
            }
            if vec_contains_string(keys, &self.pairs[i].0) {
                out.push((self.pairs[i].0.clone(), self.pairs[i].1.clone()));
                proof {
                    assert(out@.map_values(|p: (String, String)| (p.0@, p.1@)) =~= out@.drop_last()
                        .map_values(|p: (String, String)| (p.0@, p.1@)).push(
                        (whole[i as int].0, whole[i as int].1),
                    ));
                    assert(seq![whole.skip(i as int)[0]] + tags_keep(
                        whole.skip(i + 1),
                        keys.deep_view(),
                    ) =~= tags_keep(whole.skip(i as int), keys.deep_view()));
                    assert(out@.drop_last().map_values(|p: (String, String)| (p.0@, p.1@)) + (seq![
                        whole.skip(i as int)[0],
                    ] + tags_keep(whole.skip(i + 1), keys.deep_view())) =~= out@.map_values(
                        |p: (String, String)| (p.0@, p.1@),
                    ) + tags_keep(whole.skip(i + 1), keys.deep_view()));
                }
            }
            i = i + 1;
        }
        proof {
            assert(whole.skip(whole.len() as int).len() == 0);
            assert(tags_keep(whole.skip(whole.len() as int), keys.deep_view()) =~= Seq::<
                (Seq<char>, Seq<char>),
            >::empty());
        }
        self.pairs = out;
        proof {
            assert(self@ =~= tags_keep(whole, keys.deep_view()));
            if tags_distinct(whole) {
                lemma_tags_keep_distinct(whole, keys.deep_view());
            }
        }
    }

    /// Removes every key listed in `keys`, in order.
    pub fn remove_keys(&mut self, keys: &Vec<String>)
        ensures
            final(self)@ == tags_delete(old(self)@, keys.deep_view()),
            old(self).wf() ==> final(self).wf(),
    {
        proof {
            assert(keys.deep_view().skip(0) =~= keys.deep_view());
        }
        let mut i: usize = 0;
        while i < keys.len()
            invariant
                i <= keys@.len(),
                old(self).wf() ==> self.wf(),
                tags_delete(old(self)@, keys.deep_view()) == tags_delete(
                    self@,
                    keys.deep_view().skip(i as int),
                ),
            decreases keys@.len() - i,
        {
            proof {
                assert(keys.deep_view().skip(i as int)[0] == keys.deep_view()[i as int]);
                assert(keys.deep_view().skip(i as int).drop_first() =~= keys.deep_view().skip(
                    i + 1,
                ));
                assert(keys.deep_view()[i as int] == keys@[i as int]@);
            }
            let _ = self.remove(&keys[i]);
            i = i + 1;
        }
        proof {
            assert(keys.deep_view().skip(keys.deep_view().len() as int).len() == 0);
        }
    }
}

/// Whether `v` holds a string equal to `s`.
pub fn vec_contains_string(v: &Vec<String>, s: &String) -> (r: bool)
    ensures
        r == v.deep_view().contains(s@),
{
    let mut i: usize = 0;
    while i < v.len()
        invariant
            i <= v@.len(),
            forall|j: int| 0 <= j < i ==> v.deep_view()[j] != s@,
        decreases v@.len() - i,
    {
        proof {
            assert(v.deep_view()[i as int] == v@[i as int]@);
        }
        if v[i] == *s {
            assert(v.deep_view().contains(s@)) by {
                assert(v.deep_view()[i as int] == s@);
            }
            return true;
        }
        i = i + 1;
    }
    assert(!v.deep_view().contains(s@)) by {
        assert(forall|j: int| 0 <= j < v.deep_view().len() ==> v.deep_view()[j] != s@);
    }
    false
}

/// Unfolding step for `tags_get` along a growing prefix.
proof fn lemma_tags_get_take_step(ts: Seq<(Seq<char>, Seq<char>)>, k: Seq<char>, i: int)
    requires
        0 <= i < ts.len(),
    ensures
        tags_get(ts.take(i), k) is Some ==> tags_get(ts.take(i + 1), k) == tags_get(
            ts.take(i),
            k,
        ),
        tags_get(ts.take(i), k) is None && ts[i].0 == k ==> tags_get(ts.take(i + 1), k)
            == Option::Some(ts[i].1),
        tags_get(ts.take(i), k) is None && ts[i].0 != k ==> tags_get(ts.take(i + 1), k) is None,
    decreases i,
{
    if i == 0 {
        assert(ts.take(1)[0] == ts[0]);
        assert(ts.take(1).drop_first().len() == 0);
    } else {
        lemma_tags_get_take_step(ts.drop_first(), k, i - 1);
        assert(ts.take(i + 1)[0] == ts[0]);
        assert(ts.take(i)[0] == ts[0]);
        assert(ts.take(i + 1).drop_first() =~= ts.drop_first().take(i));
        assert(ts.take(i).drop_first() =~= ts.drop_first().take(i - 1));
        assert(ts.drop_first()[i - 1] == ts[i]);
    }
}


/// `tags_get` finds a value exactly when `tags_contains` holds.
pub proof fn lemma_tags_get_contains(ts: Seq<(Seq<char>, Seq<char>)>, k: Seq<char>)
    ensures
        tags_get(ts, k) is Some <==> tags_contains(ts, k),
    decreases ts.len(),
{
    if ts.len() > 0 {
        lemma_tags_get_contains(ts.drop_first(), k);
        if ts[0].0 == k {
            assert(tags_contains(ts, k)) by {
                assert(ts[0].0 == k);
            }
        } else {
            if tags_contains(ts.drop_first(), k) {
                let i = choose|i: int|
                    0 <= i < ts.drop_first().len() && (#[trigger] ts.drop_first()[i]).0 == k;
                assert(ts[i + 1].0 == k);
            }
            if tags_contains(ts, k) {
                let i = choose|i: int| 0 <= i < ts.len() && (#[trigger] ts[i]).0 == k;
                assert(ts.drop_first()[i - 1].0 == k);
            }
        }
    }
}

/// Removing `k` removes exactly the pairs keyed `k` and no value changes.
pub proof fn lemma_tags_remove_get(ts: Seq<(Seq<char>, Seq<char>)>, k: Seq<char>, k2: Seq<char>)
    ensures
        tags_get(tags_remove(ts, k), k2) == if k2 == k {
            Option::<Seq<char>>::None
        } else {
            tags_get(ts, k2)
        },
    decreases ts.len(),
{
    if ts.len() > 0 {
        lemma_tags_remove_get(ts.drop_first(), k, k2);
        if ts[0].0 != k {
            assert((seq![ts[0]] + tags_remove(ts.drop_first(), k)).drop_first() =~= tags_remove(
                ts.drop_first(),
                k,
            ));
            assert((seq![ts[0]] + tags_remove(ts.drop_first(), k))[0] == ts[0]);
        }
    }
}

/// Removing an absent key changes nothing.
pub proof fn lemma_tags_remove_absent(ts: Seq<(Seq<char>, Seq<char>)>, k: Seq<char>)
    requires
        tags_get(ts, k) is None,
    ensures
        tags_remove(ts, k) == ts,
    decreases ts.len(),
{
    if ts.len() > 0 {
        lemma_tags_remove_absent(ts.drop_first(), k);
        assert(ts[0].0 != k);
        assert(seq![ts[0]] + ts.drop_first() =~= ts);
    } else {
        assert(tags_remove(ts, k) =~= ts);
    }
}

/// Every pair of the removed mapping comes from the original one.
pub proof fn lemma_tags_remove_pairs(ts: Seq<(Seq<char>, Seq<char>)>, k: Seq<char>, i: int)
    requires
        0 <= i < tags_remove(ts, k).len(),
    ensures
        exists|j: int|
            0 <= j < ts.len() && #[trigger] ts[j] == tags_remove(ts, k)[i] && ts[j].0 != k,
    decreases ts.len(),
{
    if ts.len() > 0 {
        let rest = tags_remove(ts.drop_first(), k);
        if ts[0].0 == k {
            lemma_tags_remove_pairs(ts.drop_first(), k, i);
            let j = choose|j: int|
                0 <= j < ts.drop_first().len() && #[trigger] ts.drop_first()[j] == rest[i]
                    && ts.drop_first()[j].0 != k;
            assert(ts[j + 1] == tags_remove(ts, k)[i]);
        } else {
            if i == 0 {
                assert(ts[0] == tags_remove(ts, k)[0]);
            } else {
                assert(tags_remove(ts, k)[i] == rest[i - 1]);
                lemma_tags_remove_pairs(ts.drop_first(), k, i - 1);
                let j = choose|j: int|
                    0 <= j < ts.drop_first().len() && #[trigger] ts.drop_first()[j] == rest[i - 1]
                        && ts.drop_first()[j].0 != k;
                assert(ts[j + 1] == tags_remove(ts, k)[i]);
            }
        }
    }
}

/// Removal keeps keys distinct.
pub proof fn lemma_tags_remove_distinct(ts: Seq<(Seq<char>, Seq<char>)>, k: Seq<char>)
    requires
        tags_distinct(ts),
    ensures
        tags_distinct(tags_remove(ts, k)),
    decreases ts.len(),
{
    if ts.len() > 0 {
        assert(tags_distinct(ts.drop_first())) by {
            assert(forall|i: int, j: int|
                0 <= i < j < ts.drop_first().len() ==> (#[trigger] ts.drop_first()[i]).0 != (
                #[trigger] ts.drop_first()[j]).0) by {
                assert(forall|i: int|
                    0 <= i < ts.drop_first().len() ==> ts.drop_first()[i] == ts[i + 1]);
            }
        }
        lemma_tags_remove_distinct(ts.drop_first(), k);
        if ts[0].0 != k {
            let out = seq![ts[0]] + tags_remove(ts.drop_first(), k);
            assert forall|i: int, j: int|
                0 <= i < j < out.len() implies (#[trigger] out[i]).0 != (#[trigger] out[j]).0 by {
                let rest = tags_remove(ts.drop_first(), k);
                if i == 0 {
                    assert(out[j] == rest[j - 1]);
                    lemma_tags_remove_pairs(ts.drop_first(), k, j - 1);
                    let m = choose|m: int|
                        0 <= m < ts.drop_first().len() && #[trigger] ts.drop_first()[m] == rest[j
                            - 1] && ts.drop_first()[m].0 != k;
                    assert(ts[m + 1] == rest[j - 1]);
                    assert(ts[0].0 != ts[m + 1].0);
                } else {
                    assert(out[i] == rest[i - 1] && out[j] == rest[j - 1]);
                }
            }
        }
    } else {
        assert(tags_remove(ts, k).len() == 0);
    }
}

/// Every pair of the kept mapping comes from the original one.
pub proof fn lemma_tags_keep_pairs(ts: Seq<(Seq<char>, Seq<char>)>, keys: Seq<Seq<char>>, i: int)
    requires
        0 <= i < tags_keep(ts, keys).len(),
    ensures
        exists|j: int| 0 <= j < ts.len() && #[trigger] ts[j] == tags_keep(ts, keys)[i],
    decreases ts.len(),
{
    if ts.len() > 0 {
        let rest = tags_keep(ts.drop_first(), keys);
        if keys.contains(ts[0].0) {
            if i == 0 {
                assert(ts[0] == tags_keep(ts, keys)[0]);
            } else {
                assert(tags_keep(ts, keys)[i] == rest[i - 1]);
                lemma_tags_keep_pairs(ts.drop_first(), keys, i - 1);
                let j = choose|j: int|
                    0 <= j < ts.drop_first().len() && #[trigger] ts.drop_first()[j] == rest[i - 1];
                assert(ts[j + 1] == tags_keep(ts, keys)[i]);
            }
        } else {
            lemma_tags_keep_pairs(ts.drop_first(), keys, i);
            let j = choose|j: int|
                0 <= j < ts.drop_first().len() && #[trigger] ts.drop_first()[j] == rest[i];
            assert(ts[j + 1] == tags_keep(ts, keys)[i]);
        }
    }
}

/// Keeping a key list keeps keys distinct.
pub proof fn lemma_tags_keep_distinct(ts: Seq<(Seq<char>, Seq<char>)>, keys: Seq<Seq<char>>)
    requires
        tags_distinct(ts),
    ensures
        tags_distinct(tags_keep(ts, keys)),
    decreases ts.len(),
{
    if ts.len() > 0 {
        assert(tags_distinct(ts.drop_first())) by {
            assert(forall|i: int|
                0 <= i < ts.drop_first().len() ==> ts.drop_first()[i] == ts[i + 1]);
        }
        lemma_tags_keep_distinct(ts.drop_first(), keys);
        if keys.contains(ts[0].0) {
            let out = seq![ts[0]] + tags_keep(ts.drop_first(), keys);
            assert forall|i: int, j: int|
                0 <= i < j < out.len() implies (#[trigger] out[i]).0 != (#[trigger] out[j]).0 by {
                let rest = tags_keep(ts.drop_first(), keys);
                if i == 0 {
                    assert(out[j] == rest[j - 1]);
                    lemma_tags_keep_pairs(ts.drop_first(), keys, j - 1);
                    let m = choose|m: int|
                        0 <= m < ts.drop_first().len() && #[trigger] ts.drop_first()[m] == rest[j
                            - 1];
                    assert(ts[m + 1] == rest[j - 1]);
                    assert(ts[0].0 != ts[m + 1].0);
                } else {
                    assert(out[i] == rest[i - 1] && out[j] == rest[j - 1]);
                }
            }
        }
    }
}

/// `tags_get` after a push: the pushed pair answers only where the mapping
/// held no earlier pair for the key.
pub proof fn lemma_tags_get_push(
    ts: Seq<(Seq<char>, Seq<char>)>,
    p: (Seq<char>, Seq<char>),
    k2: Seq<char>,
)
    ensures
        tags_get(ts, k2) is Some ==> tags_get(ts.push(p), k2) == tags_get(ts, k2),
        tags_get(ts, k2) is None && p.0 == k2 ==> tags_get(ts.push(p), k2) == Option::Some(p.1),
        tags_get(ts, k2) is None && p.0 != k2 ==> tags_get(ts.push(p), k2) is None,
    decreases ts.len(),
{
    if ts.len() == 0 {
        assert(ts.push(p)[0] == p);
        assert(ts.push(p).drop_first().len() == 0);
        assert(tags_get(ts.push(p).drop_first(), k2) is None);
    } else {
        lemma_tags_get_push(ts.drop_first(), p, k2);
        assert(ts.push(p)[0] == ts[0]);
        assert(ts.push(p).drop_first() =~= ts.drop_first().push(p));
        assert(tags_get(ts.push(p).drop_first(), k2) == tags_get(ts.drop_first().push(p), k2));
    }
}

/// `tags_get` after `set`: the set key answers with the new value, every
/// other key as before.
pub proof fn lemma_tags_set_get(
    ts: Seq<(Seq<char>, Seq<char>)>,
    k: Seq<char>,
    v: Seq<char>,
    k2: Seq<char>,
)
    ensures
        tags_get(tags_set(ts, k, v), k2) == if k2 == k {
            Option::Some(v)
        } else {
            tags_get(ts, k2)
        },
{
    lemma_tags_remove_get(ts, k, k2);
    lemma_tags_get_push(tags_remove(ts, k), (k, v), k2);
}

/// `tags_get` after `keep`: a kept key answers as before, a dropped one not
/// at all.
pub proof fn lemma_tags_keep_get(
    ts: Seq<(Seq<char>, Seq<char>)>,
    keys: Seq<Seq<char>>,
    k2: Seq<char>,
)
    ensures
        tags_get(tags_keep(ts, keys), k2) == if keys.contains(k2) {
            tags_get(ts, k2)
        } else {
            Option::<Seq<char>>::None
        },
    decreases ts.len(),
{
    if ts.len() > 0 {
        lemma_tags_keep_get(ts.drop_first(), keys, k2);
        if keys.contains(ts[0].0) {
            assert((seq![ts[0]] + tags_keep(ts.drop_first(), keys)).drop_first() =~= tags_keep(
                ts.drop_first(),
                keys,
            ));
            assert((seq![ts[0]] + tags_keep(ts.drop_first(), keys))[0] == ts[0]);
        }
    }
}

/// An OpenStreetMap element: one node, way or relation, with its tags and
/// optional provenance fields.
#[derive(Debug, Clone)]
pub struct Element {
    pub changeset: Option<i64>,
    pub user: Option<String>,
    pub version: Option<i32>,
    pub uid: Option<i32>,
    pub id: i64,
    pub timestamp: Option<String>,
    pub visible: Option<bool>,
    pub tags: Tags,
    pub element_type: ElementType,
}

/// The mathematical value of an `Element`.
pub struct ElementView {
    pub changeset: Option<int>,
    pub user: Option<Seq<char>>,
    pub version: Option<int>,
    pub uid: Option<int>,
    pub id: int,
    pub timestamp: Option<Seq<char>>,
    pub visible: Option<bool>,
    pub tags: Seq<(Seq<char>, Seq<char>)>,
    pub element_type: ElementTypeView,
}

impl View for Element {
    type V = ElementView;

    open spec fn view(&self) -> ElementView {
        ElementView {
            changeset: match self.changeset {
                Option::Some(c) => Option::Some(c as int),
                Option::None => Option::None,
            },
            user: self.user.deep_view(),
            version: match self.version {
                Option::Some(v) => Option::Some(v as int),
                Option::None => Option::None,
            },
            uid: match self.uid {
                Option::Some(u) => Option::Some(u as int),
                Option::None => Option::None,
            },
            id: self.id as int,
            timestamp: self.timestamp.deep_view(),
            visible: self.visible,
            tags: self.tags@,
            element_type: self.element_type@,
        }
    }
}

impl Element {
    /// A well-formed element never holds a tag key twice.
    pub open spec fn wf(&self) -> bool {
        tags_distinct(self@.tags)
    }
}

/// Everything but the tag mapping agrees between `a` and `b`.
pub open spec fn same_but_tags(a: ElementView, b: ElementView) -> bool {
    &&& a.changeset == b.changeset
    &&& a.user == b.user
    &&& a.version == b.version
    &&& a.uid == b.uid
    &&& a.id == b.id
    &&& a.timestamp == b.timestamp
    &&& a.visible == b.visible
    &&& a.element_type == b.element_type
}

/// Document-level metadata, produced exactly once per document.
#[derive(Debug, Clone)]
pub struct Metadata {
    pub version: Option<String>,
    pub generator: Option<String>,
    pub copyright: Option<String>,
    pub license: Option<String>,
    pub timestamp: Option<String>,
}

impl Default for Metadata {
    /// Metadata with every field absent.
    fn default() -> (m: Metadata)
        ensures
            m.version is None,
            m.generator is None,
            m.copyright is None,
            m.license is None,
            m.timestamp is None,
    {
        Metadata {
            version: Option::None,
            generator: Option::None,
            copyright: Option::None,
            license: Option::None,
            timestamp: Option::None,
        }
    }
}

} // verus!
