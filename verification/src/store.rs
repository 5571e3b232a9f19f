//! The storage engine: sixteen independent namespaces, each a key space of
//! string entries and list entries, plus the process-wide index of the
//! currently selected namespace.
//!
//! A namespace keeps its two key spaces as association lists with unique
//! keys; the contracts speak of them through the lookup functions
//! [`Namespace::entry_at`] and [`Namespace::list_at`]. A key may hold a
//! string entry and a list at the same time only by way of `set`: pushes
//! refuse a key that already holds a string entry, which is the type
//! exclusivity the wire protocol promises.

use std::collections::VecDeque;
use vstd::prelude::*;

verus! {

/// A stored string value for a key, replaced wholesale on `set`.
#[derive(Debug)]
pub struct Entry {
    pub data: Vec<u8>,
}

/// No key occurs twice in an association list.
pub open spec fn keys_unique<V>(s: Seq<(String, V)>) -> bool {
    forall|i: int, j: int| 0 <= i < j < s.len() ==> s[i].0@ != s[j].0@
}

/// First-match lookup in an association list.
pub open spec fn key_find<V>(s: Seq<(String, V)>, k: Seq<char>) -> Option<V>
    decreases s.len(),
{
    if s.len() == 0 {
        Option::None
    } else if s[0].0@ == k {
        Option::Some(s[0].1)
    } else {
        key_find(s.drop_first(), k)
    }
}

/// With unique keys, lookup finds the pair that holds the key.
pub proof fn lemma_key_find_at<V>(s: Seq<(String, V)>, k: Seq<char>, i: int)
    requires
        keys_unique(s),
        0 <= i < s.len(),
        s[i].0@ == k,
    ensures
        key_find(s, k) == Option::Some(s[i].1),
    decreases s.len(),
{
    if i > 0 {
        assert(s[0].0@ != k);
        let r = s.drop_first();
        assert(forall|a: int, b: int| 0 <= a < b < r.len() ==> r[a] == s[a + 1] && r[b] == s[b
            + 1]);
        lemma_key_find_at(r, k, i - 1);
    }
}

/// Lookup of a key that no pair holds finds nothing.
pub proof fn lemma_key_find_none<V>(s: Seq<(String, V)>, k: Seq<char>)
    requires
        forall|i: int| 0 <= i < s.len() ==> s[i].0@ != k,
    ensures
        key_find(s, k) == Option::<V>::None,
    decreases s.len(),
{
    if s.len() > 0 {
        let r = s.drop_first();
        assert(forall|i: int| 0 <= i < r.len() ==> r[i] == s[i + 1]);
        lemma_key_find_none(r, k);
    }
}

/// What a lookup result says about the list itself.
pub proof fn lemma_key_find_inv<V>(s: Seq<(String, V)>, k: Seq<char>)
    ensures
        match key_find(s, k) {
            Option::Some(v) => exists|i: int|
                0 <= i < s.len() && s[i].0@ == k && s[i].1 == v,
            Option::None => forall|i: int| 0 <= i < s.len() ==> s[i].0@ != k,
        },
    decreases s.len(),
{
    if s.len() > 0 && s[0].0@ == k {
        assert(s[0].0@ == k && s[0].1 == key_find(s, k)->0);
    } else if s.len() > 0 {
        let r = s.drop_first();
        assert(forall|i: int| 0 <= i < r.len() ==> r[i] == s[i + 1]);
        lemma_key_find_inv(r, k);
        assert(key_find(s, k) == key_find(r, k));
        match key_find(s, k) {
            Option::Some(v) => {
                assert(exists|i: int| 0 <= i < r.len() && r[i].0@ == k && r[i].1 == v);
                let i = choose|i: int| 0 <= i < r.len() && r[i].0@ == k && r[i].1 == v;
                assert(0 <= i + 1 < s.len() && s[i + 1].0@ == k && s[i + 1].1 == v);
            },
            Option::None => {
                assert forall|i: int| 0 <= i < s.len() implies s[i].0@ != k by {
                    if i > 0 {
                        assert(r[i - 1].0@ != k);
                    }
                }
            },
        }
    }
}

/// The views of the byte strings held in a list, in order.
pub open spec fn list_views(q: Seq<Vec<u8>>) -> Seq<Seq<u8>> {
    q.map_values(|v: Vec<u8>| v@)
}

/// One key space: string entries and list entries, stored side by side.
pub struct Namespace {
    pub entries: Vec<(String, Entry)>,
    pub lists: Vec<(String, VecDeque<Vec<u8>>)>,
}

impl Namespace {
    /// Both association lists keep their keys unique.
    pub open spec fn wf(self) -> bool {
        keys_unique(self.entries@) && keys_unique(self.lists@)
    }

    /// The string entry stored under `k`, if any.
    pub open spec fn entry_at(self, k: Seq<char>) -> Option<Seq<u8>> {
        match key_find(self.entries@, k) {
            Option::Some(e) => Option::Some(e.data@),
            Option::None => Option::None,
        }
    }

    /// The list stored under `k`, if any, head first.
    pub open spec fn list_at(self, k: Seq<char>) -> Option<Seq<Seq<u8>>> {
        match key_find(self.lists@, k) {
            Option::Some(q) => Option::Some(list_views(q@)),
            Option::None => Option::None,
        }
    }

    /// An empty namespace.
    pub fn new() -> (r: Namespace)
        ensures
            r.wf(),
            r.entries@.len() == 0,
            r.lists@.len() == 0,
            forall|k: Seq<char>| r.entry_at(k) == Option::<Seq<u8>>::None,
            forall|k: Seq<char>| r.list_at(k) == Option::<Seq<Seq<u8>>>::None,
    {
        Namespace { entries: Vec::new(), lists: Vec::new() }
    }

    /// Index of the pair holding `key` among the string entries.
    fn entry_index(&self, key: &String) -> (r: Option<usize>)
        ensures
            match r {
                Some(i) => i < self.entries@.len() && self.entries@[i as int].0@ == key@,
                None => forall|i: int| 0 <= i < self.entries@.len() ==> self.entries@[i].0@
                    != key@,
            },
    {
        let mut i: usize = 0;
        while i < self.entries.len()
            invariant
                0 <= i <= self.entries@.len(),
                forall|j: int| 0 <= j < i ==> self.entries@[j].0@ != key@,
            decreases self.entries@.len() - i,
        {
            if self.entries[i].0 == *key {
                return Some(i);
            }
            i = i + 1;
        }
        None
    }

    /// Index of the pair holding `key` among the lists.
    fn list_index(&self, key: &String) -> (r: Option<usize>)
        ensures
            match r {
                Some(i) => i < self.lists@.len() && self.lists@[i as int].0@ == key@,
                None => forall|i: int| 0 <= i < self.lists@.len() ==> self.lists@[i].0@ != key@,
            },
    {
        let mut i: usize = 0;
        while i < self.lists.len()
            invariant
                0 <= i <= self.lists@.len(),
                forall|j: int| 0 <= j < i ==> self.lists@[j].0@ != key@,
            decreases self.lists@.len() - i,
        {
            if self.lists[i].0 == *key {
                return Some(i);
            }
            i = i + 1;
        }
        None
    }

    /// The value stored under `key`, copied out.
    pub fn get(&self, key: &String) -> (r: Option<Vec<u8>>)
        requires
            self.wf(),
        ensures
            match r {
                Some(v) => self.entry_at(key@) == Option::Some(v@),
                None => self.entry_at(key@) == Option::<Seq<u8>>::None,
            },
    {
        match self.entry_index(key) {
            Some(i) => {
                proof {
                    lemma_key_find_at(self.entries@, key@, i as int);
                }
                let v = vstd::slice::slice_to_vec(self.entries[i].1.data.as_slice());
                Some(v)
            },
            None => {
                proof {
                    lemma_key_find_none(self.entries@, key@);
                }
                None
            },
        }
    }

    /// Is a string entry stored under `key`? This answers the EXISTS verb;
    /// the name `exists` itself is a quantifier keyword here.
    pub fn has_entry(&self, key: &String) -> (r: bool)
        requires
            self.wf(),
        ensures
            r == (self.entry_at(key@) is Some),
    {
        match self.entry_index(key) {
            Some(i) => {
                proof {
                    lemma_key_find_at(self.entries@, key@, i as int);
                }
                true
            },
            None => {
                proof {
                    lemma_key_find_none(self.entries@, key@);
                }
                false
            },
        }
    }

    /// Store `value` under `key`, replacing any earlier string entry. Lists
    /// are not consulted: a key may shadow a list, as the protocol allows.
    pub fn set(&mut self, key: String, value: Vec<u8>)
        requires
            old(self).wf(),
        ensures
            final(self).wf(),
            final(self).entry_at(key@) == Option::Some(value@),
            forall|k2: Seq<char>| k2 != key@ ==> final(self).entry_at(k2) == old(self).entry_at(
                k2,
            ),
            final(self).lists == old(self).lists,
    {
        let ghost s0 = self.entries@;
        match self.entry_index(&key) {
            Some(i) => {
                let ghost ik = key@;
                self.entries[i] = (key, Entry { data: value });
                proof {
                    let s1 = self.entries@;
                    assert(s1 == s0.update(i as int, s1[i as int]));
                    assert(s1[i as int].0@ == ik);
                    assert forall|a: int, b: int| 0 <= a < b < s1.len() implies s1[a].0@
                        != s1[b].0@ by {
                        assert(s0[a].0@ != s0[b].0@);
                    }
                    lemma_key_find_at(s1, ik, i as int);
                    assert forall|k2: Seq<char>| k2 != ik implies final(self).entry_at(k2) == old(
                        self,
                    ).entry_at(k2) by {
                        lemma_key_find_inv(s0, k2);
                        match key_find(s0, k2) {
                            Option::Some(v) => {
                                let j = choose|j: int|
                                    0 <= j < s0.len() && s0[j].0@ == k2 && s0[j].1 == v;
                                assert(j != i);
                                assert(s1[j] == s0[j]);
                                lemma_key_find_at(s1, k2, j);
                            },
                            Option::None => {
                                lemma_key_find_none(s1, k2);
                            },
                        }
                    }
                }
            },
            None => {
                let ghost ik = key@;
                self.entries.push((key, Entry { data: value }));
                proof {
                    let s1 = self.entries@;
                    assert(s1 == s0.push(s1.last()));
                    assert(s1.last().0@ == ik);
                    assert forall|a: int, b: int| 0 <= a < b < s1.len() implies s1[a].0@
                        != s1[b].0@ by {
                        if b < s1.len() - 1 {
                            assert(s0[a].0@ != s0[b].0@);
                        } else {
                            assert(s0[a].0@ != ik);
                        }
                    }
                    lemma_key_find_at(s1, ik, s1.len() - 1);
                    assert forall|k2: Seq<char>| k2 != ik implies final(self).entry_at(k2) == old(
                        self,
                    ).entry_at(k2) by {
                        lemma_key_find_inv(s0, k2);
                        match key_find(s0, k2) {
                            Option::Some(v) => {
                                let j = choose|j: int|
                                    0 <= j < s0.len() && s0[j].0@ == k2 && s0[j].1 == v;
                                assert(s1[j] == s0[j]);
                                lemma_key_find_at(s1, k2, j);
                            },
                            Option::None => {
                                lemma_key_find_none(s1, k2);
                            },
                        }
                    }
                }
            },
        }
    }
    /// Append (`back`) or prepend (`front`) `value` to the list under `key`,
    /// creating the list if the key is fresh. A key that already holds a
    /// string entry is refused: the wrong-type rule of the push verbs.
    pub fn push_list(&mut self, key: String, value: Vec<u8>, back: bool) -> (r: Result<
        usize,
        &'static str,
    >)
        requires
            old(self).wf(),
        ensures
            final(self).wf(),
            final(self).entries == old(self).entries,
            r is Err <==> old(self).entry_at(key@) is Some,
            r is Err ==> *final(self) == *old(self),
            r matches Ok(n) ==> ({
                let oldl = match old(self).list_at(key@) {
                    Option::Some(l) => l,
                    Option::None => Seq::empty(),
                };
                let newl = if back {
                    oldl.push(value@)
                } else {
                    seq![value@] + oldl
                };
                &&& final(self).list_at(key@) == Option::Some(newl)
                &&& n == newl.len()
                &&& forall|k2: Seq<char>|
                    k2 != key@ ==> final(self).list_at(k2) == old(self).list_at(k2)
            }),
    {
        if let Some(i) = self.entry_index(&key) {
            proof {
                lemma_key_find_at(self.entries@, key@, i as int);
            }
            return Err("key holds a different type");
        }
        proof {
            lemma_key_find_none(self.entries@, key@);
        }
        let ghost ik = key@;
        let ghost s0 = self.lists@;
        match self.list_index(&key) {
            Some(qi) => {
                proof {
                    lemma_key_find_at(s0, ik, qi as int);
                }
                let mut pair = self.lists.remove(qi);
                let ghost q0 = pair.1@;
                if back {
                    pair.1.push_back(value);
                } else {
                    pair.1.push_front(value);
                }
                let n = pair.1.len();
                self.lists.insert(qi, pair);
                proof {
                    let s1 = self.lists@;
                    assert(s1 =~= s0.update(qi as int, s1[qi as int]));
                    assert(s1[qi as int].0@ == ik);
                    let q1 = s1[qi as int].1@;
                    if back {
                        assert(list_views(q1) =~= list_views(q0).push(value@));
                    } else {
                        assert(list_views(q1) =~= seq![value@] + list_views(q0));
                    }
                    assert forall|a: int, b: int| 0 <= a < b < s1.len() implies s1[a].0@
                        != s1[b].0@ by {
                        assert(s0[a].0@ != s0[b].0@);
                    }
                    lemma_key_find_at(s1, ik, qi as int);
                    assert forall|k2: Seq<char>| k2 != ik implies final(self).list_at(k2) == old(
                        self,
                    ).list_at(k2) by {
                        lemma_key_find_inv(s0, k2);
                        match key_find(s0, k2) {
                            Option::Some(v) => {
                                let j = choose|j: int|
                                    0 <= j < s0.len() && s0[j].0@ == k2 && s0[j].1 == v;
                                assert(j != qi);
                                assert(s1[j] == s0[j]);
                                lemma_key_find_at(s1, k2, j);
                            },
                            Option::None => {
                                lemma_key_find_none(s1, k2);
                            },
                        }
                    }
                }
                Ok(n)
            },
            None => {
                proof {
                    lemma_key_find_none(s0, ik);
                }
                let mut q: VecDeque<Vec<u8>> = VecDeque::new();
                if back {
                    q.push_back(value);
                } else {
                    q.push_front(value);
                }
                let n = q.len();
                self.lists.push((key, q));
                proof {
                    let s1 = self.lists@;
                    assert(s1 == s0.push(s1.last()));
                    assert(s1.last().0@ == ik);
                    let q1 = s1.last().1@;
                    if back {
                        assert(list_views(q1) =~= Seq::<Seq<u8>>::empty().push(value@));
                    } else {
                        assert(list_views(q1) =~= seq![value@] + Seq::<Seq<u8>>::empty());
                    }
                    assert(seq![value@] + Seq::<Seq<u8>>::empty() =~= Seq::<
                        Seq<u8>,
                    >::empty().push(value@));
                    assert forall|a: int, b: int| 0 <= a < b < s1.len() implies s1[a].0@
                        != s1[b].0@ by {
                        if b < s1.len() - 1 {
                            assert(s0[a].0@ != s0[b].0@);
                        } else {
                            assert(s0[a].0@ != ik);
                        }
                    }
                    lemma_key_find_at(s1, ik, s1.len() - 1);
                    assert forall|k2: Seq<char>| k2 != ik implies final(self).list_at(k2) == old(
                        self,
                    ).list_at(k2) by {
                        lemma_key_find_inv(s0, k2);
                        match key_find(s0, k2) {
                            Option::Some(v) => {
                                let j = choose|j: int|
                                    0 <= j < s0.len() && s0[j].0@ == k2 && s0[j].1 == v;
                                assert(s1[j] == s0[j]);
                                lemma_key_find_at(s1, k2, j);
                            },
                            Option::None => {
                                lemma_key_find_none(s1, k2);
                            },
                        }
                    }
                }
                Ok(n)
            },
        }
    }

    /// Remove and return one element from the list under `key`: the tail
    /// element if `back`, the head element otherwise.
    pub fn pop_list(&mut self, key: &String, back: bool) -> (r: Option<Vec<u8>>)
        requires
            old(self).wf(),
        ensures
            final(self).wf(),
            final(self).entries == old(self).entries,
            r is None ==> *final(self) == *old(self) && (match old(self).list_at(key@) {
                Option::Some(l) => l.len() == 0,
                Option::None => true,
            }),
            r matches Some(v) ==> ({
                &&& old(self).list_at(key@) matches Option::Some(l) && l.len() > 0 && v@ == (
                if back {
                    l.last()
                } else {
                    l[0]
                }) && final(self).list_at(key@) == Option::Some(
                    if back {
                        l.drop_last()
                    } else {
                        l.drop_first()
                    },
                )
                &&& forall|k2: Seq<char>|
                    k2 != key@ ==> final(self).list_at(k2) == old(self).list_at(k2)
            }),
    {
        let ghost s0 = self.lists@;
        match self.list_index(key) {
            Some(qi) => {
                proof {
                    lemma_key_find_at(s0, key@, qi as int);
                }
                if self.lists[qi].1.len() == 0 {
                    return None;
                }
                let mut pair = self.lists.remove(qi);
                let ghost q0 = pair.1@;
                let popped = if back {
                    pair.1.pop_back()
                } else {
                    pair.1.pop_front()
                };
                self.lists.insert(qi, pair);
                proof {
                    let s1 = self.lists@;
                    assert(s1 =~= s0.update(qi as int, s1[qi as int]));
                    assert(s1[qi as int].0@ == key@);
                    let q1 = s1[qi as int].1@;
                    let l = list_views(q0);
                    if back {
                        assert(list_views(q1) =~= l.drop_last());
                        assert(popped->0@ == l.last());
                    } else {
                        assert(list_views(q1) =~= l.drop_first());
                        assert(popped->0@ == l[0]);
                    }
                    assert forall|a: int, b: int| 0 <= a < b < s1.len() implies s1[a].0@
                        != s1[b].0@ by {
                        assert(s0[a].0@ != s0[b].0@);
                    }
                    lemma_key_find_at(s1, key@, qi as int);
                    assert forall|k2: Seq<char>| k2 != key@ implies final(self).list_at(k2)
                        == old(self).list_at(k2) by {
                        lemma_key_find_inv(s0, k2);
                        match key_find(s0, k2) {
                            Option::Some(v) => {
                                let j = choose|j: int|
                                    0 <= j < s0.len() && s0[j].0@ == k2 && s0[j].1 == v;
                                assert(j != qi);
                                assert(s1[j] == s0[j]);
                                lemma_key_find_at(s1, k2, j);
                            },
                            Option::None => {
                                lemma_key_find_none(s1, k2);
                            },
                        }
                    }
                }
                popped
            },
            None => {
                proof {
                    lemma_key_find_none(s0, key@);
                }
                None
            },
        }
    }

    /// Scan the given keys in listed order and pop one element from the
    /// first list that has data: the tail element if `back`, the head
    /// element otherwise. Nothing changes when no key has data.
    #[verifier::loop_isolation(false)]
    pub fn pop_scan(&mut self, keys: &Vec<String>, back: bool) -> (r: Option<(String, Vec<u8>)>)
        requires
            old(self).wf(),
        ensures
            final(self).wf(),
            ({
                let ks = key_views(keys@);
                match r {
                    None => first_with_data(*old(self), ks) is None && *final(self) == *old(
                        self,
                    ),
                    Some((k, v)) => {
                        &&& first_with_data(*old(self), ks) matches Option::Some(i) && k@
                            == ks[i]
                        &&& old(self).list_at(k@) matches Option::Some(l) && l.len() > 0 && v@
                            == (if back {
                            l.last()
                        } else {
                            l[0]
                        }) && final(self).list_at(k@) == Option::Some(
                            if back {
                                l.drop_last()
                            } else {
                                l.drop_first()
                            },
                        )
                        &&& forall|k2: Seq<char>|
                            k2 != k@ ==> final(self).list_at(k2) == old(self).list_at(k2)
                        &&& final(self).entries == old(self).entries
                    },
                }
            }),
    {
        let ghost ks = key_views(keys@);
        let ghost ns0 = *self;
        let mut found: Option<(String, Vec<u8>)> = None;
        let mut i: usize = 0;
        while i < keys.len() && found.is_none()
            invariant
                0 <= i <= keys@.len(),
                self.wf(),
                found is None ==> *self == ns0 && forall|j: int|
                    0 <= j < i ==> !has_data(ns0, ks[j]),
                found matches Some((k, v)) ==> ({
                    &&& 0 < i <= ks.len()
                    &&& first_with_data(ns0, ks) == Option::Some(i - 1)
                    &&& k@ == ks[i - 1]
                    &&& ns0.list_at(k@) matches Option::Some(l) && l.len() > 0 && v@ == (
                    if back {
                        l.last()
                    } else {
                        l[0]
                    }) && self.list_at(k@) == Option::Some(
                        if back {
                            l.drop_last()
                        } else {
                            l.drop_first()
                        },
                    )
                    &&& forall|k2: Seq<char>| k2 != k@ ==> self.list_at(k2) == ns0.list_at(k2)
                    &&& self.entries == ns0.entries
                }),
            decreases keys@.len() - i,
        {
            proof {
                assert(ks[i as int] == keys@[i as int]@);
            }
            match self.pop_list(&keys[i], back) {
                Some(v) => {
                    proof {
                        lemma_first_with_data_at(ns0, ks, i as int);
                    }
                    let k = keys[i].clone();
                    found = Some((k, v));
                },
                None => (),
            }
            i = i + 1;
        }
        proof {
            if found is None {
                assert forall|j: int| 0 <= j < ks.len() implies !has_data(ns0, ks[j]) by {}
                lemma_first_with_data_none(ns0, ks);
            }
        }
        found
    }
}

// ---------------------------------------------------------------------------
// The whole store
// ---------------------------------------------------------------------------

/// Views of the keys of a scan list, in order.
pub open spec fn key_views(keys: Seq<String>) -> Seq<Seq<char>> {
    keys.map_values(|s: String| s@)
}

/// Does the namespace hold a non-empty list under `k`?
pub open spec fn has_data(ns: Namespace, k: Seq<char>) -> bool {
    match ns.list_at(k) {
        Option::Some(l) => l.len() > 0,
        Option::None => false,
    }
}

/// Index of the first key, in listed order, whose list has data.
pub open spec fn first_with_data(ns: Namespace, ks: Seq<Seq<char>>) -> Option<int>
    decreases ks.len(),
{
    if ks.len() == 0 {
        Option::None
    } else if has_data(ns, ks[0]) {
        Option::Some(0)
    } else {
        match first_with_data(ns, ks.drop_first()) {
            Option::Some(i) => Option::Some(i + 1),
            Option::None => Option::None,
        }
    }
}

/// The first key with data is the one a left-to-right scan stops at.
pub proof fn lemma_first_with_data_at(ns: Namespace, ks: Seq<Seq<char>>, i: int)
    requires
        0 <= i < ks.len(),
        forall|j: int| 0 <= j < i ==> !has_data(ns, ks[j]),
        has_data(ns, ks[i]),
    ensures
        first_with_data(ns, ks) == Option::Some(i),
    decreases ks.len(),
{
    if i > 0 {
        let r = ks.drop_first();
        assert(forall|j: int| 0 <= j < r.len() ==> r[j] == ks[j + 1]);
        lemma_first_with_data_at(ns, r, i - 1);
    }
}

/// A scan over keys none of which has data finds nothing.
pub proof fn lemma_first_with_data_none(ns: Namespace, ks: Seq<Seq<char>>)
    requires
        forall|j: int| 0 <= j < ks.len() ==> !has_data(ns, ks[j]),
    ensures
        first_with_data(ns, ks) == Option::<int>::None,
    decreases ks.len(),
{
    if ks.len() > 0 {
        let r = ks.drop_first();
        assert(forall|j: int| 0 <= j < r.len() ==> r[j] == ks[j + 1]);
        lemma_first_with_data_none(ns, r);
    }
}

/// The store: sixteen independently kept namespaces and the index of the one
/// currently selected. The index is process-wide state, not per-connection:
/// every connection's SELECT moves it for all others too.
pub struct Db {
    pub namespaces: Vec<Namespace>,
    pub current: usize,
}

impl Db {
    /// Sixteen well-formed namespaces and an index within bounds.
    pub open spec fn wf(self) -> bool {
        &&& self.namespaces@.len() == 16
        &&& self.current < 16
        &&& forall|i: int| 0 <= i < 16 ==> self.namespaces@[i].wf()
    }

    /// The namespace at shard index `i`.
    pub open spec fn ns(self, i: int) -> Namespace {
        self.namespaces@[i]
    }

    /// The index of the currently selected namespace.
    pub open spec fn cur(self) -> int {
        self.current as int
    }

    /// A fresh store: sixteen empty namespaces, namespace 0 selected.
    pub fn new() -> (r: Db)
        ensures
            r.wf(),
            r.cur() == 0,
            forall|i: int, k: Seq<char>|
                0 <= i < 16 ==> r.ns(i).entry_at(k) == Option::<Seq<u8>>::None,
            forall|i: int, k: Seq<char>|
                0 <= i < 16 ==> r.ns(i).list_at(k) == Option::<Seq<Seq<u8>>>::None,
    {
        let mut namespaces: Vec<Namespace> = Vec::new();
        let mut i: usize = 0;
        while i < 16
            invariant
                0 <= i <= 16,
                namespaces@.len() == i,
                forall|j: int| 0 <= j < i ==> namespaces@[j].wf(),
                forall|j: int, k: Seq<char>|
                    0 <= j < i ==> namespaces@[j].entry_at(k) == Option::<Seq<u8>>::None,
                forall|j: int, k: Seq<char>|
                    0 <= j < i ==> namespaces@[j].list_at(k) == Option::<Seq<Seq<u8>>>::None,
            decreases 16 - i,
        {
            namespaces.push(Namespace::new());
            i = i + 1;
        }
        Db { namespaces, current: 0 }
    }

    /// Select the namespace all subsequent commands operate on. Only indices
    /// 0 through 15 exist; any other index is refused and nothing changes.
    pub fn select_namespace(&mut self, index: usize) -> (r: Result<(), &'static str>)
        requires
            old(self).wf(),
        ensures
            final(self).wf(),
            r is Ok <==> index < 16,
            final(self).namespaces == old(self).namespaces,
            r is Ok ==> final(self).cur() == index,
            r is Err ==> *final(self) == *old(self),
    {
        if index < 16 {
            self.current = index;
            Ok(())
        } else {
            Err("namespace index out of range")
        }
    }

    /// The value stored under `key` in the current namespace.
    pub fn get(&self, key: &String) -> (r: Option<Vec<u8>>)
        requires
            self.wf(),
        ensures
            match r {
                Some(v) => self.ns(self.cur()).entry_at(key@) == Option::Some(v@),
                None => self.ns(self.cur()).entry_at(key@) == Option::<Seq<u8>>::None,
            },
    {
        self.namespaces[self.current].get(key)
    }

    /// Is a string entry stored under `key` in the current namespace?
    pub fn has_entry(&self, key: &String) -> (r: bool)
        requires
            self.wf(),
        ensures
            r == (self.ns(self.cur()).entry_at(key@) is Some),
    {
        self.namespaces[self.current].has_entry(key)
    }

    /// Store `value` under `key` in the current namespace, replacing any
    /// earlier string entry.
    pub fn set(&mut self, key: String, value: Vec<u8>)
        requires
            old(self).wf(),
        ensures
            final(self).wf(),
            final(self).cur() == old(self).cur(),
            forall|i: int|
                0 <= i < 16 && i != old(self).cur() ==> final(self).ns(i) == old(self).ns(i),
            final(self).ns(old(self).cur()).entry_at(key@) == Option::Some(value@),
            forall|k2: Seq<char>|
                k2 != key@ ==> final(self).ns(old(self).cur()).entry_at(k2) == old(self).ns(
                    old(self).cur(),
                ).entry_at(k2),
            final(self).ns(old(self).cur()).lists == old(self).ns(old(self).cur()).lists,
    {
        let cur = self.current;
        let mut ns = self.namespaces.remove(cur);
        ns.set(key, value);
        self.namespaces.insert(cur, ns);
        proof {
            assert(self.namespaces@ =~= old(self).namespaces@.update(
                cur as int,
                self.namespaces@[cur as int],
            ));
        }
    }

    /// Append to the tail of `key`'s list in the current namespace; refused
    /// if the key holds a string entry.
    pub fn rpush(&mut self, key: String, value: Vec<u8>) -> (r: Result<usize, &'static str>)
        requires
            old(self).wf(),
        ensures
            final(self).wf(),
            final(self).cur() == old(self).cur(),
            forall|i: int|
                0 <= i < 16 && i != old(self).cur() ==> final(self).ns(i) == old(self).ns(i),
            final(self).ns(old(self).cur()).entries == old(self).ns(old(self).cur()).entries,
            r is Err <==> old(self).ns(old(self).cur()).entry_at(key@) is Some,
            r is Err ==> final(self).ns(old(self).cur()) == old(self).ns(old(self).cur()),
            r matches Ok(n) ==> ({
                let oldl = match old(self).ns(old(self).cur()).list_at(key@) {
                    Option::Some(l) => l,
                    Option::None => Seq::empty(),
                };
                &&& final(self).ns(old(self).cur()).list_at(key@) == Option::Some(
                    oldl.push(value@),
                )
                &&& n == oldl.push(value@).len()
                &&& forall|k2: Seq<char>|
                    k2 != key@ ==> final(self).ns(old(self).cur()).list_at(k2) == old(self).ns(
                        old(self).cur(),
                    ).list_at(k2)
            }),
    {
        let cur = self.current;
        let mut ns = self.namespaces.remove(cur);
        let r = ns.push_list(key, value, true);
        self.namespaces.insert(cur, ns);
        proof {
            assert(self.namespaces@ =~= old(self).namespaces@.update(
                cur as int,
                self.namespaces@[cur as int],
            ));
        }
        r
    }

    /// Prepend to the head of `key`'s list in the current namespace; refused
    /// if the key holds a string entry.
    pub fn lpush(&mut self, key: String, value: Vec<u8>) -> (r: Result<usize, &'static str>)
        requires
            old(self).wf(),
        ensures
            final(self).wf(),
            final(self).cur() == old(self).cur(),
            forall|i: int|
                0 <= i < 16 && i != old(self).cur() ==> final(self).ns(i) == old(self).ns(i),
            final(self).ns(old(self).cur()).entries == old(self).ns(old(self).cur()).entries,
            r is Err <==> old(self).ns(old(self).cur()).entry_at(key@) is Some,
            r is Err ==> final(self).ns(old(self).cur()) == old(self).ns(old(self).cur()),
            r matches Ok(n) ==> ({
                let oldl = match old(self).ns(old(self).cur()).list_at(key@) {
                    Option::Some(l) => l,
                    Option::None => Seq::empty(),
                };
                &&& final(self).ns(old(self).cur()).list_at(key@) == Option::Some(
                    seq![value@] + oldl,
                )
                &&& n == (seq![value@] + oldl).len()
                &&& forall|k2: Seq<char>|
                    k2 != key@ ==> final(self).ns(old(self).cur()).list_at(k2) == old(self).ns(
                        old(self).cur(),
                    ).list_at(k2)
            }),
    {
        let cur = self.current;
        let mut ns = self.namespaces.remove(cur);
        let r = ns.push_list(key, value, false);
        self.namespaces.insert(cur, ns);
        proof {
            assert(self.namespaces@ =~= old(self).namespaces@.update(
                cur as int,
                self.namespaces@[cur as int],
            ));
        }
        r
    }

    /// One scan of the blocking-pop loop, from the head of each list: pop
    /// from the first key, in listed order, whose list has data. The timed
    /// wait of BLPOP is the caller's: it scans, sleeps, and scans again
    /// until its deadline.
    pub fn blpop(&mut self, keys: &Vec<String>) -> (r: Option<(String, Vec<u8>)>)
        requires
            old(self).wf(),
        ensures
            final(self).wf(),
            final(self).cur() == old(self).cur(),
            forall|i: int|
                0 <= i < 16 && i != old(self).cur() ==> final(self).ns(i) == old(self).ns(i),
            ({
                let ks = key_views(keys@);
                let ns0 = old(self).ns(old(self).cur());
                let ns1 = final(self).ns(old(self).cur());
                match r {
                    None => first_with_data(ns0, ks) is None && ns1 == ns0,
                    Some((k, v)) => {
                        &&& first_with_data(ns0, ks) matches Option::Some(i) && k@ == ks[i]
                        &&& ns0.list_at(k@) matches Option::Some(l) && l.len() > 0 && v@ == l[0]
                            && ns1.list_at(k@) == Option::Some(l.drop_first())
                        &&& forall|k2: Seq<char>| k2 != k@ ==> ns1.list_at(k2) == ns0.list_at(k2)
                        &&& ns1.entries == ns0.entries
                    },
                }
            }),
    {
        self.pop_scan(keys, false)
    }

    /// One scan of the blocking-pop loop, from the tail of each list.
    pub fn brpop(&mut self, keys: &Vec<String>) -> (r: Option<(String, Vec<u8>)>)
        requires
            old(self).wf(),
        ensures
            final(self).wf(),
            final(self).cur() == old(self).cur(),
            forall|i: int|
                0 <= i < 16 && i != old(self).cur() ==> final(self).ns(i) == old(self).ns(i),
            ({
                let ks = key_views(keys@);
                let ns0 = old(self).ns(old(self).cur());
                let ns1 = final(self).ns(old(self).cur());
                match r {
                    None => first_with_data(ns0, ks) is None && ns1 == ns0,
                    Some((k, v)) => {
                        &&& first_with_data(ns0, ks) matches Option::Some(i) && k@ == ks[i]
                        &&& ns0.list_at(k@) matches Option::Some(l) && l.len() > 0 && v@
                            == l.last() && ns1.list_at(k@) == Option::Some(l.drop_last())
                        &&& forall|k2: Seq<char>| k2 != k@ ==> ns1.list_at(k2) == ns0.list_at(k2)
                        &&& ns1.entries == ns0.entries
                    },
                }
            }),
    {
        self.pop_scan(keys, true)
    }

    /// Scan the given keys in order against the current namespace and pop one
    /// element from the first list that has data.
    #[verifier::loop_isolation(false)]
    fn pop_scan(&mut self, keys: &Vec<String>, back: bool) -> (r: Option<(String, Vec<u8>)>)
        requires
            old(self).wf(),
        ensures
            final(self).wf(),
            final(self).cur() == old(self).cur(),
            forall|i: int|
                0 <= i < 16 && i != old(self).cur() ==> final(self).ns(i) == old(self).ns(i),
            ({
                let ks = key_views(keys@);
                let ns0 = old(self).ns(old(self).cur());
                let ns1 = final(self).ns(old(self).cur());
                match r {
                    None => first_with_data(ns0, ks) is None && ns1 == ns0,
                    Some((k, v)) => {
                        &&& first_with_data(ns0, ks) matches Option::Some(i) && k@ == ks[i]
                        &&& ns0.list_at(k@) matches Option::Some(l) && l.len() > 0 && v@ == (
                        if back {
                            l.last()
                        } else {
                            l[0]
                        }) && ns1.list_at(k@) == Option::Some(
                            if back {
                                l.drop_last()
                            } else {
                                l.drop_first()
                            },
                        )
                        &&& forall|k2: Seq<char>| k2 != k@ ==> ns1.list_at(k2) == ns0.list_at(k2)
                        &&& ns1.entries == ns0.entries
                    },
                }
            }),
    {
        let cur = self.current;
        let mut ns = self.namespaces.remove(cur);
        let r = ns.pop_scan(keys, back);
        self.namespaces.insert(cur, ns);
        proof {
            assert(self.namespaces@ =~= old(self).namespaces@.update(
                cur as int,
                self.namespaces@[cur as int],
            ));
        }
        r
    }
}

} // verus!
