//! A bounded cache of parsed templates, keyed by the profile and the
//! template's parts: lookups mark an entry as recently used, and a new entry
//! in a full cache pushes out the least recently used one. Only successful
//! parses are stored.
use std::collections::VecDeque;
use std::sync::Arc;
use vstd::prelude::*;

use crate::cursor::parse_error_at;
use crate::json::{
    document_view, json_code, json_document, json_profile_name, JsonDocumentNode, JsonProfile,
};
use crate::syntax::{stream_of, BackendError, TemplateInput};
use crate::text::{copy_str, str_eq};
use crate::toml_backend::{t_document_view, toml_profile_name, TomlDocumentNode, TomlProfile};
use crate::toml_grammar::{toml_code, toml_template};
use crate::toml_parser::parse_template_with_profile as parse_toml_with_profile;
use crate::json::parse_template_with_profile as parse_json_with_profile;

verus! {

broadcast use vstd::std_specs::vecdeque::group_vec_dequeue_axioms;

/// A cache key: a profile name and the parts of a template.
pub type CacheKey = (String, Vec<String>);

/// A cache key as a value.
pub type KeyView = (Seq<char>, Seq<Seq<char>>);

/// What a key is, as a value.
pub open spec fn key_view(k: CacheKey) -> KeyView {
    (k.0@, Seq::new(k.1@.len(), |i: int| k.1@[i]@))
}

/// Whether no element occurs twice.
pub open spec fn distinct<A>(s: Seq<A>) -> bool {
    forall|i: int, j: int| 0 <= i < j < s.len() ==> s[i] != s[j]
}

/// The keys of stored entries, in order.
pub open spec fn keys_of<T>(es: Seq<(KeyView, T)>) -> Seq<KeyView> {
    Seq::new(es.len(), |i: int| es[i].0)
}

/// The value stored under a key, if any (the last one stored under it).
pub open spec fn lookup<T>(es: Seq<(KeyView, T)>, kv: KeyView) -> Option<T>
    decreases es.len(),
{
    if es.len() == 0 {
        None
    } else if es.last().0 == kv {
        Some(es.last().1)
    } else {
        lookup(es.drop_last(), kv)
    }
}

/// The first position of an element, if it occurs.
pub open spec fn position_of<A>(s: Seq<A>, a: A) -> Option<int>
    decreases s.len(),
{
    if s.len() == 0 {
        None
    } else if s[0] == a {
        Some(0)
    } else {
        match position_of(s.drop_first(), a) {
            Some(k) => Some(k + 1),
            None => None,
        }
    }
}

/// The recency order after a key is used: it moves to the back.
pub open spec fn touched(order: Seq<KeyView>, kv: KeyView) -> Seq<KeyView> {
    match position_of(order, kv) {
        Some(i) => order.remove(i).push(kv),
        None => order.push(kv),
    }
}

/// A parse cache holding at most `capacity` entries (when `capacity` is not
/// zero).
pub struct ParseCache<T> {
    capacity: usize,
    entries: Vec<(CacheKey, Arc<T>)>,
    order: VecDeque<CacheKey>,
}

/// `Arc::clone` from std: another handle to the same value.
#[verifier::external_body]
fn share<T>(value: &Arc<T>) -> (r: Arc<T>)
    ensures
        r == *value,
{
    Arc::clone(value)
}

/// Whether two keys are equal, part by part.
fn key_eq(a: &CacheKey, b: &CacheKey) -> (r: bool)
    ensures
        r == (key_view(*a) == key_view(*b)),
{
    if !str_eq(a.0.as_str(), b.0.as_str()) {
        return false;
    }
    if a.1.len() != b.1.len() {
        assert(key_view(*a).1.len() != key_view(*b).1.len());
        return false;
    }
    let mut i: usize = 0;
    while i < a.1.len()
        invariant
            i <= a.1.len(),
            a.1.len() == b.1.len(),
            forall|j: int| 0 <= j < i ==> a.1@[j]@ == b.1@[j]@,
        decreases a.1.len() - i,
    {
        if !str_eq(a.1[i].as_str(), b.1[i].as_str()) {
            assert(key_view(*a).1[i as int] != key_view(*b).1[i as int]);
            return false;
        }
        i += 1;
    }
    assert(key_view(*a).1 =~= key_view(*b).1);
    true
}

/// A copy of a key.
fn clone_key(k: &CacheKey) -> (r: CacheKey)
    ensures
        key_view(r) == key_view(*k),
{
    let mut parts: Vec<String> = Vec::new();
    let mut i: usize = 0;
    while i < k.1.len()
        invariant
            i <= k.1.len(),
            parts.len() == i,
            forall|j: int| 0 <= j < i ==> parts@[j]@ == k.1@[j]@,
        decreases k.1.len() - i,
    {
        parts.push(copy_str(k.1[i].as_str()));
        i += 1;
    }
    let r = (copy_str(k.0.as_str()), parts);
    assert(key_view(r).1 =~= key_view(*k).1);
    r
}

proof fn lemma_lookup_some<T>(es: Seq<(KeyView, T)>, i: int)
    requires
        distinct(keys_of(es)),
        0 <= i < es.len(),
    ensures
        lookup(es, es[i].0) == Some(es[i].1),
    decreases es.len(),
{
    if i < es.len() - 1 {
        assert(keys_of(es)[i] != keys_of(es)[es.len() - 1]);
        assert(keys_of(es.drop_last()) =~= keys_of(es).drop_last());
        lemma_lookup_some(es.drop_last(), i);
    }
}

proof fn lemma_lookup_none<T>(es: Seq<(KeyView, T)>, kv: KeyView)
    requires
        !keys_of(es).contains(kv),
    ensures
        lookup(es, kv) is None,
    decreases es.len(),
{
    if es.len() > 0 {
        assert(keys_of(es)[es.len() - 1] == es.last().0);
        assert(keys_of(es.drop_last()) =~= keys_of(es).drop_last());
        lemma_lookup_none(es.drop_last(), kv);
    }
}

proof fn lemma_lookup_found<T>(es: Seq<(KeyView, T)>, kv: KeyView)
    ensures
        lookup(es, kv) is Some ==> keys_of(es).contains(kv),
    decreases es.len(),
{
    if es.len() > 0 {
        assert(keys_of(es.drop_last()) =~= keys_of(es).drop_last());
        lemma_lookup_found(es.drop_last(), kv);
        if lookup(es, kv) is Some {
            if es.last().0 == kv {
                assert(keys_of(es)[es.len() - 1] == kv);
            } else {
                let j = choose|j: int| 0 <= j < es.len() - 1 && keys_of(es.drop_last())[j] == kv;
                assert(keys_of(es)[j] == kv);
            }
        }
    }
}

proof fn lemma_lookup_update<T>(es: Seq<(KeyView, T)>, i: int, v: T, kv: KeyView)
    requires
        distinct(keys_of(es)),
        0 <= i < es.len(),
    ensures
        lookup(es.update(i, (es[i].0, v)), kv) == if kv == es[i].0 {
            Some(v)
        } else {
            lookup(es, kv)
        },
    decreases es.len(),
{
    let es2 = es.update(i, (es[i].0, v));
    if i < es.len() - 1 {
        assert(keys_of(es)[i] != keys_of(es)[es.len() - 1]);
        assert(keys_of(es.drop_last()) =~= keys_of(es).drop_last());
        assert(es2.drop_last() =~= es.drop_last().update(i, (es[i].0, v)));
        lemma_lookup_update(es.drop_last(), i, v, kv);
    } else {
        assert(es2.drop_last() =~= es.drop_last());
        if kv != es[i].0 {
        }
    }
}

proof fn lemma_lookup_remove<T>(es: Seq<(KeyView, T)>, i: int, kv: KeyView)
    requires
        distinct(keys_of(es)),
        0 <= i < es.len(),
    ensures
        lookup(es.remove(i), kv) == if kv == es[i].0 {
            None
        } else {
            lookup(es, kv)
        },
        distinct(keys_of(es.remove(i))),
    decreases es.len(),
{
    let es2 = es.remove(i);
    assert forall|a: int, b: int| 0 <= a < b < es2.len() implies keys_of(es2)[a] != keys_of(
        es2,
    )[b] by {
        let a0 = if a < i {
            a
        } else {
            a + 1
        };
        let b0 = if b < i {
            b
        } else {
            b + 1
        };
        assert(keys_of(es2)[a] == keys_of(es)[a0]);
        assert(keys_of(es2)[b] == keys_of(es)[b0]);
    }
    if i < es.len() - 1 {
        assert(keys_of(es)[i] != keys_of(es)[es.len() - 1]);
        assert(keys_of(es.drop_last()) =~= keys_of(es).drop_last());
        assert(es2.drop_last() =~= es.drop_last().remove(i));
        assert(es2.last() == es.last());
        lemma_lookup_remove(es.drop_last(), i, kv);
    } else {
        assert(es2 =~= es.drop_last());
        if kv == es[i].0 {
            assert forall|j: int| 0 <= j < es2.len() implies keys_of(es2)[j] != kv by {
                assert(keys_of(es)[j] != keys_of(es)[i]);
            }
            lemma_lookup_none(es2, kv);
        }
    }
}

proof fn lemma_position_of<A>(s: Seq<A>, a: A)
    ensures
        position_of(s, a) matches Some(i) ==> 0 <= i < s.len() && s[i] == a,
        position_of(s, a) is None ==> !s.contains(a),
    decreases s.len(),
{
    if s.len() > 0 && s[0] != a {
        lemma_position_of(s.drop_first(), a);
        if position_of(s, a) is None {
            assert forall|j: int| 0 <= j < s.len() implies s[j] != a by {
                if j > 0 {
                    assert(s[j] == s.drop_first()[j - 1]);
                }
            }
        }
    }
}

proof fn lemma_distinct_position<A>(s: Seq<A>, i: int)
    requires
        distinct(s),
        0 <= i < s.len(),
    ensures
        position_of(s, s[i]) == Some(i),
    decreases s.len(),
{
    if i > 0 {
        assert(s[0] != s[i]);
        assert(distinct(s.drop_first()));
        assert(s.drop_first()[i - 1] == s[i]);
        lemma_distinct_position(s.drop_first(), i - 1);
    }
}

proof fn lemma_touched_keeps(before: Seq<KeyView>, kv: KeyView)
    requires
        distinct(before),
    ensures
        distinct(touched(before, kv)),
        before.contains(kv) ==> touched(before, kv).len() == before.len(),
        !before.contains(kv) ==> touched(before, kv) == before.push(kv),
        forall|x: KeyView| #[trigger]
            touched(before, kv).contains(x) <==> (before.contains(x) || x == kv),
{
    lemma_position_of(before, kv);
    let after = touched(before, kv);
    match position_of(before, kv) {
        Some(p) => {
            let rem = before.remove(p);
            assert forall|a: int, b: int| 0 <= a < b < after.len() implies after[a] != after[b] by {
                let a0 = if a < p {
                    a
                } else {
                    a + 1
                };
                assert(after[a] == before[a0]);
                if b == after.len() - 1 {
                    assert(before[a0] != before[p]);
                } else {
                    let b0 = if b < p {
                        b
                    } else {
                        b + 1
                    };
                    assert(after[b] == before[b0]);
                }
            }
            assert forall|x: KeyView| #[trigger] after.contains(x) <==> (before.contains(x) || x == kv) by {
                if after.contains(x) {
                    let j = choose|j: int| 0 <= j < after.len() && after[j] == x;
                    if j < after.len() - 1 {
                        let j0 = if j < p {
                            j
                        } else {
                            j + 1
                        };
                        assert(before[j0] == x);
                    }
                }
                if before.contains(x) {
                    let j = choose|j: int| 0 <= j < before.len() && before[j] == x;
                    if j == p {
                        assert(after[after.len() - 1] == x);
                    } else {
                        let j1 = if j < p {
                            j
                        } else {
                            j - 1
                        };
                        assert(after[j1] == x);
                    }
                }
                if x == kv {
                    assert(after[after.len() - 1] == x);
                }
            }
        },
        None => {
            assert forall|a: int, b: int| 0 <= a < b < after.len() implies after[a] != after[b] by {
                if b == after.len() - 1 {
                    assert(after[a] == before[a]);
                }
            }
            assert forall|x: KeyView| #[trigger] after.contains(x) <==> (before.contains(x) || x == kv) by {
                if after.contains(x) {
                    let j = choose|j: int| 0 <= j < after.len() && after[j] == x;
                    if j < after.len() - 1 {
                        assert(before[j] == x);
                    }
                }
                if before.contains(x) {
                    let j = choose|j: int| 0 <= j < before.len() && before[j] == x;
                    assert(after[j] == x);
                }
                if x == kv {
                    assert(after[after.len() - 1] == x);
                }
            }
        },
    }
}

impl<T> ParseCache<T> {
    /// The most entries the cache keeps (none when zero).
    pub closed spec fn cap(&self) -> nat {
        self.capacity as nat
    }

    /// The stored entries, as key values and values, in the order stored.
    pub closed spec fn stored(&self) -> Seq<(KeyView, T)> {
        Seq::new(self.entries@.len(), |i: int| (key_view(self.entries@[i].0), *self.entries@[i].1))
    }

    /// The stored keys from the least to the most recently used.
    pub closed spec fn recency(&self) -> Seq<KeyView> {
        Seq::new(self.order@.len(), |i: int| key_view(self.order@[i]))
    }

    /// The cache is consistent: no key is stored twice, the recency order
    /// holds each stored key once, and a nonzero capacity bounds the entries.
    pub closed spec fn wf(&self) -> bool {
        &&& distinct(keys_of(self.stored()))
        &&& distinct(self.recency())
        &&& self.recency().len() == self.stored().len()
        &&& forall|kv: KeyView| self.recency().contains(kv) <==> keys_of(self.stored()).contains(kv)
        &&& self.capacity > 0 ==> self.entries.len() <= self.capacity
    }

    /// An empty cache with the given capacity.
    pub fn new(capacity: usize) -> (r: Self)
        ensures
            r.wf(),
            r.cap() == capacity,
            r.stored() == Seq::<(KeyView, T)>::empty(),
            r.recency() == Seq::<KeyView>::empty(),
    {
        let r = ParseCache { capacity, entries: Vec::new(), order: VecDeque::new() };
        assert(r.stored() =~= Seq::<(KeyView, T)>::empty());
        assert(r.recency() =~= Seq::<KeyView>::empty());
        r
    }

    /// The number of stored entries.
    pub fn len(&self) -> (r: usize)
        ensures
            r == self.stored().len(),
    {
        self.entries.len()
    }

    fn find_entry(&self, key: &CacheKey) -> (r: Option<usize>)
        ensures
            match r {
                Some(i) => i < self.stored().len() && self.stored()[i as int].0 == key_view(*key),
                None => !keys_of(self.stored()).contains(key_view(*key)),
            },
    {
        let mut i: usize = 0;
        while i < self.entries.len()
            invariant
                i <= self.entries.len(),
                forall|j: int| 0 <= j < i ==> self.stored()[j].0 != key_view(*key),
            decreases self.entries.len() - i,
        {
            if key_eq(&self.entries[i].0, key) {
                return Some(i);
            }
            i += 1;
        }
        assert forall|j: int| 0 <= j < self.stored().len() implies keys_of(self.stored())[j]
            != key_view(*key) by {}
        None
    }

    /// Moves a key to the back of the recency order.
    fn touch_key(&mut self, key: &CacheKey)
        requires
            distinct(old(self).recency()),
        ensures
            final(self).recency() == touched(old(self).recency(), key_view(*key)),
            final(self).entries == old(self).entries,
            final(self).capacity == old(self).capacity,
    {
        let ghost kv = key_view(*key);
        let ghost before = self.recency();
        let mut i: usize = 0;
        let mut found: Option<usize> = None;
        while i < self.order.len()
            invariant_except_break
                found is None,
            invariant
                i <= self.order@.len(),
                self.recency() == before,
                kv == key_view(*key),
                forall|j: int| 0 <= j < i ==> before[j] != kv,
            ensures
                self.recency() == before,
                match found {
                    Some(k) => k < before.len() && before[k as int] == kv && forall|j: int|
                        0 <= j < k ==> before[j] != kv,
                    None => forall|j: int| 0 <= j < before.len() ==> before[j] != kv,
                },
            decreases self.order@.len() - i,
        {
            assert(before[i as int] == key_view(self.order@[i as int]));
            if key_eq(&self.order[i], key) {
                found = Some(i);
                break;
            }
            i += 1;
        }
        proof {
            lemma_position_of(before, kv);
        }
        match found {
            Some(k) => {
                proof {
                    lemma_distinct_position(before, k as int);
                }
                let _ = self.order.remove(k);
                assert(self.recency() =~= before.remove(k as int));
            },
            None => {
                proof {
                    match position_of(before, kv) {
                        Some(p) => {
                            assert(before[p] == kv);
                        },
                        None => {},
                    }
                }
            },
        }
        let ghost mid = self.recency();
        self.order.push_back(clone_key(key));
        assert(self.recency() =~= mid.push(kv));
    }

    /// The value stored under a key, if any; a found key becomes the most
    /// recently used.
    pub fn get(&mut self, key: &CacheKey) -> (r: Option<Arc<T>>)
        requires
            old(self).wf(),
        ensures
            final(self).wf(),
            final(self).cap() == old(self).cap(),
            final(self).stored() == old(self).stored(),
            match lookup(old(self).stored(), key_view(*key)) {
                Some(v) => r matches Some(a) && *a == v && final(self).recency() == touched(
                    old(self).recency(),
                    key_view(*key),
                ),
                None => r is None && final(self).recency() == old(self).recency(),
            },
    {
        let ghost kv = key_view(*key);
        match self.find_entry(key) {
            Some(i) => {
                proof {
                    lemma_lookup_some(self.stored(), i as int);
                    lemma_position_of(self.recency(), kv);
                    assert(keys_of(self.stored())[i as int] == kv);
                    assert(self.recency().contains(kv));
                }
                let value = share(&self.entries[i].1);
                let ghost before = self.recency();
                self.touch_key(key);
                proof {
                    lemma_touched_keeps(before, kv);
                }
                Some(value)
            },
            None => {
                proof {
                    lemma_lookup_none(self.stored(), kv);
                }
                None
            },
        }
    }
}

proof fn lemma_drop_first_distinct(r: Seq<KeyView>)
    requires
        distinct(r),
        r.len() > 0,
    ensures
        distinct(r.drop_first()),
        forall|x: KeyView| #[trigger] r.drop_first().contains(x) <==> (r.contains(x) && x != r[0]),
{
    let d = r.drop_first();
    assert forall|a: int, b: int| 0 <= a < b < d.len() implies d[a] != d[b] by {
        assert(d[a] == r[a + 1]);
        assert(d[b] == r[b + 1]);
    }
    assert forall|x: KeyView| #[trigger] d.contains(x) <==> (r.contains(x) && x != r[0]) by {
        if d.contains(x) {
            let j = choose|j: int| 0 <= j < d.len() && d[j] == x;
            assert(r[j + 1] == x);
            assert(r[j + 1] != r[0]);
        }
        if r.contains(x) && x != r[0] {
            let j = choose|j: int| 0 <= j < r.len() && r[j] == x;
            assert(j > 0);
            assert(d[j - 1] == x);
        }
    }
}

impl<T> ParseCache<T> {
    fn remove_entry(&mut self, key: &CacheKey) -> (r: bool)
        requires
            distinct(keys_of(old(self).stored())),
        ensures
            r == keys_of(old(self).stored()).contains(key_view(*key)),
            final(self).order == old(self).order,
            final(self).capacity == old(self).capacity,
            distinct(keys_of(final(self).stored())),
            r ==> final(self).stored().len() == old(self).stored().len() - 1,
            !r ==> final(self).stored() == old(self).stored(),
            forall|x: KeyView| #[trigger]
                lookup(final(self).stored(), x) == if x == key_view(*key) {
                    None
                } else {
                    lookup(old(self).stored(), x)
                },
            forall|x: KeyView| #[trigger]
                keys_of(final(self).stored()).contains(x) <==> (keys_of(old(self).stored()).contains(
                    x,
                ) && x != key_view(*key)),
    {
        let ghost before = self.stored();
        let ghost kv = key_view(*key);
        match self.find_entry(key) {
            Some(i) => {
                self.entries.remove(i);
                proof {
                    assert(self.stored() =~= before.remove(i as int));
                    assert forall|x: KeyView| #[trigger] lookup(self.stored(), x) == if x == kv {
                        None
                    } else {
                        lookup(before, x)
                    } by {
                        lemma_lookup_remove(before, i as int, x);
                    }
                    lemma_lookup_remove(before, i as int, kv);
                    assert(keys_of(before)[i as int] == kv);
                    assert forall|x: KeyView| #[trigger] keys_of(self.stored()).contains(x) <==> (
                    keys_of(before).contains(x) && x != kv) by {
                        let after = self.stored();
                        if keys_of(after).contains(x) {
                            let j = choose|j: int| 0 <= j < after.len() && keys_of(after)[j] == x;
                            let j0 = if j < i {
                                j
                            } else {
                                j + 1
                            };
                            assert(keys_of(before)[j0] == x);
                            assert(keys_of(before)[j0] != keys_of(before)[i as int]);
                        }
                        if keys_of(before).contains(x) && x != kv {
                            let j = choose|j: int| 0 <= j < before.len() && keys_of(before)[j] == x;
                            let j1 = if j < i {
                                j
                            } else {
                                j - 1
                            };
                            assert(keys_of(after)[j1] == x);
                        }
                    }
                }
                true
            },
            None => {
                proof {
                    assert forall|x: KeyView| #[trigger] lookup(self.stored(), x) == if x == kv {
                        None
                    } else {
                        lookup(before, x)
                    } by {
                        if x == kv {
                            lemma_lookup_none(before, kv);
                        }
                    }
                }
                false
            },
        }
    }

    /// Stores a value under a key. A stored key gets the new value; a new key
    /// in a full cache first pushes out the least recently used entry. The key
    /// becomes the most recently used.
    fn insert(&mut self, key: CacheKey, value: Arc<T>)
        requires
            old(self).wf(),
        ensures
            final(self).wf(),
            final(self).cap() == old(self).cap(),
            lookup(final(self).stored(), key_view(key)) == Some(*value),
            match lookup(old(self).stored(), key_view(key)) {
                Some(_) => final(self).recency() == touched(old(self).recency(), key_view(key))
                    && final(self).stored().len() == old(self).stored().len()
                    && forall|x: KeyView|
                    x != key_view(key) ==> #[trigger] lookup(final(self).stored(), x) == lookup(
                        old(self).stored(),
                        x,
                    ),
                None => if old(self).cap() > 0 && old(self).stored().len() == old(self).cap() {
                    final(self).recency() == old(self).recency().drop_first().push(key_view(key))
                        && final(self).stored().len() == old(self).stored().len()
                        && forall|x: KeyView|
                        x != key_view(key) ==> #[trigger] lookup(final(self).stored(), x) == if x
                            == old(self).recency()[0] {
                            None
                        } else {
                            lookup(old(self).stored(), x)
                        }
                } else {
                    final(self).recency() == old(self).recency().push(key_view(key))
                        && final(self).stored().len() == old(self).stored().len() + 1 && forall|
                        x: KeyView,
                    |
                        x != key_view(key) ==> #[trigger] lookup(final(self).stored(), x) == lookup(
                            old(self).stored(),
                            x,
                        )
                },
            },
    {
        let ghost kv = key_view(key);
        let ghost e0 = self.stored();
        let ghost r0 = self.recency();
        match self.find_entry(&key) {
            Some(i) => {
                let k2 = clone_key(&key);
                self.entries.set(i, (key, value));
                proof {
                    assert(self.stored() =~= e0.update(i as int, (e0[i as int].0, *value)));
                    assert forall|x: KeyView| #[trigger] lookup(self.stored(), x) == if x == kv {
                        Some(*value)
                    } else {
                        lookup(e0, x)
                    } by {
                        lemma_lookup_update(e0, i as int, *value, x);
                    }
                    assert(keys_of(self.stored()) =~= keys_of(e0));
                    lemma_lookup_some(e0, i as int);
                    assert(keys_of(e0)[i as int] == kv);
                    lemma_touched_keeps(r0, kv);
                }
                self.touch_key(&k2);
                return ;
            },
            None => {},
        }
        proof {
            lemma_lookup_none(e0, kv);
        }
        if self.entries.len() == self.capacity {
            loop
                invariant_except_break
                    self.stored() == e0,
                    self.recency() == r0,
                invariant
                    distinct(keys_of(e0)),
                    distinct(r0),
                    r0.len() == e0.len(),
                    forall|x: KeyView| r0.contains(x) <==> keys_of(e0).contains(x),
                    self.capacity == old(self).capacity,
                    e0.len() == self.capacity,
                    kv == key_view(key),
                    !keys_of(e0).contains(kv),
                ensures
                    self.capacity == old(self).capacity,
                    distinct(keys_of(self.stored())),
                    !keys_of(self.stored()).contains(kv),
                    r0.len() == 0 ==> self.stored() == e0 && self.recency() == r0,
                    r0.len() > 0 ==> self.recency() == r0.drop_first() && self.stored().len()
                        == e0.len() - 1,
                    r0.len() > 0 ==> forall|x: KeyView| #[trigger]
                        lookup(self.stored(), x) == if x == r0[0] {
                            None
                        } else {
                            lookup(e0, x)
                        },
                    r0.len() > 0 ==> forall|x: KeyView| #[trigger]
                        keys_of(self.stored()).contains(x) <==> (keys_of(e0).contains(x) && x
                            != r0[0]),
                decreases self.order@.len(),
            {
                match self.order.pop_front() {
                    None => {
                        break;
                    },
                    Some(oldest) => {
                        assert(key_view(oldest) == r0[0]);
                        assert(r0.contains(r0[0]));
                        assert(self.recency() =~= r0.drop_first());
                        let removed = self.remove_entry(&oldest);
                        if removed {
                            break;
                        }
                    },
                }
            }
        }
        let ghost e1 = self.stored();
        let ghost r1 = self.recency();
        proof {
            if r0.len() > 0 && r1 == r0.drop_first() {
                lemma_drop_first_distinct(r0);
            }
            assert(distinct(r1));
            assert(forall|x: KeyView| r1.contains(x) <==> keys_of(e1).contains(x));
            assert(!r1.contains(kv));
        }
        self.order.push_back(clone_key(&key));
        self.entries.push((key, value));
        proof {
            assert(self.stored() =~= e1.push((kv, *value)));
            assert(self.recency() =~= r1.push(kv));
            assert(keys_of(self.stored()) =~= keys_of(e1).push(kv));
            assert forall|a: int, b: int| 0 <= a < b < self.recency().len() implies self.recency()[a]
                != self.recency()[b] by {
                if b == self.recency().len() - 1 {
                    assert(self.recency()[a] == r1[a]);
                    assert(r1.contains(r1[a]));
                }
            }
            assert forall|a: int, b: int| 0 <= a < b < keys_of(self.stored()).len() implies keys_of(
                self.stored(),
            )[a] != keys_of(self.stored())[b] by {
                if b == keys_of(self.stored()).len() - 1 {
                    assert(keys_of(self.stored())[a] == keys_of(e1)[a]);
                    assert(keys_of(e1).contains(keys_of(e1)[a]));
                }
            }
            assert forall|x: KeyView| self.recency().contains(x) <==> keys_of(self.stored()).contains(x) by {
                let rr = self.recency();
                let kk = keys_of(self.stored());
                if rr.contains(x) {
                    let j = choose|j: int| 0 <= j < rr.len() && rr[j] == x;
                    if j < r1.len() {
                        assert(r1[j] == x);
                        assert(r1.contains(x));
                        assert(keys_of(e1).contains(x));
                        let j2 = choose|j2: int| 0 <= j2 < keys_of(e1).len() && keys_of(e1)[j2] == x;
                        assert(kk[j2] == x);
                    } else {
                        assert(x == kv);
                        assert(kk[kk.len() - 1] == kv);
                    }
                }
                if kk.contains(x) {
                    let j = choose|j: int| 0 <= j < kk.len() && kk[j] == x;
                    if j < e1.len() {
                        assert(keys_of(e1)[j] == x);
                        assert(keys_of(e1).contains(x));
                        assert(r1.contains(x));
                        let j2 = choose|j2: int| 0 <= j2 < r1.len() && r1[j2] == x;
                        assert(rr[j2] == x);
                    } else {
                        assert(x == kv);
                        assert(rr[rr.len() - 1] == kv);
                    }
                }
            }
            assert(self.stored().drop_last() == e1);
            assert forall|x: KeyView| x != kv implies #[trigger] lookup(self.stored(), x) == lookup(
                e1,
                x,
            ) by {}
            assert(lookup(self.stored(), kv) == Some(*value));
        }
    }

    /// The value cached under a key; on a miss, the value `build` parses,
    /// which is stored only when the parse succeeds.
    pub fn get_or_try_insert_with<E, F: FnOnce() -> Result<T, E>>(
        &mut self,
        key: &CacheKey,
        build: F,
    ) -> (r: Result<Arc<T>, E>)
        requires
            old(self).wf(),
            build.requires(()),
        ensures
            final(self).wf(),
            final(self).cap() == old(self).cap(),
            match lookup(old(self).stored(), key_view(*key)) {
                Some(v) => r matches Ok(a) && *a == v && final(self).stored() == old(self).stored()
                    && final(self).recency() == touched(old(self).recency(), key_view(*key)),
                None => match r {
                    Err(e) => build.ensures((), Err(e)) && final(self).stored() == old(
                        self,
                    ).stored() && final(self).recency() == old(self).recency(),
                    Ok(a) => build.ensures((), Ok(*a)) && lookup(final(self).stored(), key_view(*key))
                        == Some(*a) && if old(self).cap() > 0 && old(self).stored().len() == old(
                        self,
                    ).cap() {
                        final(self).recency() == old(self).recency().drop_first().push(
                            key_view(*key),
                        ) && final(self).stored().len() == old(self).stored().len()
                            && forall|x: KeyView|
                            x != key_view(*key) ==> #[trigger] lookup(final(self).stored(), x)
                                == if x == old(self).recency()[0] {
                                None
                            } else {
                                lookup(old(self).stored(), x)
                            }
                    } else {
                        final(self).recency() == old(self).recency().push(key_view(*key))
                            && final(self).stored().len() == old(self).stored().len() + 1
                            && forall|
                            x: KeyView,
                        |
                            x != key_view(*key) ==> #[trigger] lookup(final(self).stored(), x)
                                == lookup(old(self).stored(), x)
                    },
                },
            },
    {
        if let Some(value) = self.get(key) {
            return Ok(value);
        }
        let built = match build() {
            Ok(t) => t,
            Err(e) => {
                return Err(e);
            },
        };
        let parsed = Arc::new(built);
        let key = clone_key(key);
        if let Some(value) = self.get(&key) {
            return Ok(value);
        }
        self.insert(key, share(&parsed));
        Ok(parsed)
    }
}

/// A cache with a nonzero capacity never holds more entries than that.
pub proof fn law_cache_stays_within_capacity<T>(cache: ParseCache<T>)
    requires
        cache.wf(),
        cache.cap() > 0,
    ensures
        cache.stored().len() <= cache.cap(),
{
}


// ---------------------------------------------------------------------------
// Cached parsing
// ---------------------------------------------------------------------------

/// The key of a profile name and the strings that identify a template.
pub open spec fn cache_key_of(profile: Seq<char>, strings: Seq<String>) -> KeyView {
    (profile, Seq::new(strings.len(), |i: int| strings[i]@))
}

/// The key a template's parse is cached under: the profile's name and the
/// strings that identify the template.
pub fn template_cache_key(profile: &str, strings: Vec<String>) -> (k: CacheKey)
    ensures
        key_view(k) == cache_key_of(profile@, strings@),
{
    (copy_str(profile), strings)
}

/// Parses a TOML template through a cache keyed by the profile's name and
/// `strings`: the cached document when there is one, else a fresh parse,
/// which is cached when it succeeds and reported when it fails.
pub fn parse_toml_template_cached(
    cache: &mut ParseCache<TomlDocumentNode>,
    template: &TemplateInput,
    strings: Vec<String>,
    profile: TomlProfile,
) -> (r: Result<Arc<TomlDocumentNode>, BackendError>)
    requires
        old(cache).wf(),
    ensures
        final(cache).wf(),
        final(cache).cap() == old(cache).cap(),
        match lookup(old(cache).stored(), cache_key_of(toml_profile_name(profile), strings@)) {
            Some(v) => r matches Ok(a) && *a == v && final(cache).stored() == old(cache).stored(),
            None => match toml_template(stream_of(template.segments@), profile) {
                Ok((d, _)) => r matches Ok(a) && t_document_view(*a) == d && lookup(
                    final(cache).stored(),
                    cache_key_of(toml_profile_name(profile), strings@),
                ) == Some(*a),
                Err((m, k)) => r matches Err(e) && parse_error_at(
                    e,
                    toml_code(),
                    m,
                    stream_of(template.segments@),
                    k,
                ) && final(cache).stored() == old(cache).stored(),
            },
        },
{
    let key = template_cache_key(profile.as_str(), strings);
    let build = || -> (res: Result<TomlDocumentNode, BackendError>)
        ensures
            match toml_template(stream_of(template.segments@), profile) {
                Ok((d, _)) => res matches Ok(n) && t_document_view(n) == d,
                Err((m, k)) => res matches Err(e) && parse_error_at(
                    e,
                    toml_code(),
                    m,
                    stream_of(template.segments@),
                    k,
                ),
            },
        { parse_toml_with_profile(template, profile) };
    cache.get_or_try_insert_with(&key, build)
}

/// Parses a JSON template through a cache keyed by the profile's name and
/// `strings`: the cached document when there is one, else a fresh parse,
/// which is cached when it succeeds and reported when it fails.
pub fn parse_json_template_cached(
    cache: &mut ParseCache<JsonDocumentNode>,
    template: &TemplateInput,
    strings: Vec<String>,
    profile: JsonProfile,
) -> (r: Result<Arc<JsonDocumentNode>, BackendError>)
    requires
        old(cache).wf(),
    ensures
        final(cache).wf(),
        final(cache).cap() == old(cache).cap(),
        match lookup(old(cache).stored(), cache_key_of(json_profile_name(profile), strings@)) {
            Some(v) => r matches Ok(a) && *a == v && final(cache).stored() == old(cache).stored(),
            None => match json_document(stream_of(template.segments@), 0) {
                Ok((d, _)) => r matches Ok(a) && document_view(*a) == d && lookup(
                    final(cache).stored(),
                    cache_key_of(json_profile_name(profile), strings@),
                ) == Some(*a),
                Err((m, k)) => r matches Err(e) && parse_error_at(
                    e,
                    json_code(),
                    m,
                    stream_of(template.segments@),
                    k,
                ) && final(cache).stored() == old(cache).stored(),
            },
        },
{
    let key = template_cache_key(profile.as_str(), strings);
    let build = || -> (res: Result<JsonDocumentNode, BackendError>)
        ensures
            match json_document(stream_of(template.segments@), 0) {
                Ok((d, _)) => res matches Ok(n) && document_view(n) == d,
                Err((m, k)) => res matches Err(e) && parse_error_at(
                    e,
                    json_code(),
                    m,
                    stream_of(template.segments@),
                    k,
                ),
            },
        { parse_json_with_profile(template, profile) };
    cache.get_or_try_insert_with(&key, build)
}

} // verus!
