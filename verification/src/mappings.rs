//! The key-to-action table of a layer: an association list kept in strictly
//! increasing key order, so that each key occurs once and the entries come
//! out in the order the configuration file lists them.
use vstd::prelude::*;

use crate::text::{
    chars_eq, chars_lt, chars_of, lemma_seq_lt_asymmetric, lemma_seq_lt_irreflexive,
    lemma_seq_lt_total, lemma_seq_lt_transitive, seq_lt,
};

verus! {

/// An entry as character sequences: key and value.
pub type EntryView = (Seq<char>, Seq<char>);

/// The views of stored entries.
pub open spec fn entry_views(v: Seq<(String, String)>) -> Seq<EntryView> {
    v.map_values(|e: (String, String)| (e.0@, e.1@))
}

/// Keys strictly increase along the sequence.
pub open spec fn keys_sorted(s: Seq<EntryView>) -> bool {
    forall|i: int, j: int| 0 <= i < j < s.len() ==> seq_lt(#[trigger] s[i].0, #[trigger] s[j].0)
}

/// The value stored under `k`, if any.
pub open spec fn assoc_get(s: Seq<EntryView>, k: Seq<char>) -> Option<Seq<char>>
    decreases s.len(),
{
    if s.len() == 0 {
        None
    } else if s[0].0 == k {
        Some(s[0].1)
    } else {
        assoc_get(s.drop_first(), k)
    }
}

/// Insert `(k, v)`, replacing the entry for `k` if there is one, else
/// placing it before the first greater key.
pub open spec fn assoc_insert(s: Seq<EntryView>, k: Seq<char>, v: Seq<char>) -> Seq<EntryView>
    decreases s.len(),
{
    if s.len() == 0 {
        seq![(k, v)]
    } else if s[0].0 == k {
        seq![(k, v)] + s.drop_first()
    } else if seq_lt(k, s[0].0) {
        seq![(k, v)] + s
    } else {
        seq![s[0]] + assoc_insert(s.drop_first(), k, v)
    }
}

/// Remove every entry for `k`.
pub open spec fn assoc_remove(s: Seq<EntryView>, k: Seq<char>) -> Seq<EntryView>
    decreases s.len(),
{
    if s.len() == 0 {
        s
    } else if s[0].0 == k {
        assoc_remove(s.drop_first(), k)
    } else {
        seq![s[0]] + assoc_remove(s.drop_first(), k)
    }
}

/// The keys of an association list.
pub open spec fn assoc_keys(s: Seq<EntryView>) -> Seq<Seq<char>> {
    s.map_values(|e: EntryView| e.0)
}

pub proof fn lemma_keys_sorted_drop_first(s: Seq<EntryView>)
    requires
        keys_sorted(s),
        s.len() > 0,
    ensures
        keys_sorted(s.drop_first()),
{
    assert forall|i: int, j: int| 0 <= i < j < s.drop_first().len() implies seq_lt(
        #[trigger] s.drop_first()[i].0,
        #[trigger] s.drop_first()[j].0,
    ) by {
        assert(s.drop_first()[i] == s[i + 1]);
        assert(s.drop_first()[j] == s[j + 1]);
    }
}

/// A key below every key of a sorted list is absent from it.
pub proof fn lemma_get_absent_below(s: Seq<EntryView>, k: Seq<char>)
    requires
        keys_sorted(s),
        s.len() > 0 ==> seq_lt(k, s[0].0),
    ensures
        assoc_get(s, k) is None,
    decreases s.len(),
{
    if s.len() > 0 {
        lemma_seq_lt_irreflexive(k);
        if s.len() > 1 {
            lemma_seq_lt_transitive(k, s[0].0, s[1].0);
            assert(s.drop_first()[0] == s[1]);
        }
        lemma_keys_sorted_drop_first(s);
        lemma_get_absent_below(s.drop_first(), k);
    }
}

/// Two sorted tables that give the same value under every key are the
/// same table.
pub proof fn lemma_sorted_tables_equal(s: Seq<EntryView>, t: Seq<EntryView>)
    requires
        keys_sorted(s),
        keys_sorted(t),
        forall|k: Seq<char>| #[trigger] assoc_get(s, k) == assoc_get(t, k),
    ensures
        s == t,
    decreases s.len(),
{
    if s.len() == 0 {
        if t.len() > 0 {
            lemma_get_at(t, 0);
            assert(assoc_get(s, t[0].0) is None);
        }
    } else if t.len() == 0 {
        lemma_get_at(s, 0);
        assert(assoc_get(t, s[0].0) is None);
    } else {
        let a = s[0].0;
        let b = t[0].0;
        lemma_get_at(s, 0);
        lemma_get_at(t, 0);
        lemma_seq_lt_total(a, b);
        if seq_lt(a, b) {
            lemma_get_absent_below(t, a);
            assert(assoc_get(s, a) == assoc_get(t, a));
        }
        if seq_lt(b, a) {
            lemma_get_absent_below(s, b);
            assert(assoc_get(s, b) == assoc_get(t, b));
        }
        assert(a == b);
        assert(assoc_get(s, a) == assoc_get(t, a));
        assert(s[0] == t[0]);
        let s1 = s.drop_first();
        let t1 = t.drop_first();
        lemma_keys_sorted_drop_first(s);
        lemma_keys_sorted_drop_first(t);
        assert forall|k: Seq<char>| #[trigger] assoc_get(s1, k) == assoc_get(t1, k) by {
            if k == a {
                if s1.len() > 0 {
                    assert(s1[0] == s[1]);
                }
                if t1.len() > 0 {
                    assert(t1[0] == t[1]);
                }
                lemma_get_absent_below(s1, k);
                lemma_get_absent_below(t1, k);
            } else {
                assert(assoc_get(s, k) == assoc_get(s1, k));
                assert(assoc_get(t, k) == assoc_get(t1, k));
            }
        }
        lemma_sorted_tables_equal(s1, t1);
        assert(s == seq![s[0]] + s1);
        assert(t == seq![t[0]] + t1);
    }
}

/// Where a key sorts into a list: every earlier key is smaller, the key
/// at the position (if any) is not.
pub open spec fn is_insert_pos(s: Seq<EntryView>, k: Seq<char>, p: int) -> bool {
    &&& 0 <= p <= s.len()
    &&& forall|j: int| 0 <= j < p ==> seq_lt(#[trigger] s[j].0, k)
    &&& p < s.len() ==> !seq_lt(s[p].0, k)
}

pub proof fn lemma_insert_at_pos(s: Seq<EntryView>, k: Seq<char>, v: Seq<char>, p: int)
    requires
        is_insert_pos(s, k, p),
    ensures
        p < s.len() && s[p].0 == k ==> assoc_insert(s, k, v) == s.update(p, (k, v)),
        !(p < s.len() && s[p].0 == k) ==> assoc_insert(s, k, v) == s.insert(p, (k, v)),
    decreases s.len(),
{
    if s.len() == 0 {
        assert(s.insert(0, (k, v)) == seq![(k, v)]);
    } else if p == 0 {
        lemma_seq_lt_total(s[0].0, k);
        if s[0].0 == k {
            assert(s.update(0, (k, v)) == seq![(k, v)] + s.drop_first());
        } else {
            assert(s.insert(0, (k, v)) == seq![(k, v)] + s);
        }
    } else {
        lemma_seq_lt_irreflexive(k);
        lemma_seq_lt_asymmetric(s[0].0, k);
        let t = s.drop_first();
        assert forall|j: int| 0 <= j < p - 1 implies seq_lt(#[trigger] t[j].0, k) by {
            assert(t[j] == s[j + 1]);
        }
        if p < s.len() {
            assert(t[p - 1] == s[p]);
        }
        lemma_insert_at_pos(t, k, v, p - 1);
        if p < s.len() && s[p].0 == k {
            assert(seq![s[0]] + t.update(p - 1, (k, v)) == s.update(p, (k, v)));
        } else {
            assert(seq![s[0]] + t.insert(p - 1, (k, v)) == s.insert(p, (k, v)));
        }
    }
}

/// Insertion keeps the keys sorted.
pub proof fn lemma_insert_sorted(s: Seq<EntryView>, k: Seq<char>, v: Seq<char>)
    requires
        keys_sorted(s),
    ensures
        keys_sorted(assoc_insert(s, k, v)),
        assoc_insert(s, k, v).len() > 0,
        s.len() > 0 ==> assoc_insert(s, k, v)[0].0 == s[0].0 || assoc_insert(s, k, v)[0].0 == k,
    decreases s.len(),
{
    if s.len() == 0 {
    } else if s[0].0 == k {
        let r = seq![(k, v)] + s.drop_first();
        assert forall|i: int, j: int| 0 <= i < j < r.len() implies seq_lt(
            #[trigger] r[i].0,
            #[trigger] r[j].0,
        ) by {
            if i == 0 {
                assert(r[j] == s[j]);
            } else {
                assert(r[i] == s[i]);
                assert(r[j] == s[j]);
            }
        }
    } else if seq_lt(k, s[0].0) {
        let r = seq![(k, v)] + s;
        assert forall|i: int, j: int| 0 <= i < j < r.len() implies seq_lt(
            #[trigger] r[i].0,
            #[trigger] r[j].0,
        ) by {
            if i == 0 {
                assert(r[j] == s[j - 1]);
                if j > 1 {
                    lemma_seq_lt_transitive(k, s[0].0, s[j - 1].0);
                }
            } else {
                assert(r[i] == s[i - 1]);
                assert(r[j] == s[j - 1]);
            }
        }
    } else {
        lemma_keys_sorted_drop_first(s);
        let t = s.drop_first();
        lemma_insert_sorted(t, k, v);
        let u = assoc_insert(t, k, v);
        let r = seq![s[0]] + u;
        lemma_seq_lt_total(k, s[0].0);
        assert forall|i: int, j: int| 0 <= i < j < r.len() implies seq_lt(
            #[trigger] r[i].0,
            #[trigger] r[j].0,
        ) by {
            if i == 0 {
                assert(r[j] == u[j - 1]);
                lemma_insert_members(t, k, v, j - 1);
                if u[j - 1].0 != k {
                    let m = choose|m: int| 0 <= m < t.len() && t[m].0 == u[j - 1].0;
                    assert(t[m] == s[m + 1]);
                }
            } else {
                assert(r[i] == u[i - 1]);
                assert(r[j] == u[j - 1]);
            }
        }
    }
}

/// Every key after insertion is the inserted key or an old key.
pub proof fn lemma_insert_members(s: Seq<EntryView>, k: Seq<char>, v: Seq<char>, i: int)
    requires
        0 <= i < assoc_insert(s, k, v).len(),
    ensures
        assoc_insert(s, k, v)[i].0 == k || exists|m: int|
            0 <= m < s.len() && s[m].0 == #[trigger] assoc_insert(s, k, v)[i].0,
    decreases s.len(),
{
    let r = assoc_insert(s, k, v);
    if s.len() == 0 {
    } else if s[0].0 == k {
        if i > 0 {
            assert(r[i] == s[i]);
        }
    } else if seq_lt(k, s[0].0) {
        if i > 0 {
            assert(r[i] == s[i - 1]);
        }
    } else {
        if i == 0 {
            assert(r[0] == s[0]);
        } else {
            let t = s.drop_first();
            assert(r[i] == assoc_insert(t, k, v)[i - 1]);
            lemma_insert_members(t, k, v, i - 1);
            if assoc_insert(t, k, v)[i - 1].0 != k {
                let m = choose|m: int|
                    0 <= m < t.len() && t[m].0 == #[trigger] assoc_insert(t, k, v)[i - 1].0;
                assert(t[m] == s[m + 1]);
            }
        }
    }
}

/// Inserting a key above every key appends it.
pub proof fn lemma_insert_above(s: Seq<EntryView>, k: Seq<char>, v: Seq<char>)
    requires
        forall|j: int| 0 <= j < s.len() ==> seq_lt(#[trigger] s[j].0, k),
    ensures
        assoc_insert(s, k, v) == s.push((k, v)),
{
    lemma_insert_at_pos(s, k, v, s.len() as int);
    assert(s.insert(s.len() as int, (k, v)) == s.push((k, v)));
}

/// Reading back a key just written gives the written value.
pub proof fn lemma_get_insert_same(s: Seq<EntryView>, k: Seq<char>, v: Seq<char>)
    ensures
        assoc_get(assoc_insert(s, k, v), k) == Some(v),
    decreases s.len(),
{
    if s.len() > 0 && s[0].0 != k && !seq_lt(k, s[0].0) {
        lemma_get_insert_same(s.drop_first(), k, v);
        assert((seq![s[0]] + assoc_insert(s.drop_first(), k, v)).drop_first() == assoc_insert(
            s.drop_first(),
            k,
            v,
        ));
    }
}

/// Writing one key leaves every other key's value unchanged.
pub proof fn lemma_get_insert_other(s: Seq<EntryView>, k: Seq<char>, v: Seq<char>, k2: Seq<char>)
    requires
        k2 != k,
    ensures
        assoc_get(assoc_insert(s, k, v), k2) == assoc_get(s, k2),
    decreases s.len(),
{
    if s.len() == 0 {
        assert(seq![(k, v)].drop_first() == s);
    } else if s[0].0 == k {
        assert((seq![(k, v)] + s.drop_first()).drop_first() == s.drop_first());
    } else if seq_lt(k, s[0].0) {
        assert((seq![(k, v)] + s).drop_first() == s);
    } else {
        lemma_get_insert_other(s.drop_first(), k, v, k2);
        assert((seq![s[0]] + assoc_insert(s.drop_first(), k, v)).drop_first() == assoc_insert(
            s.drop_first(),
            k,
            v,
        ));
    }
}

/// After removing a key it is absent.
pub proof fn lemma_get_remove_same(s: Seq<EntryView>, k: Seq<char>)
    ensures
        assoc_get(assoc_remove(s, k), k) is None,
    decreases s.len(),
{
    if s.len() > 0 {
        lemma_get_remove_same(s.drop_first(), k);
        if s[0].0 != k {
            assert((seq![s[0]] + assoc_remove(s.drop_first(), k)).drop_first() == assoc_remove(
                s.drop_first(),
                k,
            ));
        }
    }
}

/// Removing one key leaves every other key's value unchanged.
pub proof fn lemma_get_remove_other(s: Seq<EntryView>, k: Seq<char>, k2: Seq<char>)
    requires
        k2 != k,
    ensures
        assoc_get(assoc_remove(s, k), k2) == assoc_get(s, k2),
    decreases s.len(),
{
    if s.len() > 0 {
        lemma_get_remove_other(s.drop_first(), k, k2);
        if s[0].0 != k {
            assert((seq![s[0]] + assoc_remove(s.drop_first(), k)).drop_first() == assoc_remove(
                s.drop_first(),
                k,
            ));
        }
    }
}

/// Removing a key from a sorted list deletes the one entry holding it.
pub proof fn lemma_remove_at(s: Seq<EntryView>, k: Seq<char>, i: int)
    requires
        keys_sorted(s),
        0 <= i < s.len(),
        s[i].0 == k,
    ensures
        assoc_remove(s, k) == s.remove(i),
    decreases s.len(),
{
    lemma_keys_sorted_drop_first(s);
    let t = s.drop_first();
    if i == 0 {
        assert forall|j: int| 0 <= j < t.len() implies t[j].0 != k by {
            assert(t[j] == s[j + 1]);
            lemma_seq_lt_irreflexive(k);
        }
        lemma_remove_absent(t, k);
        assert(s.remove(0) == t);
    } else {
        assert(s[0].0 != k) by {
            lemma_seq_lt_irreflexive(k);
        }
        assert(t[i - 1] == s[i]);
        lemma_remove_at(t, k, i - 1);
        assert(seq![s[0]] + t.remove(i - 1) == s.remove(i));
    }
}

/// Removing an absent key changes nothing.
pub proof fn lemma_remove_absent(s: Seq<EntryView>, k: Seq<char>)
    requires
        forall|j: int| 0 <= j < s.len() ==> s[j].0 != k,
    ensures
        assoc_remove(s, k) == s,
    decreases s.len(),
{
    if s.len() > 0 {
        let t = s.drop_first();
        assert forall|j: int| 0 <= j < t.len() implies t[j].0 != k by {
            assert(t[j] == s[j + 1]);
        }
        lemma_remove_absent(t, k);
        assert(seq![s[0]] + t == s);
    }
}

/// The value under a key held at a known index of a sorted list.
pub proof fn lemma_get_at(s: Seq<EntryView>, i: int)
    requires
        keys_sorted(s),
        0 <= i < s.len(),
    ensures
        assoc_get(s, s[i].0) == Some(s[i].1),
    decreases s.len(),
{
    if i > 0 {
        lemma_seq_lt_irreflexive(s[i].0);
        lemma_keys_sorted_drop_first(s);
        assert(s.drop_first()[i - 1] == s[i]);
        lemma_get_at(s.drop_first(), i - 1);
    }
}

/// A key held at no index has no value.
pub proof fn lemma_get_absent(s: Seq<EntryView>, k: Seq<char>)
    requires
        forall|j: int| 0 <= j < s.len() ==> s[j].0 != k,
    ensures
        assoc_get(s, k) is None,
    decreases s.len(),
{
    if s.len() > 0 {
        let t = s.drop_first();
        assert forall|j: int| 0 <= j < t.len() implies t[j].0 != k by {
            assert(t[j] == s[j + 1]);
        }
        lemma_get_absent(t, k);
    }
}

/// Removing a key that has no value changes nothing.
pub proof fn lemma_get_none_remove(s: Seq<EntryView>, k: Seq<char>)
    requires
        assoc_get(s, k) is None,
    ensures
        assoc_remove(s, k) == s,
    decreases s.len(),
{
    if s.len() > 0 {
        lemma_get_none_remove(s.drop_first(), k);
        assert(seq![s[0]] + s.drop_first() == s);
    }
}

/// Removal keeps the keys sorted.
pub proof fn lemma_remove_sorted(s: Seq<EntryView>, k: Seq<char>)
    requires
        keys_sorted(s),
    ensures
        keys_sorted(assoc_remove(s, k)),
{
    if exists|i: int| 0 <= i < s.len() && s[i].0 == k {
        let i = choose|i: int| 0 <= i < s.len() && s[i].0 == k;
        lemma_remove_at(s, k, i);
        let r = s.remove(i);
        assert forall|a: int, b: int| 0 <= a < b < r.len() implies seq_lt(
            #[trigger] r[a].0,
            #[trigger] r[b].0,
        ) by {
            let a2 = if a < i { a } else { a + 1 };
            let b2 = if b < i { b } else { b + 1 };
            assert(r[a] == s[a2]);
            assert(r[b] == s[b2]);
        }
    } else {
        lemma_remove_absent(s, k);
    }
}

/// The key-to-action table of one layer.
#[derive(Debug)]
pub struct Mappings {
    entries: Vec<(String, String)>,
}

impl View for Mappings {
    type V = Seq<EntryView>;

    closed spec fn view(&self) -> Seq<EntryView> {
        entry_views(self.entries@)
    }
}

impl Mappings {
    #[verifier::type_invariant]
    closed spec fn inv(self) -> bool {
        keys_sorted(entry_views(self.entries@))
    }

    /// An empty table.
    pub fn new() -> (m: Self)
        ensures
            m@ == Seq::<EntryView>::empty(),
            keys_sorted(m@),
    {
        let m = Mappings { entries: Vec::new() };
        assert(m@ == Seq::<EntryView>::empty());
        m
    }

    /// Number of entries.
    pub fn len(&self) -> (n: usize)
        ensures
            n == self@.len(),
            keys_sorted(self@),
    {
        proof {
            use_type_invariant(self);
        }
        self.entries.len()
    }

    /// Does the table hold no entry?
    pub fn is_empty(&self) -> (b: bool)
        ensures
            b == (self@.len() == 0),
            keys_sorted(self@),
    {
        proof {
            use_type_invariant(self);
        }
        self.entries.len() == 0
    }

    /// The key of entry `i` (entries in increasing key order).
    pub fn key_at(&self, i: usize) -> (k: &String)
        requires
            i < self@.len(),
        ensures
            k@ == self@[i as int].0,
            keys_sorted(self@),
    {
        proof {
            use_type_invariant(self);
        }
        &self.entries[i].0
    }

    /// The value of entry `i`.
    pub fn value_at(&self, i: usize) -> (v: &String)
        requires
            i < self@.len(),
        ensures
            v@ == self@[i as int].1,
            keys_sorted(self@),
    {
        proof {
            use_type_invariant(self);
        }
        &self.entries[i].1
    }

    /// The first index whose key is not below `k`.
    fn position(&self, k: &[char]) -> (p: usize)
        ensures
            is_insert_pos(self@, k@, p as int),
    {
        let n = self.entries.len();
        let mut i: usize = 0;
        while i < n
            invariant
                n == self@.len(),
                0 <= i <= n,
                forall|j: int| 0 <= j < i ==> seq_lt(#[trigger] self@[j].0, k@),
            decreases n - i,
        {
            let ki = chars_of(self.entries[i].0.as_str());
            if !chars_lt(ki.as_slice(), k) {
                return i;
            }
            i = i + 1;
        }
        i
    }

    /// Index of the entry for `k`, if any.
    fn index_of(&self, k: &[char]) -> (r: Option<usize>)
        ensures
            match r {
                Some(i) => i < self@.len() && self@[i as int].0 == k@,
                None => forall|j: int| 0 <= j < self@.len() ==> self@[j].0 != k@,
            },
    {
        proof {
            use_type_invariant(self);
        }
        let p = self.position(k);
        if p < self.entries.len() {
            let kp = chars_of(self.entries[p].0.as_str());
            if chars_eq(kp.as_slice(), k) {
                return Some(p);
            }
            assert forall|j: int| 0 <= j < self@.len() implies self@[j].0 != k@ by {
                lemma_seq_lt_irreflexive(k@);
                if j > p {
                    lemma_seq_lt_total(self@[p as int].0, k@);
                    lemma_seq_lt_transitive(k@, self@[p as int].0, self@[j].0);
                }
            }
        } else {
            assert forall|j: int| 0 <= j < self@.len() implies self@[j].0 != k@ by {
                lemma_seq_lt_irreflexive(k@);
            }
        }
        None
    }

    /// The value stored under `key`.
    pub fn get(&self, key: &str) -> (r: Option<&String>)
        ensures
            match r {
                Some(v) => assoc_get(self@, key@) == Some(v@),
                None => assoc_get(self@, key@) is None,
            },
            keys_sorted(self@),
    {
        proof {
            use_type_invariant(self);
        }
        let k = chars_of(key);
        match self.index_of(k.as_slice()) {
            Some(i) => {
                proof {
                    lemma_get_at(self@, i as int);
                }
                Some(&self.entries[i].1)
            },
            None => {
                proof {
                    lemma_get_absent(self@, key@);
                }
                None
            },
        }
    }

    /// Is there an entry for `key`?
    pub fn contains_key(&self, key: &str) -> (b: bool)
        ensures
            b == (assoc_get(self@, key@) is Some),
            keys_sorted(self@),
    {
        match self.get(key) {
            Some(_) => true,
            None => false,
        }
    }

    /// Store `value` under `key`, returning the value it replaces.
    pub fn insert(&mut self, key: String, value: String) -> (old_value: Option<String>)
        ensures
            final(self)@ == assoc_insert(old(self)@, key@, value@),
            keys_sorted(final(self)@),
            match old_value {
                Some(v) => assoc_get(old(self)@, key@) == Some(v@),
                None => assoc_get(old(self)@, key@) is None,
            },
    {
        proof {
            use_type_invariant(&*self);
        }
        let k = chars_of(key.as_str());
        let p = self.position(k.as_slice());
        proof {
            lemma_insert_at_pos(self@, key@, value@, p as int);
            lemma_insert_sorted(self@, key@, value@);
        }
        let n = self.entries.len();
        if p < n {
            let kp = chars_of(self.entries[p].0.as_str());
            if chars_eq(kp.as_slice(), k.as_slice()) {
                proof {
                    lemma_get_at(self@, p as int);
                }
                let mut entries: Vec<(String, String)> = Vec::new();
                std::mem::swap(&mut entries, &mut self.entries);
                let ghost before = entries@;
                let old_entry = entries.remove(p);
                entries.insert(p, (key, value));
                assert(entry_views(entries@) == entry_views(before).update(
                    p as int,
                    (k@, value@),
                ));
                self.entries = entries;
                return Some(old_entry.1);
            }
            proof {
                lemma_seq_lt_irreflexive(k@);
                lemma_seq_lt_total(self@[p as int].0, k@);
                lemma_get_absent_pos(self@, k@, p as int);
            }
        } else {
            proof {
                lemma_get_absent_pos(self@, k@, p as int);
            }
        }
        let mut entries: Vec<(String, String)> = Vec::new();
                std::mem::swap(&mut entries, &mut self.entries);
        let ghost before = entries@;
        entries.insert(p, (key, value));
        assert(entry_views(entries@) == entry_views(before).insert(p as int, (k@, value@)));
        self.entries = entries;
        None
    }

    /// Remove the entry for `key`, returning its value.
    pub fn remove(&mut self, key: &str) -> (old_value: Option<String>)
        ensures
            final(self)@ == assoc_remove(old(self)@, key@),
            keys_sorted(final(self)@),
            match old_value {
                Some(v) => assoc_get(old(self)@, key@) == Some(v@),
                None => assoc_get(old(self)@, key@) is None,
            },
    {
        proof {
            use_type_invariant(&*self);
        }
        let k = chars_of(key);
        match self.index_of(k.as_slice()) {
            Some(i) => {
                proof {
                    lemma_get_at(self@, i as int);
                    lemma_remove_at(self@, key@, i as int);
                    lemma_remove_sorted(self@, key@);
                }
                let mut entries: Vec<(String, String)> = Vec::new();
                std::mem::swap(&mut entries, &mut self.entries);
                let ghost before = entries@;
                let e = entries.remove(i);
                assert(entry_views(entries@) == entry_views(before).remove(i as int));
                self.entries = entries;
                Some(e.1)
            },
            None => {
                proof {
                    lemma_get_absent(self@, key@);
                    lemma_remove_absent(self@, key@);
                }
                None
            },
        }
    }

    /// A copy of the table.
    pub fn duplicate(&self) -> (m: Self)
        ensures
            m@ == self@,
            keys_sorted(m@),
    {
        proof {
            use_type_invariant(self);
        }
        let mut entries: Vec<(String, String)> = Vec::new();
        let n = self.entries.len();
        for i in 0..n
            invariant
                n == self@.len(),
                entry_views(entries@) == self@.take(i as int),
        {
            let k = self.entries[i].0.clone();
            let v = self.entries[i].1.clone();
            entries.push((k, v));
            assert(self@.take(i + 1) == self@.take(i as int).push(self@[i as int]));
            assert(entry_views(entries@) == self@.take(i + 1));
        }
        assert(self@.take(n as int) == self@);
        Mappings { entries }
    }
}

impl Clone for Mappings {
    fn clone(&self) -> (m: Self)
        ensures
            m@ == self@,
    {
        self.duplicate()
    }
}

/// With the position of a key found and no entry equal to it there, the
/// key is absent.
pub proof fn lemma_get_absent_pos(s: Seq<EntryView>, k: Seq<char>, p: int)
    requires
        keys_sorted(s),
        is_insert_pos(s, k, p),
        p < s.len() ==> s[p].0 != k,
    ensures
        assoc_get(s, k) is None,
        forall|j: int| 0 <= j < s.len() ==> s[j].0 != k,
{
    lemma_seq_lt_irreflexive(k);
    assert forall|j: int| 0 <= j < s.len() implies s[j].0 != k by {
        if j > p {
            lemma_seq_lt_total(s[p].0, k);
            lemma_seq_lt_transitive(k, s[p].0, s[j].0);
        }
    }
    lemma_get_absent(s, k);
}

} // verus!
