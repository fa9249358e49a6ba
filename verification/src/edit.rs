//! Editing a configuration the way the profile manager does: ids,
//! layers, modifiers and key bindings, and the lists it shows.
use vstd::prelude::*;

use crate::action::{
    arg_list_fits, args_in_order, change_action_arg, change_action_type, depth_fits, kind_content,
    with_arg, with_kind, ActionType,
};
use crate::config::{
    find_layer, find_layer_index, layer_views, main_name, wildcard_id, KeydConfig, Layer,
    LayerView,
};
use crate::mappings::{assoc_get, assoc_insert, assoc_keys, assoc_remove, Mappings};
use crate::names::{first_free_name, is_first_free, numbered};
use crate::text::{
    chars_eq, chars_lt, chars_of, contains_char, seq_lt, string_of, string_views, trim,
    trim_chars,
};

verus! {

/// `c` removed wherever it occurs.
pub open spec fn remove_char(s: Seq<char>, c: char) -> Seq<char>
    decreases s.len(),
{
    if s.len() == 0 {
        s
    } else if s.last() == c {
        remove_char(s.drop_last(), c)
    } else {
        remove_char(s.drop_last(), c).push(s.last())
    }
}

/// `"key_"`
pub open spec fn key_prefix() -> Seq<char> {
    seq!['k', 'e', 'y', '_']
}

/// `"New layer "`
pub open spec fn layer_prefix() -> Seq<char> {
    seq!['N', 'e', 'w', ' ', 'l', 'a', 'y', 'e', 'r', ' ']
}

/// `"void"`, the action that does nothing.
pub open spec fn void_action() -> Seq<char> {
    seq!['v', 'o', 'i', 'd']
}

/// The names of a sequence of layers.
pub open spec fn layer_names_of(ls: Seq<LayerView>) -> Seq<Seq<char>> {
    ls.map_values(|l: LayerView| l.name)
}

/// What became of a request to rename a layer.
#[derive(Clone, Copy, Debug, PartialEq, Eq, Structural)]
pub enum LayerRename {
    /// The new name holds `:`, which the section header syntax reserves.
    InvalidName,
    /// The new name is empty or the old one: nothing to do.
    Unchanged,
    /// Another layer already has the new name.
    AlreadyExists,
    /// No layer has the old name.
    NotFound,
    /// The layer was renamed.
    Renamed,
}

/// Lower-case form of a text, as `str::to_lowercase` gives it.
pub uninterp spec fn lowercase(s: Seq<char>) -> Seq<char>;

/// Every character of `s` is ASCII.
pub open spec fn ascii_text(s: Seq<char>) -> bool {
    forall|i: int| 0 <= i < s.len() ==> (s[i] as u32) < 128
}

/// The lower-case form of an ASCII character: `A` to `Z` become `a` to
/// `z`, every other character stays.
pub open spec fn ascii_lower_char(c: char) -> char {
    if 'A' <= c && c <= 'Z' {
        ((c as u32) + 32) as char
    } else {
        c
    }
}

/// An ASCII text lower-cased character by character.
pub open spec fn ascii_lower(s: Seq<char>) -> Seq<char> {
    s.map_values(|c: char| ascii_lower_char(c))
}

/// `str::to_lowercase`: the text under Unicode's lower-case mapping, where
/// a character may become several and a final capital sigma depends on the
/// characters around it. Its result is named by `lowercase`, a function of
/// the text alone. Of an ASCII text the mapping is stated: `A` to `Z`
/// become `a` to `z` and every other character (digits, spaces,
/// punctuation, lower-case letters) stays in its place; of other texts
/// nothing more is stated.
#[verifier::external_body]
fn to_lower(s: &str) -> (r: String)
    ensures
        r@ == lowercase(s@),
        ascii_text(s@) ==> r@ == ascii_lower(s@),
{
    s.to_lowercase()
}

/// `t` occurs in `s` as a contiguous piece.
pub open spec fn has_sub(s: Seq<char>, t: Seq<char>) -> bool {
    exists|i: int| 0 <= i && i + t.len() <= s.len() && #[trigger] s.subrange(i, i + t.len()) == t
}

/// Lower-casing keeps the length, and keeps every character that is not
/// an upper-case ASCII letter where it was.
pub proof fn lemma_ascii_lower_keeps(s: Seq<char>)
    ensures
        ascii_lower(s).len() == s.len(),
        forall|i: int|
            0 <= i < s.len() && !('A' <= s[i] && s[i] <= 'Z') ==> #[trigger] ascii_lower(s)[i]
                == s[i],
        forall|i: int|
            0 <= i < s.len() && 'A' <= s[i] && s[i] <= 'Z' ==> (#[trigger] ascii_lower(s)[i]
                as u32) == (s[i] as u32) + 32,
{
}

/// Lower-casing both texts keeps a piece of the one a piece of the other:
/// a query that occurs in a name still occurs once both are lower-cased.
pub proof fn lemma_ascii_lower_sub(s: Seq<char>, t: Seq<char>)
    requires
        has_sub(s, t),
    ensures
        has_sub(ascii_lower(s), ascii_lower(t)),
{
    let i = choose|i: int| 0 <= i && i + t.len() <= s.len() && #[trigger] s.subrange(i, i + t.len()) == t;
    assert(ascii_lower(s).subrange(i, i + t.len()) =~= ascii_lower(t));
}

/// A name is shown for a search query when the query is empty or occurs
/// in the name, both lower-cased.
pub open spec fn matches_query(name: Seq<char>, query: Seq<char>) -> bool {
    query.len() == 0 || has_sub(lowercase(name), lowercase(query))
}

/// The names other than `main` that match the query, in order.
pub open spec fn listed_names(names: Seq<Seq<char>>, query: Seq<char>) -> Seq<Seq<char>>
    decreases names.len(),
{
    if names.len() == 0 {
        names
    } else {
        let rest = listed_names(names.drop_last(), query);
        let n = names.last();
        if n != main_name() && matches_query(n, query) {
            rest.push(n)
        } else {
            rest
        }
    }
}

/// Insert a name before the first greater one.
pub open spec fn insert_name(s: Seq<Seq<char>>, x: Seq<char>) -> Seq<Seq<char>>
    decreases s.len(),
{
    if s.len() == 0 {
        seq![x]
    } else if seq_lt(x, s[0]) {
        seq![x] + s
    } else {
        seq![s[0]] + insert_name(s.drop_first(), x)
    }
}

/// Names in increasing order.
pub open spec fn sort_names(s: Seq<Seq<char>>) -> Seq<Seq<char>>
    decreases s.len(),
{
    if s.len() == 0 {
        s
    } else {
        insert_name(sort_names(s.drop_last()), s.last())
    }
}

/// The layer list the editor shows: `main` first, then the other layers
/// matching the query, sorted by name.
pub open spec fn shown_layers(names: Seq<Seq<char>>, query: Seq<char>) -> Seq<Seq<char>> {
    seq![main_name()] + sort_names(listed_names(names, query))
}

pub proof fn lemma_insert_name_at(s: Seq<Seq<char>>, x: Seq<char>, p: int)
    requires
        0 <= p <= s.len(),
        forall|j: int| 0 <= j < p ==> !seq_lt(x, #[trigger] s[j]),
        p < s.len() ==> seq_lt(x, s[p]),
    ensures
        insert_name(s, x) == s.insert(p, x),
    decreases s.len(),
{
    if s.len() == 0 {
        assert(s.insert(0, x) == seq![x]);
    } else if p == 0 {
        assert(s.insert(0, x) == seq![x] + s);
    } else {
        let t = s.drop_first();
        assert forall|j: int| 0 <= j < p - 1 implies !seq_lt(x, #[trigger] t[j]) by {
            assert(t[j] == s[j + 1]);
        }
        if p < s.len() {
            assert(t[p - 1] == s[p]);
        }
        lemma_insert_name_at(t, x, p - 1);
        assert(seq![s[0]] + t.insert(p - 1, x) == s.insert(p, x));
    }
}

/// Does `t` occur in `s`?
fn contains_sub(s: &[char], t: &[char]) -> (b: bool)
    ensures
        b == has_sub(s@, t@),
{
    let n = s.len();
    let m = t.len();
    if m > n {
        assert forall|i: int| 0 <= i && i + m <= n implies #[trigger] s@.subrange(i, i + m) != t@ by {}
        return false;
    }
    let mut i: usize = 0;
    while i <= n - m
        invariant
            n == s@.len(),
            m == t@.len(),
            m <= n,
            0 <= i <= n - m + 1,
            forall|k: int| 0 <= k < i ==> #[trigger] s@.subrange(k, k + m) != t@,
        decreases n - m + 1 - i,
    {
        let mut j: usize = 0;
        let mut same = true;
        while j < m
            invariant
                n == s@.len(),
                m == t@.len(),
                i + m <= n,
                0 <= j <= m,
                same == (forall|q: int| 0 <= q < j ==> s@[i + q] == t@[q]),
            decreases m - j,
        {
            if s[i + j] != t[j] {
                same = false;
            }
            j = j + 1;
        }
        if same {
            assert(s@.subrange(i as int, i + m) == t@);
            return true;
        }
        assert(s@.subrange(i as int, i + m) != t@) by {
            let q = choose|q: int| 0 <= q < m && s@[i + q] != t@[q];
            assert(s@.subrange(i as int, i + m)[q] == s@[i + q]);
        }
        i = i + 1;
    }
    false
}

/// Does `v` hold the text `x`?
pub(crate) fn contains_string(v: &Vec<String>, x: &[char]) -> (b: bool)
    ensures
        b == string_views(v@).contains(x@),
{
    let n = v.len();
    for k in 0..n
        invariant
            n == v@.len(),
            forall|j: int| 0 <= j < k ==> string_views(v@)[j] != x@,
    {
        if chars_eq(chars_of(v[k].as_str()).as_slice(), x) {
            assert(string_views(v@)[k as int] == x@);
            return true;
        }
    }
    false
}

/// Is `name` shown for the search `query`?
pub fn search_matches(name: &str, query: &str) -> (b: bool)
    ensures
        b == matches_query(name@, query@),
        ascii_text(name@) && ascii_text(query@) ==> b == (query@.len() == 0 || has_sub(
            ascii_lower(name@),
            ascii_lower(query@),
        )),
        ascii_text(name@) && ascii_text(query@) && has_sub(name@, query@) ==> b,
{
    proof {
        if has_sub(name@, query@) {
            lemma_ascii_lower_sub(name@, query@);
        }
    }
    let q = chars_of(query);
    if q.len() == 0 {
        return true;
    }
    let ln = to_lower(name);
    let lq = to_lower(query);
    let a = chars_of(ln.as_str());
    let b = chars_of(lq.as_str());
    contains_sub(a.as_slice(), b.as_slice())
}

/// Names in increasing order.
fn sorted_names(names: Vec<String>) -> (r: Vec<String>)
    ensures
        string_views(r@) == sort_names(string_views(names@)),
{
    let ghost all = string_views(names@);
    let n = names.len();
    let mut sorted: Vec<String> = Vec::new();
    let mut rest = names;
    for i in 0..n
        invariant
            n == all.len(),
            string_views(rest@) == all.skip(i as int),
            string_views(sorted@) == sort_names(all.take(i as int)),
    {
        let ghost rv = string_views(rest@);
        assert(rv.len() == rest@.len());
        assert(rv[0] == all[i as int]);
        let x = rest.remove(0);
        assert(string_views(rest@) == rv.drop_first());
        assert(all.skip(i as int).drop_first() == all.skip(i + 1));
        assert(all.take(i + 1).drop_last() == all.take(i as int));
        let xc = chars_of(x.as_str());
        let ghost sv = string_views(sorted@);
        let ms = sorted.len();
        let mut p: usize = 0;
        while p < ms && !chars_lt(xc.as_slice(), chars_of(sorted[p].as_str()).as_slice())
            invariant
                ms == sorted@.len(),
                sv == string_views(sorted@),
                xc@ == x@,
                0 <= p <= ms,
                forall|j: int| 0 <= j < p ==> !seq_lt(x@, #[trigger] sv[j]),
            decreases ms - p,
        {
            p = p + 1;
        }
        proof {
            lemma_insert_name_at(sv, x@, p as int);
        }
        sorted.insert(p, x);
        assert(string_views(sorted@) == sv.insert(p as int, x@));
    }
    assert(all.take(n as int) == all);
    sorted
}

/// The names of the given layers.
fn names_of(layers: &Vec<Layer>) -> (r: Vec<String>)
    ensures
        string_views(r@) == layer_names_of(layer_views(layers@)),
{
    let mut r: Vec<String> = Vec::new();
    let n = layers.len();
    for i in 0..n
        invariant
            n == layers@.len(),
            string_views(r@) == layer_names_of(layer_views(layers@)).take(i as int),
    {
        let ghost before = string_views(r@);
        r.push(layers[i].name.clone());
        assert(string_views(r@) == before.push(layers@[i as int].name@));
        assert(layer_names_of(layer_views(layers@)).take(i + 1) == layer_names_of(
            layer_views(layers@),
        ).take(i as int).push(layers@[i as int].name@));
    }
    assert(layer_names_of(layer_views(layers@)).take(n as int) == layer_names_of(
        layer_views(layers@),
    ));
    r
}

impl Layer {
    /// An empty layer named `name`.
    pub fn named(name: String) -> (l: Layer)
        ensures
            l@ == (LayerView { name: name@, modifiers: seq![], mappings: seq![] }),
    {
        Layer { name, modifiers: Vec::new(), mappings: Mappings::new() }
    }

    /// Tick or untick a modifier letter: ticking adds it unless present,
    /// unticking removes every occurrence.
    pub fn toggle_modifier(&mut self, m: char, checked: bool)
        ensures
            final(self).name == old(self).name,
            final(self).mappings@ == old(self).mappings@,
            checked && old(self).modifiers@.contains(m) ==> final(self).modifiers@ == old(self).modifiers@,
            checked && !old(self).modifiers@.contains(m) ==> final(self).modifiers@ == old(self).modifiers@.push(m),
            !checked ==> final(self).modifiers@ == remove_char(old(self).modifiers@, m),
    {
        if checked {
            if !contains_char(self.modifiers.as_slice(), m) {
                self.modifiers.push(m);
            }
        } else {
            let ghost ms = self.modifiers@;
            let mut kept: Vec<char> = Vec::new();
            let n = self.modifiers.len();
            for i in 0..n
                invariant
                    n == ms.len(),
                    self.modifiers@ == ms,
                    kept@ == remove_char(ms.take(i as int), m),
            {
                assert(ms.take(i + 1).drop_last() == ms.take(i as int));
                let c = self.modifiers[i];
                if c != m {
                    kept.push(c);
                }
            }
            assert(ms.take(n as int) == ms);
            self.modifiers = kept;
        }
    }

    /// The keys of the table, in increasing order.
    pub fn keys(&self) -> (r: Vec<String>)
        ensures
            string_views(r@) == assoc_keys(self.mappings@),
    {
        let mut r: Vec<String> = Vec::new();
        let n = self.mappings.len();
        for i in 0..n
            invariant
                n == self.mappings@.len(),
                string_views(r@) == assoc_keys(self.mappings@).take(i as int),
        {
            let ghost before = string_views(r@);
            r.push(self.mappings.key_at(i).clone());
            assert(string_views(r@) == before.push(self.mappings@[i as int].0));
            assert(assoc_keys(self.mappings@).take(i + 1) == assoc_keys(self.mappings@).take(
                i as int,
            ).push(self.mappings@[i as int].0));
        }
        assert(assoc_keys(self.mappings@).take(n as int) == assoc_keys(self.mappings@));
        r
    }

    /// Add the binding `key_N = void` under the first free `key_N`, and
    /// return that key.
    pub fn add_mapping(&mut self) -> (key: String)
        requires
            old(self).mappings@.len() < usize::MAX,
        ensures
            exists|i: nat|
                is_first_free(key_prefix(), assoc_keys(old(self).mappings@), i) && key@
                    == numbered(key_prefix(), i),
            final(self).mappings@ == assoc_insert(old(self).mappings@, key@, void_action()),
            final(self).name == old(self).name,
            final(self).modifiers == old(self).modifiers,
    {
        let keys = self.keys();
        assert(keys@.len() == string_views(keys@).len());
        let pre: Vec<char> = vec!['k', 'e', 'y', '_'];
        let prefix = string_of(pre.as_slice());
        assert(prefix@ == key_prefix());
        let key = first_free_name(prefix.as_str(), &keys);
        let void: Vec<char> = vec!['v', 'o', 'i', 'd'];
        self.mappings.insert(key.clone(), string_of(void.as_slice()));
        key
    }

    /// Move the action bound to `old_key` to `new_key` (replacing what
    /// `new_key` had); nothing happens when `old_key` is unbound.
    pub fn rebind_key(&mut self, old_key: &str, new_key: String)
        ensures
            final(self).name == old(self).name,
            final(self).modifiers == old(self).modifiers,
            match assoc_get(old(self).mappings@, old_key@) {
                Some(v) => final(self).mappings@ == assoc_insert(
                    assoc_remove(old(self).mappings@, old_key@),
                    new_key@,
                    v,
                ),
                None => final(self).mappings@ == old(self).mappings@,
            },
    {
        match self.mappings.remove(old_key) {
            Some(v) => {
                self.mappings.insert(new_key, v);
            },
            None => {
                proof {
                    crate::mappings::lemma_get_none_remove(old(self).mappings@, old_key@);
                }
            },
        }
    }

    /// Change the kind of the action bound to `key` (see
    /// `change_action_type`); nothing happens when `key` is unbound.
    pub fn set_action_type(&mut self, key: &str, action: ActionType)
        requires
            assoc_get(old(self).mappings@, key@) matches Some(v) ==> args_in_order(v)
                && depth_fits(kind_content(v)),
        ensures
            final(self).name == old(self).name,
            final(self).modifiers == old(self).modifiers,
            match assoc_get(old(self).mappings@, key@) {
                Some(v) => final(self).mappings@ == assoc_insert(
                    old(self).mappings@,
                    key@,
                    with_kind(v, action),
                ),
                None => final(self).mappings@ == old(self).mappings@,
            },
    {
        let new_value = match self.mappings.get(key) {
            Some(v) => Some(change_action_type(v.as_str(), action)),
            None => None,
        };
        match new_value {
            Some(nv) => {
                let k = string_of(chars_of(key).as_slice());
                self.mappings.insert(k, nv);
            },
            None => {},
        }
    }

    /// Set argument `index` of the action bound to `key` (see
    /// `change_action_arg`); nothing happens when `key` is unbound.
    pub fn set_action_arg(&mut self, key: &str, index: usize, new_value: &str)
        requires
            assoc_get(old(self).mappings@, key@) matches Some(v) ==> args_in_order(v)
                && arg_list_fits(v),
            index < usize::MAX,
        ensures
            final(self).name == old(self).name,
            final(self).modifiers == old(self).modifiers,
            match assoc_get(old(self).mappings@, key@) {
                Some(v) => final(self).mappings@ == assoc_insert(
                    old(self).mappings@,
                    key@,
                    with_arg(v, index as nat, new_value@),
                ),
                None => final(self).mappings@ == old(self).mappings@,
            },
    {
        let nv = match self.mappings.get(key) {
            Some(v) => Some(change_action_arg(v.as_str(), index, new_value)),
            None => None,
        };
        match nv {
            Some(nv) => {
                let k = string_of(chars_of(key).as_slice());
                self.mappings.insert(k, nv);
            },
            None => {},
        }
    }
}

impl KeydConfig {
    /// Append an empty id for the user to fill in.
    pub fn add_id(&mut self)
        ensures
            final(self)@.ids == old(self)@.ids.push(Seq::<char>::empty()),
            final(self)@.layers == old(self)@.layers,
    {
        self.ids.push(String::new());
        assert(string_views(self.ids@) == string_views(old(self).ids@).push(Seq::<char>::empty()));
    }

    /// Delete id `index`; the last remaining id is reset to `*` instead.
    pub fn delete_id(&mut self, index: usize)
        requires
            old(self).ids@.len() >= 1,
            old(self).ids@.len() > 1 ==> index < old(self).ids@.len(),
        ensures
            old(self)@.ids.len() > 1 ==> final(self)@.ids == old(self)@.ids.remove(index as int),
            old(self)@.ids.len() == 1 ==> final(self)@.ids == seq![wildcard_id()],
            final(self)@.layers == old(self)@.layers,
    {
        if self.ids.len() > 1 {
            self.ids.remove(index);
            assert(string_views(self.ids@) == string_views(old(self).ids@).remove(index as int));
        } else {
            let star: Vec<char> = vec!['*'];
            self.ids.set(0, string_of(star.as_slice()));
            assert(string_views(self.ids@)[0] == wildcard_id());
            assert(string_views(self.ids@) == seq![wildcard_id()]);
        }
    }

    /// Replace id `index` with `new_id`; an index past the end changes
    /// nothing.
    pub fn change_id(&mut self, index: usize, new_id: String)
        ensures
            index < old(self)@.ids.len() ==> final(self)@.ids == old(self)@.ids.update(
                index as int,
                new_id@,
            ),
            index >= old(self)@.ids.len() ==> final(self)@.ids == old(self)@.ids,
            final(self)@.layers == old(self)@.layers,
    {
        if index < self.ids.len() {
            self.ids.set(index, new_id);
            assert(string_views(self.ids@) == string_views(old(self).ids@).update(
                index as int,
                new_id@,
            ));
        }
    }

    /// Target a detected device: it replaces a lone `*`, is appended
    /// otherwise, and is not added twice.
    pub fn add_device_id(&mut self, id: String)
        ensures
            final(self)@.layers == old(self)@.layers,
            old(self)@.ids == seq![wildcard_id()] ==> final(self)@.ids == seq![id@],
            old(self)@.ids != seq![wildcard_id()] && old(self)@.ids.contains(id@) ==> final(self)@.ids == old(self)@.ids,
            old(self)@.ids != seq![wildcard_id()] && !old(self)@.ids.contains(id@) ==> final(self)@.ids == old(self)@.ids.push(id@),
    {
        let ghost old_ids = string_views(self.ids@);
        let star: Vec<char> = vec!['*'];
        assert(star@ == wildcard_id());
        let mut lone_star = false;
        assert(old_ids.len() == self.ids@.len());
        if self.ids.len() == 1 {
            assert(old_ids[0] == self.ids@[0]@);
            lone_star = chars_eq(chars_of(self.ids[0].as_str()).as_slice(), star.as_slice());
        }
        assert(lone_star <==> old_ids == seq![wildcard_id()]) by {
            if old_ids == seq![wildcard_id()] {
                assert(old_ids[0] == wildcard_id());
            }
            if lone_star {
                assert(old_ids =~= seq![wildcard_id()]);
            }
        }
        if lone_star {
            self.ids.set(0, id);
            assert(string_views(self.ids@)[0] == id@);
            assert(string_views(self.ids@) == seq![id@]);
            return;
        }
        let idc = chars_of(id.as_str());
        if contains_string(&self.ids, idc.as_slice()) {
            return;
        }
        self.ids.push(id);
        assert(string_views(self.ids@) == old_ids.push(id@));
    }

    /// Add an empty layer under the first free name `New layer N`, and
    /// return that name.
    pub fn new_layer(&mut self) -> (name: String)
        requires
            old(self).layers@.len() < usize::MAX,
        ensures
            exists|i: nat|
                is_first_free(layer_prefix(), layer_names_of(old(self)@.layers), i) && name@
                    == numbered(layer_prefix(), i),
            final(self)@.ids == old(self)@.ids,
            final(self)@.layers == old(self)@.layers.push(
                LayerView { name: name@, modifiers: seq![], mappings: seq![] },
            ),
    {
        let names = names_of(&self.layers);
        assert(names@.len() == string_views(names@).len());
        let pre: Vec<char> = vec!['N', 'e', 'w', ' ', 'l', 'a', 'y', 'e', 'r', ' '];
        let prefix = string_of(pre.as_slice());
        assert(prefix@ == layer_prefix());
        let name = first_free_name(prefix.as_str(), &names);
        proof {
            let ls = self@.layers;
            crate::config::lemma_find_layer(ls, name@);
            if find_layer(ls, name@) is Some {
                let i = find_layer(ls, name@).unwrap() as int;
                assert(layer_names_of(ls)[i] == name@);
            }
        }
        self.add_layer(name.clone());
        name
    }

    /// Rename layer `old_name` to `requested` (trimmed), refusing names
    /// with `:` and names another layer has.
    pub fn rename_layer(&mut self, old_name: &str, requested: &str) -> (r: LayerRename)
        ensures
            final(self)@.ids == old(self)@.ids,
            r == LayerRename::InvalidName <==> trim(requested@).contains(':'),
            r == LayerRename::Unchanged <==> !trim(requested@).contains(':') && (trim(
                requested@,
            ).len() == 0 || trim(requested@) == old_name@),
            r == LayerRename::AlreadyExists <==> !trim(requested@).contains(':') && trim(
                requested@,
            ).len() > 0 && trim(requested@) != old_name@ && find_layer(
                old(self)@.layers,
                trim(requested@),
            ) is Some,
            r == LayerRename::NotFound <==> !trim(requested@).contains(':') && trim(
                requested@,
            ).len() > 0 && trim(requested@) != old_name@ && find_layer(
                old(self)@.layers,
                trim(requested@),
            ) is None && find_layer(old(self)@.layers, old_name@) is None,
            r == LayerRename::Renamed ==> ({
                let i = find_layer(old(self)@.layers, old_name@).unwrap() as int;
                let l = old(self)@.layers[i];
                final(self)@.layers == old(self)@.layers.update(
                    i,
                    LayerView { name: trim(requested@), modifiers: l.modifiers, mappings: l.mappings },
                )
            }),
            r != LayerRename::Renamed ==> final(self)@ == old(self)@,
    {
        let req = chars_of(requested);
        let new_name = trim_chars(req.as_slice());
        if contains_char(new_name.as_slice(), ':') {
            return LayerRename::InvalidName;
        }
        let old_chars = chars_of(old_name);
        if new_name.len() == 0 || chars_eq(new_name.as_slice(), old_chars.as_slice()) {
            return LayerRename::Unchanged;
        }
        if find_layer_index(&self.layers, new_name.as_slice()).is_some() {
            return LayerRename::AlreadyExists;
        }
        match find_layer_index(&self.layers, old_chars.as_slice()) {
            Some(i) => {
                let ghost before = layer_views(self.layers@);
                let mut layers: Vec<Layer> = Vec::new();
                std::mem::swap(&mut layers, &mut self.layers);
                let mut l = layers.remove(i);
                l.name = string_of(new_name.as_slice());
                layers.insert(i, l);
                assert(layer_views(layers@) == before.update(
                    i as int,
                    LayerView {
                        name: new_name@,
                        modifiers: before[i as int].modifiers,
                        mappings: before[i as int].mappings,
                    },
                ));
                self.layers = layers;
                LayerRename::Renamed
            },
            None => LayerRename::NotFound,
        }
    }

    /// The layer list the editor shows for a search query: `main` first,
    /// then the other layers whose names match, sorted.
    pub fn shown_layer_names(&self, query: &str) -> (r: Vec<String>)
        ensures
            string_views(r@) == shown_layers(layer_names_of(self@.layers), query@),
    {
        let names = names_of(&self.layers);
        let ghost nv = string_views(names@);
        let main = vec!['m', 'a', 'i', 'n'];
        let mut listed: Vec<String> = Vec::new();
        let n = names.len();
        for i in 0..n
            invariant
                n == names@.len(),
                nv == string_views(names@),
                main@ == main_name(),
                string_views(listed@) == listed_names(nv.take(i as int), query@),
        {
            assert(nv.take(i + 1).drop_last() == nv.take(i as int));
            let nm = chars_of(names[i].as_str());
            if !chars_eq(nm.as_slice(), main.as_slice()) && search_matches(names[i].as_str(), query) {
                let ghost before = string_views(listed@);
                listed.push(names[i].clone());
                assert(string_views(listed@) == before.push(nv[i as int]));
            }
        }
        assert(nv.take(n as int) == nv);
        let sorted = sorted_names(listed);
        let mut r: Vec<String> = Vec::new();
        r.push(string_of(main.as_slice()));
        let ghost sv = string_views(sorted@);
        let m = sorted.len();
        let mut rest = sorted;
        for i in 0..m
            invariant
                m == sv.len(),
                string_views(rest@) == sv.skip(i as int),
                string_views(r@) == seq![main_name()] + sv.take(i as int),
        {
            let ghost rv = string_views(rest@);
            assert(rv.len() == rest@.len());
            assert(rv[0] == sv[i as int]);
            let x = rest.remove(0);
            assert(string_views(rest@) == rv.drop_first());
            assert(sv.skip(i as int).drop_first() == sv.skip(i + 1));
            let ghost before = string_views(r@);
            r.push(x);
            assert(string_views(r@) == before.push(sv[i as int]));
            assert(sv.take(i + 1) == sv.take(i as int).push(sv[i as int]));
        }
        assert(sv.take(m as int) == sv);
        r
    }
}

} // verus!
