//! The device configurations of the profile being edited, which one is
//! selected, and which layer of it: the editor's choices when files are
//! opened, created, deleted and renamed, and what is saved where.
use vstd::prelude::*;

use crate::config::{main_name, render, wildcard_id, ConfigView, KeydConfig, Layer, LayerView};
use crate::edit::contains_string;
use crate::mappings::Mappings;
use crate::names::{first_free_name, is_first_free, numbered};
use crate::text::{
    chars_eq, chars_lt, chars_of, push_chars, push_str, seq_lt, string_of, string_views, trim,
    trim_chars,
};

verus! {

/// A device configuration of a profile: its file stem and contents.
pub struct DeviceConfigItem {
    pub name: String,
    pub config: KeydConfig,
}

/// A device configuration as values.
#[verifier::ext_equal]
pub struct ItemView {
    pub name: Seq<char>,
    pub config: ConfigView,
}

impl View for DeviceConfigItem {
    type V = ItemView;

    open spec fn view(&self) -> ItemView {
        ItemView { name: self.name@, config: self.config@ }
    }
}

/// The views of a sequence of items.
pub open spec fn item_views(v: Seq<DeviceConfigItem>) -> Seq<ItemView> {
    v.map_values(|d: DeviceConfigItem| d@)
}

/// The view of an optional string.
pub open spec fn opt_view(o: Option<String>) -> Option<Seq<char>> {
    match o {
        Some(s) => Some(s@),
        None => None,
    }
}

/// The editor's state for one profile, as values.
#[verifier::ext_equal]
pub struct EditorView {
    pub items: Seq<ItemView>,
    pub active_config: Option<Seq<char>>,
    pub active_layer: Option<Seq<char>>,
}

/// The device configurations of the profile being edited, and what is
/// selected.
pub struct ProfileEditor {
    pub device_configs: Vec<DeviceConfigItem>,
    pub active_device_config: Option<String>,
    pub active_layer: Option<String>,
}

impl View for ProfileEditor {
    type V = EditorView;

    open spec fn view(&self) -> EditorView {
        EditorView {
            items: item_views(self.device_configs@),
            active_config: opt_view(self.active_device_config),
            active_layer: opt_view(self.active_layer),
        }
    }
}

/// `"device_"`
pub open spec fn device_prefix() -> Seq<char> {
    seq!['d', 'e', 'v', 'i', 'c', 'e', '_']
}

/// `".conf"`
pub open spec fn conf_suffix() -> Seq<char> {
    seq!['.', 'c', 'o', 'n', 'f']
}

/// The configuration a new device starts with: every device, an empty
/// `main` layer (the text `[ids]\n*\n\n[main]\n`).
pub open spec fn fresh_config() -> ConfigView {
    ConfigView {
        ids: seq![wildcard_id()],
        layers: seq![LayerView { name: main_name(), modifiers: seq![], mappings: seq![] }],
    }
}

/// Index of the first item named `name`.
pub open spec fn find_item(items: Seq<ItemView>, name: Seq<char>) -> Option<nat>
    decreases items.len(),
{
    if items.len() == 0 {
        None
    } else if items[0].name == name {
        Some(0)
    } else {
        match find_item(items.drop_first(), name) {
            Some(i) => Some(i + 1),
            None => None,
        }
    }
}

/// The selected item, if the selection names one.
pub open spec fn active_index(e: EditorView) -> Option<nat> {
    match e.active_config {
        Some(n) => find_item(e.items, n),
        None => None,
    }
}

/// The names of the items.
pub open spec fn item_names(items: Seq<ItemView>) -> Seq<Seq<char>> {
    items.map_values(|i: ItemView| i.name)
}

/// Insert an item after every item whose name is not greater.
pub open spec fn insert_item(s: Seq<ItemView>, x: ItemView) -> Seq<ItemView>
    decreases s.len(),
{
    if s.len() == 0 {
        seq![x]
    } else if seq_lt(x.name, s[0].name) {
        seq![x] + s
    } else {
        seq![s[0]] + insert_item(s.drop_first(), x)
    }
}

/// Items stably sorted by name.
pub open spec fn sort_items(s: Seq<ItemView>) -> Seq<ItemView>
    decreases s.len(),
{
    if s.len() == 0 {
        s
    } else {
        insert_item(sort_items(s.drop_last()), s.last())
    }
}

/// The items without those named `name`.
pub open spec fn remove_items(s: Seq<ItemView>, name: Seq<char>) -> Seq<ItemView>
    decreases s.len(),
{
    if s.len() == 0 {
        s
    } else if s.last().name == name {
        remove_items(s.drop_last(), name)
    } else {
        remove_items(s.drop_last(), name).push(s.last())
    }
}

/// The selection after a change of items: the first item and its `main`
/// layer, or nothing.
pub open spec fn select_first(items: Seq<ItemView>) -> (Option<Seq<char>>, Option<Seq<char>>) {
    if items.len() > 0 {
        (Some(items[0].name), Some(main_name()))
    } else {
        (None, None)
    }
}

/// What to do with a request to rename a device configuration.
pub enum DeviceRename {
    /// The new name is empty or the old one.
    Unchanged,
    /// Another device configuration has the new name.
    AlreadyExists(String),
    /// Rename the file, then the configuration, to this name.
    Proceed(String),
}

pub proof fn lemma_find_item(items: Seq<ItemView>, name: Seq<char>)
    ensures
        match find_item(items, name) {
            Some(i) => i < items.len() && items[i as int].name == name && forall|j: int|
                0 <= j < i ==> items[j].name != name,
            None => forall|j: int| 0 <= j < items.len() ==> items[j].name != name,
        },
    decreases items.len(),
{
    if items.len() > 0 && items[0].name != name {
        lemma_find_item(items.drop_first(), name);
        assert forall|j: int| 0 < j < items.len() implies items[j] == items.drop_first()[j - 1] by {}
    }
}

pub proof fn lemma_insert_item_at(s: Seq<ItemView>, x: ItemView, p: int)
    requires
        0 <= p <= s.len(),
        forall|j: int| 0 <= j < p ==> !seq_lt(x.name, #[trigger] s[j].name),
        p < s.len() ==> seq_lt(x.name, s[p].name),
    ensures
        insert_item(s, x) == s.insert(p, x),
    decreases s.len(),
{
    if s.len() == 0 {
        assert(s.insert(0, x) == seq![x]);
    } else if p == 0 {
        assert(s.insert(0, x) == seq![x] + s);
    } else {
        let t = s.drop_first();
        assert forall|j: int| 0 <= j < p - 1 implies !seq_lt(x.name, #[trigger] t[j].name) by {
            assert(t[j] == s[j + 1]);
        }
        if p < s.len() {
            assert(t[p - 1] == s[p]);
        }
        lemma_insert_item_at(t, x, p - 1);
        assert(seq![s[0]] + t.insert(p - 1, x) == s.insert(p, x));
    }
}

/// Names never decrease along the list.
pub open spec fn items_sorted(s: Seq<ItemView>) -> bool {
    forall|i: int, j: int| 0 <= i < j < s.len() ==> !seq_lt(#[trigger] s[j].name, #[trigger] s[i].name)
}

proof fn lemma_insert_item_members(s: Seq<ItemView>, x: ItemView, i: int)
    requires
        0 <= i < insert_item(s, x).len(),
    ensures
        insert_item(s, x).len() == s.len() + 1,
        insert_item(s, x)[i] == x || exists|m: int|
            0 <= m < s.len() && s[m] == #[trigger] insert_item(s, x)[i],
    decreases s.len(),
{
    let r = insert_item(s, x);
    if s.len() == 0 {
    } else if seq_lt(x.name, s[0].name) {
        if i > 0 {
            assert(r[i] == s[i - 1]);
        }
    } else {
        let t = s.drop_first();
        if i == 0 {
            assert(r[0] == s[0]);
            lemma_insert_item_members(t, x, 0);
        } else {
            assert(r[i] == insert_item(t, x)[i - 1]);
            lemma_insert_item_members(t, x, i - 1);
            if insert_item(t, x)[i - 1] != x {
                let m = choose|m: int| 0 <= m < t.len() && t[m] == #[trigger] insert_item(t, x)[i - 1];
                assert(t[m] == s[m + 1]);
            }
        }
    }
}

proof fn lemma_insert_item_sorted(s: Seq<ItemView>, x: ItemView)
    requires
        items_sorted(s),
    ensures
        items_sorted(insert_item(s, x)),
    decreases s.len(),
{
    let r = insert_item(s, x);
    if s.len() == 0 {
    } else if seq_lt(x.name, s[0].name) {
        assert forall|i: int, j: int| 0 <= i < j < r.len() implies !seq_lt(
            #[trigger] r[j].name,
            #[trigger] r[i].name,
        ) by {
            if i == 0 {
                assert(r[j] == s[j - 1]);
                if seq_lt(s[j - 1].name, x.name) {
                    crate::text::lemma_seq_lt_transitive(s[j - 1].name, x.name, s[0].name);
                    if j - 1 == 0 {
                        crate::text::lemma_seq_lt_irreflexive(s[0].name);
                    }
                }
            } else {
                assert(r[i] == s[i - 1]);
                assert(r[j] == s[j - 1]);
            }
        }
    } else {
        let t = s.drop_first();
        assert(items_sorted(t)) by {
            assert forall|i: int, j: int| 0 <= i < j < t.len() implies !seq_lt(
                #[trigger] t[j].name,
                #[trigger] t[i].name,
            ) by {
                assert(t[i] == s[i + 1]);
                assert(t[j] == s[j + 1]);
            }
        }
        lemma_insert_item_sorted(t, x);
        let u = insert_item(t, x);
        assert forall|i: int, j: int| 0 <= i < j < r.len() implies !seq_lt(
            #[trigger] r[j].name,
            #[trigger] r[i].name,
        ) by {
            if i == 0 {
                assert(r[0] == s[0]);
                assert(r[j] == u[j - 1]);
                lemma_insert_item_members(t, x, j - 1);
                if u[j - 1] != x {
                    let m = choose|m: int| 0 <= m < t.len() && t[m] == #[trigger] u[j - 1];
                    assert(t[m] == s[m + 1]);
                }
            } else {
                assert(r[i] == u[i - 1]);
                assert(r[j] == u[j - 1]);
            }
        }
    }
}

/// Sorting leaves the items in name order.
pub proof fn lemma_sort_items_sorted(s: Seq<ItemView>)
    ensures
        items_sorted(sort_items(s)),
    decreases s.len(),
{
    if s.len() > 0 {
        lemma_sort_items_sorted(s.drop_last());
        lemma_insert_item_sorted(sort_items(s.drop_last()), s.last());
    }
}

/// Removing items keeps the others in order, each from the list.
proof fn lemma_remove_items_members(s: Seq<ItemView>, name: Seq<char>, i: int)
    requires
        0 <= i < remove_items(s, name).len(),
    ensures
        exists|m: int| 0 <= m < s.len() && s[m] == #[trigger] remove_items(s, name)[i],
    decreases s.len(),
{
    let r0 = remove_items(s.drop_last(), name);
    if s.len() > 0 {
        if i < r0.len() {
            lemma_remove_items_members(s.drop_last(), name, i);
            let m = choose|m: int| 0 <= m < s.drop_last().len() && s.drop_last()[m] == #[trigger] r0[i];
            assert(s[m] == r0[i]);
        } else {
            assert(s[s.len() - 1] == s.last());
        }
    }
}

/// Removing items from a list in name order leaves it in name order.
pub proof fn lemma_remove_items_sorted(s: Seq<ItemView>, name: Seq<char>)
    requires
        items_sorted(s),
    ensures
        items_sorted(remove_items(s, name)),
    decreases s.len(),
{
    if s.len() > 0 {
        let f = s.drop_last();
        assert(items_sorted(f)) by {
            assert forall|i: int, j: int| 0 <= i < j < f.len() implies !seq_lt(
                #[trigger] f[j].name,
                #[trigger] f[i].name,
            ) by {
                assert(f[i] == s[i]);
                assert(f[j] == s[j]);
            }
        }
        lemma_remove_items_sorted(f, name);
        let r0 = remove_items(f, name);
        if s.last().name != name {
            let r = r0.push(s.last());
            assert forall|i: int, j: int| 0 <= i < j < r.len() implies !seq_lt(
                #[trigger] r[j].name,
                #[trigger] r[i].name,
            ) by {
                assert(r[i] == r0[i]);
                lemma_remove_items_members(f, name, i);
                let m = choose|m: int| 0 <= m < f.len() && f[m] == #[trigger] r0[i];
                assert(s[m] == r0[i]);
                if j == r0.len() {
                    assert(s[s.len() - 1] == s.last());
                } else {
                    assert(r[j] == r0[j]);
                }
            }
        }
    }
}

/// The selection, when it names a device configuration, names one that
/// the profile has.
pub open spec fn selection_ok(e: EditorView) -> bool {
    e.active_config matches Some(n) ==> find_item(e.items, n) is Some
}

proof fn lemma_find_item_at(items: Seq<ItemView>, name: Seq<char>, j: int)
    requires
        0 <= j < items.len(),
        items[j].name == name,
    ensures
        find_item(items, name) is Some,
{
    lemma_find_item(items, name);
}

proof fn lemma_find_item_push(r: Seq<ItemView>, x: ItemView, name: Seq<char>)
    requires
        find_item(r, name) is Some || x.name == name,
    ensures
        find_item(r.push(x), name) is Some,
{
    lemma_find_item(r, name);
    if x.name == name {
        lemma_find_item_at(r.push(x), name, r.len() as int);
    } else {
        let i = find_item(r, name).unwrap() as int;
        assert(r.push(x)[i] == r[i]);
        lemma_find_item_at(r.push(x), name, i);
    }
}

proof fn lemma_insert_item_keeps(s: Seq<ItemView>, x: ItemView, name: Seq<char>)
    requires
        find_item(s, name) is Some || x.name == name,
    ensures
        find_item(insert_item(s, x), name) is Some,
    decreases s.len(),
{
    if s.len() == 0 {
        assert(insert_item(s, x) == seq![x]);
        assert(seq![x][0] == x);
    } else if seq_lt(x.name, s[0].name) {
        let r = seq![x] + s;
        assert(r[0] == x);
        assert(r.drop_first() == s);
    } else {
        let t = s.drop_first();
        let r = seq![s[0]] + insert_item(t, x);
        assert(r[0] == s[0]);
        if s[0].name != name {
            lemma_insert_item_keeps(t, x, name);
            assert(r.drop_first() == insert_item(t, x));
        }
    }
}

proof fn lemma_sort_items_keeps(s: Seq<ItemView>, name: Seq<char>)
    requires
        find_item(s, name) is Some,
    ensures
        find_item(sort_items(s), name) is Some,
    decreases s.len(),
{
    let f = s.drop_last();
    lemma_find_item(s, name);
    let i = find_item(s, name).unwrap() as int;
    if i < f.len() {
        assert(f[i] == s[i]);
        lemma_find_item_at(f, name, i);
        lemma_sort_items_keeps(f, name);
    } else {
        assert(s[i] == s.last());
    }
    lemma_insert_item_keeps(sort_items(f), s.last(), name);
}

proof fn lemma_remove_items_keeps(s: Seq<ItemView>, gone: Seq<char>, name: Seq<char>)
    requires
        name != gone,
        find_item(s, name) is Some,
    ensures
        find_item(remove_items(s, gone), name) is Some,
    decreases s.len(),
{
    let f = s.drop_last();
    let l = s.last();
    lemma_find_item(s, name);
    let i = find_item(s, name).unwrap() as int;
    if i < f.len() {
        assert(f[i] == s[i]);
        lemma_find_item_at(f, name, i);
        lemma_remove_items_keeps(f, gone, name);
        if l.name != gone {
            lemma_find_item_push(remove_items(f, gone), l, name);
        }
    } else {
        assert(s[i] == l);
        lemma_find_item_push(remove_items(f, gone), l, name);
    }
}

/// Changing the configuration of an item keeps every name findable.
proof fn lemma_config_update_keeps(v: Seq<DeviceConfigItem>, i: int, name: Seq<char>)
    requires
        0 <= i < v.len(),
        item_views(v)[i].name == name,
    ensures
        forall|c: KeydConfig|
            #[trigger] find_item(
                item_views(v.update(i, DeviceConfigItem { name: v[i].name, config: c })),
                name,
            ) is Some,
{
    assert forall|c: KeydConfig|
        #[trigger] find_item(
            item_views(v.update(i, DeviceConfigItem { name: v[i].name, config: c })),
            name,
        ) is Some by {
        let w = v.update(i, DeviceConfigItem { name: v[i].name, config: c });
        assert(item_views(w)[i].name == name);
        lemma_find_item_at(item_views(w), name, i);
    }
}

/// Index of the first item named `name`.
fn item_index(items: &Vec<DeviceConfigItem>, name: &[char]) -> (r: Option<usize>)
    ensures
        match r {
            Some(i) => find_item(item_views(items@), name@) == Some(i as nat) && i < items@.len(),
            None => find_item(item_views(items@), name@) is None,
        },
{
    proof {
        lemma_find_item(item_views(items@), name@);
    }
    let n = items.len();
    for k in 0..n
        invariant
            n == items@.len(),
            forall|j: int| 0 <= j < k ==> item_views(items@)[j].name != name@,
    {
        let nm = chars_of(items[k].name.as_str());
        if chars_eq(nm.as_slice(), name) {
            proof {
                let iv = item_views(items@);
                assert(iv[k as int].name == name@);
                lemma_find_item(iv, name@);
                match find_item(iv, name@) {
                    Some(f) => {
                        if (f as int) < (k as int) {
                            assert(iv[f as int].name != name@);
                        } else if (f as int) > (k as int) {
                            assert(iv[k as int].name != name@);
                        }
                    },
                    None => {
                        assert(iv[k as int].name != name@);
                    },
                }
            }
            return Some(k);
        }
    }
    None
}

/// Items stably sorted by name.
fn sorted_items(items: Vec<DeviceConfigItem>) -> (r: Vec<DeviceConfigItem>)
    ensures
        item_views(r@) == sort_items(item_views(items@)),
{
    let ghost all = item_views(items@);
    let n = items.len();
    let mut sorted: Vec<DeviceConfigItem> = Vec::new();
    let mut rest = items;
    for i in 0..n
        invariant
            n == all.len(),
            item_views(rest@) == all.skip(i as int),
            item_views(sorted@) == sort_items(all.take(i as int)),
    {
        let ghost rv = item_views(rest@);
        assert(rv.len() == rest@.len());
        assert(rv[0] == all[i as int]);
        let x = rest.remove(0);
        assert(item_views(rest@) == rv.drop_first());
        assert(all.skip(i as int).drop_first() == all.skip(i + 1));
        assert(all.take(i + 1).drop_last() == all.take(i as int));
        let xc = chars_of(x.name.as_str());
        let ghost sv = item_views(sorted@);
        let ms = sorted.len();
        let mut p: usize = 0;
        while p < ms && !chars_lt(xc.as_slice(), chars_of(sorted[p].name.as_str()).as_slice())
            invariant
                ms == sorted@.len(),
                sv == item_views(sorted@),
                xc@ == x@.name,
                0 <= p <= ms,
                forall|j: int| 0 <= j < p ==> !seq_lt(x@.name, #[trigger] sv[j].name),
            decreases ms - p,
        {
            p = p + 1;
        }
        proof {
            lemma_insert_item_at(sv, x@, p as int);
        }
        sorted.insert(p, x);
        assert(item_views(sorted@) == sv.insert(p as int, x@));
    }
    assert(all.take(n as int) == all);
    sorted
}

/// `"main"`
fn main_string() -> (s: String)
    ensures
        s@ == main_name(),
{
    let v: Vec<char> = vec!['m', 'a', 'i', 'n'];
    string_of(v.as_slice())
}

/// The configuration a new device starts with.
pub fn fresh_device_config() -> (c: KeydConfig)
    ensures
        c@ == fresh_config(),
{
    let star: Vec<char> = vec!['*'];
    let mut ids: Vec<String> = Vec::new();
    ids.push(string_of(star.as_slice()));
    let mut layers: Vec<Layer> = Vec::new();
    layers.push(Layer { name: main_string(), modifiers: Vec::new(), mappings: Mappings::new() });
    let c = KeydConfig { ids, layers };
    assert(c@.ids[0] == wildcard_id());
    assert(c@.ids == fresh_config().ids);
    assert(c@.layers[0] == fresh_config().layers[0]);
    assert(c@.layers == fresh_config().layers);
    c
}

/// The file a device configuration is kept in: its name and `.conf`.
pub fn config_file_name(name: &str) -> (r: String)
    ensures
        r@ == name@ + conf_suffix(),
{
    let mut r = string_of(chars_of(name).as_slice());
    let suffix: Vec<char> = vec!['.', 'c', 'o', 'n', 'f'];
    push_chars(&mut r, suffix.as_slice());
    r
}

/// What to do with a request to rename a profile.
pub enum ProfileRename {
    /// The new name is empty or the old one.
    Unchanged,
    /// Rename the profile's folder to this name, unless one exists.
    Proceed(String),
}

/// Decide on a request to rename profile `old_name` to `requested`
/// (trimmed).
pub fn check_profile_rename(old_name: &str, requested: &str) -> (r: ProfileRename)
    ensures
        match r {
            ProfileRename::Unchanged => trim(requested@).len() == 0 || trim(requested@)
                == old_name@,
            ProfileRename::Proceed(n) => n@ == trim(requested@) && n@.len() > 0 && n@
                != old_name@,
        },
{
    let req = chars_of(requested);
    let new_name = trim_chars(req.as_slice());
    let old_chars = chars_of(old_name);
    if new_name.len() == 0 || chars_eq(new_name.as_slice(), old_chars.as_slice()) {
        ProfileRename::Unchanged
    } else {
        ProfileRename::Proceed(string_of(new_name.as_slice()))
    }
}

/// The names without those equal to `name`.
pub open spec fn drop_name(s: Seq<Seq<char>>, name: Seq<char>) -> Seq<Seq<char>>
    decreases s.len(),
{
    if s.len() == 0 {
        s
    } else if s.last() == name {
        drop_name(s.drop_last(), name)
    } else {
        drop_name(s.drop_last(), name).push(s.last())
    }
}

proof fn lemma_drop_name_absent(s: Seq<Seq<char>>, name: Seq<char>)
    requires
        !s.contains(name),
    ensures
        drop_name(s, name) == s,
    decreases s.len(),
{
    if s.len() > 0 {
        let f = s.drop_last();
        assert(!f.contains(name)) by {
            if f.contains(name) {
                let m = choose|m: int| 0 <= m < f.len() && f[m] == name;
                assert(s[m] == name);
            }
        }
        lemma_drop_name_absent(f, name);
        assert(s[s.len() - 1] == s.last());
        assert(f.push(s.last()) == s);
    }
}

/// The set of selected profile names after `old_name` was renamed to
/// `new_name`: when `old_name` was selected, it leaves and `new_name`
/// comes in (once); otherwise nothing changes.
pub open spec fn renamed_selection(s: Seq<Seq<char>>, old_name: Seq<char>, new_name: Seq<char>) -> Seq<
    Seq<char>,
> {
    if s.contains(old_name) {
        if drop_name(s, old_name).contains(new_name) {
            drop_name(s, old_name)
        } else {
            drop_name(s, old_name).push(new_name)
        }
    } else {
        s
    }
}

/// Carry the selection of a renamed profile over to its new name.
pub fn rename_selected(selected: Vec<String>, old_name: &str, new_name: String) -> (r: Vec<
    String,
>)
    ensures
        string_views(r@) == renamed_selection(string_views(selected@), old_name@, new_name@),
{
    let ghost all = string_views(selected@);
    let oc = chars_of(old_name);
    let n = selected.len();
    let mut kept: Vec<String> = Vec::new();
    let mut found = false;
    let mut rest = selected;
    for i in 0..n
        invariant
            n == all.len(),
            oc@ == old_name@,
            string_views(rest@) == all.skip(i as int),
            string_views(kept@) == drop_name(all.take(i as int), old_name@),
            found == all.take(i as int).contains(old_name@),
    {
        let ghost rv = string_views(rest@);
        assert(rv.len() == rest@.len());
        assert(rv[0] == all[i as int]);
        let x = rest.remove(0);
        assert(string_views(rest@) == rv.drop_first());
        assert(all.skip(i as int).drop_first() == all.skip(i + 1));
        let ghost t = all.take(i + 1);
        assert(t.drop_last() == all.take(i as int));
        assert(t.last() == x@);
        assert(t.contains(old_name@) == (all.take(i as int).contains(old_name@) || x@ == old_name@)) by {
            if t.contains(old_name@) {
                let m = choose|m: int| 0 <= m < t.len() && t[m] == old_name@;
                if m < i {
                    assert(all.take(i as int)[m] == t[m]);
                }
            }
            if all.take(i as int).contains(old_name@) {
                let m = choose|m: int| 0 <= m < i && all.take(i as int)[m] == old_name@;
                assert(t[m] == old_name@);
            }
            if x@ == old_name@ {
                assert(t[i as int] == old_name@);
            }
        }
        if chars_eq(chars_of(x.as_str()).as_slice(), oc.as_slice()) {
            found = true;
        } else {
            let ghost before = string_views(kept@);
            kept.push(x);
            assert(string_views(kept@) == before.push(x@));
        }
    }
    assert(all.take(n as int) == all);
    assert(string_views(kept@) == drop_name(all, old_name@));
    assert(found == all.contains(old_name@));
    if !found {
        proof {
            lemma_drop_name_absent(all, old_name@);
        }
    }
    if found {
        let nc = chars_of(new_name.as_str());
        if !contains_string(&kept, nc.as_slice()) {
            let ghost before = string_views(kept@);
            kept.push(new_name);
            assert(string_views(kept@) == before.push(nc@));
        }
    }
    kept
}

impl ProfileEditor {
    /// Open a profile with the given device configurations: they are
    /// sorted by name and the first is selected with its `main` layer.
    pub fn open(items: Vec<DeviceConfigItem>) -> (e: Self)
        ensures
            e@.items == sort_items(item_views(items@)),
            items_sorted(e@.items),
            (e@.active_config, e@.active_layer) == select_first(e@.items),
            selection_ok(e@),
    {
        proof {
            lemma_sort_items_sorted(item_views(items@));
        }
        let sorted = sorted_items(items);
        let mut e = ProfileEditor {
            device_configs: sorted,
            active_device_config: None,
            active_layer: None,
        };
        e.select_first();
        proof {
            if e@.items.len() > 0 {
                lemma_find_item_at(e@.items, e@.items[0].name, 0);
            }
        }
        e
    }

    /// Select the first item and its `main` layer, or nothing.
    fn select_first(&mut self)
        ensures
            final(self)@.items == old(self)@.items,
            (final(self)@.active_config, final(self)@.active_layer) == select_first(
                old(self)@.items,
            ),
    {
        if self.device_configs.len() > 0 {
            let name = self.device_configs[0].name.clone();
            self.active_device_config = Some(name);
            self.active_layer = Some(main_string());
        } else {
            self.active_device_config = None;
            self.active_layer = None;
        }
    }

    /// The profile was closed: no device configurations and none selected;
    /// the layer selection is left as it was.
    pub fn close(&mut self)
        ensures
            final(self)@.items.len() == 0,
            final(self)@.active_config is None,
            final(self)@.active_layer == old(self)@.active_layer,
            selection_ok(final(self)@),
    {
        self.device_configs = Vec::new();
        self.active_device_config = None;
    }

    /// Select a device configuration and its `main` layer.
    pub fn select_device_config(&mut self, name: String)
        ensures
            final(self)@.items == old(self)@.items,
            final(self)@.active_config == Some(name@),
            final(self)@.active_layer == Some(main_name()),
            find_item(old(self)@.items, name@) is Some ==> selection_ok(final(self)@),
    {
        self.active_device_config = Some(name);
        self.active_layer = Some(main_string());
    }

    /// Select a layer.
    pub fn select_layer(&mut self, name: String)
        ensures
            final(self)@.items == old(self)@.items,
            final(self)@.active_config == old(self)@.active_config,
            final(self)@.active_layer == Some(name@),
            selection_ok(old(self)@) ==> selection_ok(final(self)@),
    {
        self.active_layer = Some(name);
    }

    /// The names of the device configurations.
    pub fn names(&self) -> (r: Vec<String>)
        ensures
            string_views(r@) == item_names(self@.items),
    {
        let mut r: Vec<String> = Vec::new();
        let n = self.device_configs.len();
        for i in 0..n
            invariant
                n == self.device_configs@.len(),
                string_views(r@) == item_names(self@.items).take(i as int),
        {
            let ghost before = string_views(r@);
            r.push(self.device_configs[i].name.clone());
            assert(string_views(r@) == before.push(self@.items[i as int].name));
            assert(item_names(self@.items).take(i + 1) == item_names(self@.items).take(i as int).push(
                self@.items[i as int].name,
            ));
        }
        assert(item_names(self@.items).take(n as int) == item_names(self@.items));
        r
    }

    /// Add a device configuration under the first free name `device_N`,
    /// holding the configuration a new device starts with; keep the list
    /// sorted and select it with its `main` layer. Returns the name.
    pub fn new_device_config(&mut self) -> (name: String)
        requires
            old(self)@.items.len() < usize::MAX,
        ensures
            exists|i: nat|
                is_first_free(device_prefix(), item_names(old(self)@.items), i) && name@
                    == numbered(device_prefix(), i),
            final(self)@.items == sort_items(
                old(self)@.items.push(ItemView { name: name@, config: fresh_config() }),
            ),
            items_sorted(final(self)@.items),
            final(self)@.active_config == Some(name@),
            final(self)@.active_layer == Some(main_name()),
            selection_ok(final(self)@),
    {
        let names = self.names();
        assert(names@.len() == string_views(names@).len());
        let pre: Vec<char> = vec!['d', 'e', 'v', 'i', 'c', 'e', '_'];
        let prefix = string_of(pre.as_slice());
        assert(prefix@ == device_prefix());
        let name = first_free_name(prefix.as_str(), &names);
        let mut items: Vec<DeviceConfigItem> = Vec::new();
        std::mem::swap(&mut items, &mut self.device_configs);
        let ghost before = item_views(items@);
        items.push(DeviceConfigItem { name: name.clone(), config: fresh_device_config() });
        assert(item_views(items@) == before.push(ItemView { name: name@, config: fresh_config() }));
        self.device_configs = sorted_items(items);
        proof {
            lemma_sort_items_sorted(item_views(items@));
            lemma_find_item_push(before, ItemView { name: name@, config: fresh_config() }, name@);
            lemma_sort_items_keeps(item_views(items@), name@);
        }
        self.active_device_config = Some(name.clone());
        self.active_layer = Some(main_string());
        name
    }

    /// Drop the device configurations named `name`; when it was selected,
    /// select the first remaining one (or nothing).
    pub fn delete_device_config(&mut self, name: &str)
        ensures
            final(self)@.items == remove_items(old(self)@.items, name@),
            items_sorted(old(self)@.items) ==> items_sorted(final(self)@.items),
            old(self)@.active_config == Some(name@) ==> (
            final(self)@.active_config,
            final(self)@.active_layer,
            ) == select_first(final(self)@.items),
            old(self)@.active_config != Some(name@) ==> final(self)@.active_config == old(self)@.active_config && final(self)@.active_layer == old(self)@.active_layer,
            selection_ok(old(self)@) ==> selection_ok(final(self)@),
    {
        let nm = chars_of(name);
        let mut items: Vec<DeviceConfigItem> = Vec::new();
        std::mem::swap(&mut items, &mut self.device_configs);
        let ghost all = item_views(items@);
        let n = items.len();
        let mut kept: Vec<DeviceConfigItem> = Vec::new();
        let mut rest = items;
        for i in 0..n
            invariant
                n == all.len(),
                nm@ == name@,
                item_views(rest@) == all.skip(i as int),
                item_views(kept@) == remove_items(all.take(i as int), name@),
        {
            let ghost rv = item_views(rest@);
            assert(rv.len() == rest@.len());
            assert(rv[0] == all[i as int]);
            let x = rest.remove(0);
            assert(item_views(rest@) == rv.drop_first());
            assert(all.skip(i as int).drop_first() == all.skip(i + 1));
            assert(all.take(i + 1).drop_last() == all.take(i as int));
            let xn = chars_of(x.name.as_str());
            if !chars_eq(xn.as_slice(), nm.as_slice()) {
                let ghost before = item_views(kept@);
                kept.push(x);
                assert(item_views(kept@) == before.push(x@));
            }
        }
        assert(all.take(n as int) == all);
        proof {
            if items_sorted(all) {
                lemma_remove_items_sorted(all, name@);
            }
        }
        self.device_configs = kept;
        let was_active = match &self.active_device_config {
            Some(a) => chars_eq(chars_of(a.as_str()).as_slice(), nm.as_slice()),
            None => false,
        };
        if was_active {
            self.select_first();
        }
        proof {
            if selection_ok(old(self)@) {
                if was_active {
                    if self@.items.len() > 0 {
                        lemma_find_item_at(self@.items, self@.items[0].name, 0);
                    }
                } else {
                    match old(self)@.active_config {
                        Some(a) => {
                            lemma_remove_items_keeps(all, name@, a);
                        },
                        None => {},
                    }
                }
            }
        }
    }

    /// Decide on a request to rename device configuration `old_name` to
    /// `requested` (trimmed).
    pub fn check_device_config_rename(&self, old_name: &str, requested: &str) -> (r: DeviceRename)
        ensures
            match r {
                DeviceRename::Unchanged => trim(requested@).len() == 0 || trim(requested@)
                    == old_name@,
                DeviceRename::AlreadyExists(n) => n@ == trim(requested@) && n@.len() > 0 && n@
                    != old_name@ && find_item(self@.items, n@) is Some,
                DeviceRename::Proceed(n) => n@ == trim(requested@) && n@.len() > 0 && n@
                    != old_name@ && find_item(self@.items, n@) is None,
            },
    {
        let req = chars_of(requested);
        let new_name = trim_chars(req.as_slice());
        let old_chars = chars_of(old_name);
        if new_name.len() == 0 || chars_eq(new_name.as_slice(), old_chars.as_slice()) {
            return DeviceRename::Unchanged;
        }
        let s = string_of(new_name.as_slice());
        if item_index(&self.device_configs, new_name.as_slice()).is_some() {
            DeviceRename::AlreadyExists(s)
        } else {
            DeviceRename::Proceed(s)
        }
    }

    /// After the file was renamed: rename the first configuration named
    /// `old_name`, move the selection with it, and keep the list sorted.
    pub fn apply_device_config_rename(&mut self, old_name: &str, new_name: String)
        ensures
            match find_item(old(self)@.items, old_name@) {
                Some(i) => final(self)@.items == sort_items(
                    old(self)@.items.update(
                        i as int,
                        ItemView { name: new_name@, config: old(self)@.items[i as int].config },
                    ),
                ),
                None => final(self)@.items == sort_items(old(self)@.items),
            },
            items_sorted(final(self)@.items),
            old(self)@.active_config == Some(old_name@) ==> final(self)@.active_config == Some(
                new_name@,
            ),
            old(self)@.active_config != Some(old_name@) ==> final(self)@.active_config == old(self)@.active_config,
            final(self)@.active_layer == old(self)@.active_layer,
            selection_ok(old(self)@) ==> selection_ok(final(self)@),
    {
        let oc = chars_of(old_name);
        let mut items: Vec<DeviceConfigItem> = Vec::new();
        std::mem::swap(&mut items, &mut self.device_configs);
        let ghost before = item_views(items@);
        match item_index(&items, oc.as_slice()) {
            Some(i) => {
                let mut it = items.remove(i);
                it.name = new_name.clone();
                items.insert(i, it);
                assert(item_views(items@) == before.update(
                    i as int,
                    ItemView { name: new_name@, config: before[i as int].config },
                ));
            },
            None => {},
        }
        let was_active = match &self.active_device_config {
            Some(a) => chars_eq(chars_of(a.as_str()).as_slice(), oc.as_slice()),
            None => false,
        };
        if was_active {
            self.active_device_config = Some(new_name);
        }
        proof {
            lemma_sort_items_sorted(item_views(items@));
            if selection_ok(old(self)@) {
                match old(self)@.active_config {
                    Some(a) => {
                        lemma_find_item(before, a);
                        lemma_find_item(before, old_name@);
                        let j = find_item(before, a).unwrap() as int;
                        match find_item(before, old_name@) {
                            Some(i) => {
                                if a == old_name@ {
                                    lemma_find_item_at(item_views(items@), new_name@, i as int);
                                    lemma_sort_items_keeps(item_views(items@), new_name@);
                                } else {
                                    assert(item_views(items@)[j] == before[j]);
                                    lemma_find_item_at(item_views(items@), a, j);
                                    lemma_sort_items_keeps(item_views(items@), a);
                                }
                            },
                            None => {
                                lemma_sort_items_keeps(item_views(items@), a);
                            },
                        }
                    },
                    None => {},
                }
            }
        }
        self.device_configs = sorted_items(items);
    }

    /// The selected device configuration, for editing in place.
    pub fn active_config_mut(&mut self) -> (r: Option<&mut KeydConfig>)
        ensures
            match active_index(old(self)@) {
                Some(i) => r matches Some(c) && *c == old(self).device_configs@[i as int].config
                    && final(self).device_configs@ == old(self).device_configs@.update(
                    i as int,
                    DeviceConfigItem {
                        name: old(self).device_configs@[i as int].name,
                        config: *final(c),
                    },
                ) && final(self).active_device_config == old(self).active_device_config
                    && final(self).active_layer == old(self).active_layer,
                None => r is None && *final(self) == *old(self),
            },
            selection_ok(old(self)@) ==> selection_ok(final(self)@),
    {
        let idx = match &self.active_device_config {
            Some(a) => item_index(&self.device_configs, chars_of(a.as_str()).as_slice()),
            None => None,
        };
        match idx {
            Some(i) => {
                proof {
                    lemma_find_item(old(self)@.items, old(self)@.active_config.unwrap());
                    lemma_config_update_keeps(
                        old(self).device_configs@,
                        i as int,
                        old(self)@.active_config.unwrap(),
                    );
                }
                Some(&mut self.device_configs[i].config)
            },
            None => None,
        }
    }

    /// What saving the selected device configuration writes: the file
    /// name (`name.conf`) and the text of the configuration.
    pub fn save_target(&self) -> (r: Option<(String, String)>)
        ensures
            match active_index(self@) {
                Some(i) => r matches Some((f, t)) && f@ == self@.items[i as int].name
                    + conf_suffix() && t@ == render(self@.items[i as int].config),
                None => r is None,
            },
    {
        let idx = match &self.active_device_config {
            Some(a) => item_index(&self.device_configs, chars_of(a.as_str()).as_slice()),
            None => None,
        };
        match idx {
            Some(i) => {
                let item = &self.device_configs[i];
                Some((config_file_name(item.name.as_str()), item.config.to_string()))
            },
            None => None,
        }
    }

    /// After layer `name` was deleted: a selection of it moves to `main`.
    pub fn layer_deleted(&mut self, name: &str)
        ensures
            final(self)@.items == old(self)@.items,
            final(self)@.active_config == old(self)@.active_config,
            old(self)@.active_layer == Some(name@) ==> final(self)@.active_layer == Some(
                main_name(),
            ),
            old(self)@.active_layer != Some(name@) ==> final(self)@.active_layer == old(self)@.active_layer,
            selection_ok(old(self)@) ==> selection_ok(final(self)@),
    {
        let nm = chars_of(name);
        let hit = match &self.active_layer {
            Some(a) => chars_eq(chars_of(a.as_str()).as_slice(), nm.as_slice()),
            None => false,
        };
        if hit {
            self.active_layer = Some(main_string());
        }
    }

    /// After layer `old_name` was renamed: a selection of it follows.
    pub fn layer_renamed(&mut self, old_name: &str, new_name: String)
        ensures
            final(self)@.items == old(self)@.items,
            final(self)@.active_config == old(self)@.active_config,
            old(self)@.active_layer == Some(old_name@) ==> final(self)@.active_layer == Some(
                new_name@,
            ),
            old(self)@.active_layer != Some(old_name@) ==> final(self)@.active_layer == old(self)@.active_layer,
            selection_ok(old(self)@) ==> selection_ok(final(self)@),
    {
        let nm = chars_of(old_name);
        let hit = match &self.active_layer {
            Some(a) => chars_eq(chars_of(a.as_str()).as_slice(), nm.as_slice()),
            None => false,
        };
        if hit {
            self.active_layer = Some(new_name);
        }
    }
}

} // verus!
