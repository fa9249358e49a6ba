//! Input devices as the kernel lists them in `/proc/bus/input/devices`:
//! reading the list into `(name, vendor:product)` entries, sorted by
//! name with repeated entries dropped.
use vstd::prelude::*;

use crate::action::starts_with;
use crate::text::{
    chars_eq, chars_lt, chars_of, is_whitespace, is_ws, lemma_split_acc_append,
    lemma_split_acc_no_newline, push_char, push_chars, seq_lt, slice_chars, split_acc, split_lines,
    string_of, views,
};

verus! {

/// A detected input device.
#[derive(Clone, Debug)]
pub struct DeviceInfo {
    pub name: String,
    pub id: String,
}

/// A device as values.
#[verifier::ext_equal]
pub struct DeviceView {
    pub name: Seq<char>,
    pub id: Seq<char>,
}

impl View for DeviceInfo {
    type V = DeviceView;

    open spec fn view(&self) -> DeviceView {
        DeviceView { name: self.name@, id: self.id@ }
    }
}

/// The views of a sequence of devices.
pub open spec fn device_views(v: Seq<DeviceInfo>) -> Seq<DeviceView> {
    v.map_values(|d: DeviceInfo| d@)
}

/// A line without the `'\r'` of a `"\r\n"` line ending.
pub open spec fn strip_cr(l: Seq<char>) -> Seq<char> {
    if l.len() > 0 && l.last() == '\r' {
        l.drop_last()
    } else {
        l
    }
}

/// `str::lines`: split at `"\n"` or `"\r\n"`; a last line is kept only if
/// it is not empty.
pub open spec fn std_lines(s: Seq<char>) -> Seq<Seq<char>> {
    let (done, cur) = split_acc(s);
    let ended = done.map_values(|l: Seq<char>| strip_cr(l));
    if cur.len() > 0 {
        ended.push(cur)
    } else {
        ended
    }
}

/// Scan of `str::split_whitespace`: words so far and the word being read.
pub open spec fn words_acc(s: Seq<char>) -> (Seq<Seq<char>>, Seq<char>)
    decreases s.len(),
{
    if s.len() == 0 {
        (seq![], seq![])
    } else {
        let (done, cur) = words_acc(s.drop_last());
        if is_ws(s.last()) {
            if cur.len() > 0 {
                (done.push(cur), seq![])
            } else {
                (done, cur)
            }
        } else {
            (done, cur.push(s.last()))
        }
    }
}

/// `str::split_whitespace`: the maximal runs of non-whitespace characters.
pub open spec fn words_of(s: Seq<char>) -> Seq<Seq<char>> {
    let (done, cur) = words_acc(s);
    if cur.len() > 0 {
        done.push(cur)
    } else {
        done
    }
}

/// `"I: "`, the line giving bus, vendor, product and version.
pub open spec fn id_line_prefix() -> Seq<char> {
    seq!['I', ':', ' ']
}

/// `"N: Name=\""`, the line giving the device name.
pub open spec fn name_line_prefix() -> Seq<char> {
    seq!['N', ':', ' ', 'N', 'a', 'm', 'e', '=', '"']
}

/// `"Vendor="`
pub open spec fn vendor_key() -> Seq<char> {
    seq!['V', 'e', 'n', 'd', 'o', 'r', '=']
}

/// `"Product="`
pub open spec fn product_key() -> Seq<char> {
    seq!['P', 'r', 'o', 'd', 'u', 'c', 't', '=']
}

/// `"Unknown Device"`
pub open spec fn unknown_device() -> Seq<char> {
    seq!['U', 'n', 'k', 'n', 'o', 'w', 'n', ' ', 'D', 'e', 'v', 'i', 'c', 'e']
}

/// Vendor and product read from the words of an `I:` line; a later
/// `Vendor=` or `Product=` word overrides an earlier one.
pub open spec fn vendor_product(words: Seq<Seq<char>>) -> (Seq<char>, Seq<char>)
    decreases words.len(),
{
    if words.len() == 0 {
        (seq![], seq![])
    } else {
        let (v, p) = vendor_product(words.drop_last());
        let w = words.last();
        if starts_with(w, vendor_key()) {
            (w.skip(7), p)
        } else if starts_with(w, product_key()) {
            (v, w.skip(8))
        } else {
            (v, p)
        }
    }
}

/// Reader state: devices so far, and the name and id of the device block
/// being read.
#[verifier::ext_equal]
pub struct DevState {
    pub devices: Seq<DeviceView>,
    pub name: Seq<char>,
    pub id: Seq<char>,
}

/// The device a finished block describes.
pub open spec fn block_device(name: Seq<char>, id: Seq<char>) -> DeviceView {
    DeviceView {
        name: if name.len() == 0 {
            unknown_device()
        } else {
            name
        },
        id,
    }
}

/// Read one line of the device list.
pub open spec fn dev_step(st: DevState, line: Seq<char>) -> DevState {
    if starts_with(line, id_line_prefix()) {
        let (v, p) = vendor_product(words_of(line));
        if v.len() > 0 && p.len() > 0 {
            DevState { devices: st.devices, name: st.name, id: v + seq![':'] + p }
        } else {
            st
        }
    } else if starts_with(line, name_line_prefix()) {
        DevState { devices: st.devices, name: line.subrange(9, line.len() - 1), id: st.id }
    } else if line.len() == 0 {
        DevState {
            devices: if st.id.len() > 0 {
                st.devices.push(block_device(st.name, st.id))
            } else {
                st.devices
            },
            name: seq![],
            id: seq![],
        }
    } else {
        st
    }
}

/// Read lines one after another.
pub open spec fn dev_run(ls: Seq<Seq<char>>) -> DevState
    decreases ls.len(),
{
    if ls.len() == 0 {
        DevState { devices: seq![], name: seq![], id: seq![] }
    } else {
        dev_step(dev_run(ls.drop_last()), ls.last())
    }
}

/// Insert `d` after every device whose name is not greater.
pub open spec fn insert_by_name(s: Seq<DeviceView>, d: DeviceView) -> Seq<DeviceView>
    decreases s.len(),
{
    if s.len() == 0 {
        seq![d]
    } else if seq_lt(d.name, s[0].name) {
        seq![d] + s
    } else {
        seq![s[0]] + insert_by_name(s.drop_first(), d)
    }
}

/// Devices stably sorted by name.
pub open spec fn sort_by_name(s: Seq<DeviceView>) -> Seq<DeviceView>
    decreases s.len(),
{
    if s.len() == 0 {
        s
    } else {
        insert_by_name(sort_by_name(s.drop_last()), s.last())
    }
}

/// The devices in order, each entry equal in name and id to an earlier
/// one dropped.
pub open spec fn dedup(s: Seq<DeviceView>) -> Seq<DeviceView>
    decreases s.len(),
{
    if s.len() == 0 {
        s
    } else if s.drop_last().contains(s.last()) {
        dedup(s.drop_last())
    } else {
        dedup(s.drop_last()).push(s.last())
    }
}

/// The devices the list describes: one per block that gave an id (the
/// last block needs no blank line after it), sorted by name, every entry
/// equal in name and id to an earlier one dropped.
pub open spec fn devices_of(content: Seq<char>) -> Seq<DeviceView> {
    let st = dev_run(std_lines(content));
    let all = if st.id.len() > 0 {
        st.devices.push(block_device(st.name, st.id))
    } else {
        st.devices
    };
    dedup(sort_by_name(all))
}

/// Cutting the name out of every `N: Name="` line would not panic: the
/// line is longer than its prefix and ends in a one-byte character.
pub open spec fn name_lines_ok(content: Seq<char>) -> bool {
    forall|i: int|
        0 <= i < std_lines(content).len() && !starts_with(
            #[trigger] std_lines(content)[i],
            id_line_prefix(),
        ) && starts_with(std_lines(content)[i], name_line_prefix()) ==> std_lines(content)[i].len()
            >= 10 && (std_lines(content)[i].last() as u32) < 128
}

pub proof fn lemma_insert_by_name_at(s: Seq<DeviceView>, d: DeviceView, p: int)
    requires
        0 <= p <= s.len(),
        forall|j: int| 0 <= j < p ==> !seq_lt(d.name, #[trigger] s[j].name),
        p < s.len() ==> seq_lt(d.name, s[p].name),
    ensures
        insert_by_name(s, d) == s.insert(p, d),
    decreases s.len(),
{
    if s.len() == 0 {
        assert(s.insert(0, d) == seq![d]);
    } else if p == 0 {
        assert(s.insert(0, d) == seq![d] + s);
    } else {
        let t = s.drop_first();
        assert forall|j: int| 0 <= j < p - 1 implies !seq_lt(d.name, #[trigger] t[j].name) by {
            assert(t[j] == s[j + 1]);
        }
        if p < s.len() {
            assert(t[p - 1] == s[p]);
        }
        lemma_insert_by_name_at(t, d, p - 1);
        assert(seq![s[0]] + t.insert(p - 1, d) == s.insert(p, d));
    }
}

/// Names never decrease along the list.
pub open spec fn names_sorted(s: Seq<DeviceView>) -> bool {
    forall|i: int, j: int| 0 <= i < j < s.len() ==> !seq_lt(#[trigger] s[j].name, #[trigger] s[i].name)
}

proof fn lemma_insert_by_name_members(s: Seq<DeviceView>, d: DeviceView, i: int)
    requires
        0 <= i < insert_by_name(s, d).len(),
    ensures
        insert_by_name(s, d).len() == s.len() + 1,
        insert_by_name(s, d)[i] == d || exists|m: int|
            0 <= m < s.len() && s[m] == #[trigger] insert_by_name(s, d)[i],
    decreases s.len(),
{
    let r = insert_by_name(s, d);
    if s.len() == 0 {
    } else if seq_lt(d.name, s[0].name) {
        if i > 0 {
            assert(r[i] == s[i - 1]);
        }
    } else {
        let t = s.drop_first();
        if i == 0 {
            assert(r[0] == s[0]);
            lemma_insert_by_name_members(t, d, 0);
        } else {
            assert(r[i] == insert_by_name(t, d)[i - 1]);
            lemma_insert_by_name_members(t, d, i - 1);
            if insert_by_name(t, d)[i - 1] != d {
                let m = choose|m: int|
                    0 <= m < t.len() && t[m] == #[trigger] insert_by_name(t, d)[i - 1];
                assert(t[m] == s[m + 1]);
            }
        }
    }
}

proof fn lemma_insert_by_name_sorted(s: Seq<DeviceView>, d: DeviceView)
    requires
        names_sorted(s),
    ensures
        names_sorted(insert_by_name(s, d)),
    decreases s.len(),
{
    let r = insert_by_name(s, d);
    if s.len() == 0 {
    } else if seq_lt(d.name, s[0].name) {
        assert forall|i: int, j: int| 0 <= i < j < r.len() implies !seq_lt(
            #[trigger] r[j].name,
            #[trigger] r[i].name,
        ) by {
            if i == 0 {
                assert(r[j] == s[j - 1]);
                if seq_lt(s[j - 1].name, d.name) {
                    crate::text::lemma_seq_lt_transitive(s[j - 1].name, d.name, s[0].name);
                    if j - 1 > 0 {
                    } else {
                        crate::text::lemma_seq_lt_irreflexive(s[0].name);
                    }
                }
            } else {
                assert(r[i] == s[i - 1]);
                assert(r[j] == s[j - 1]);
            }
        }
    } else {
        let t = s.drop_first();
        assert(names_sorted(t)) by {
            assert forall|i: int, j: int| 0 <= i < j < t.len() implies !seq_lt(
                #[trigger] t[j].name,
                #[trigger] t[i].name,
            ) by {
                assert(t[i] == s[i + 1]);
                assert(t[j] == s[j + 1]);
            }
        }
        lemma_insert_by_name_sorted(t, d);
        let u = insert_by_name(t, d);
        assert forall|i: int, j: int| 0 <= i < j < r.len() implies !seq_lt(
            #[trigger] r[j].name,
            #[trigger] r[i].name,
        ) by {
            if i == 0 {
                assert(r[0] == s[0]);
                assert(r[j] == u[j - 1]);
                lemma_insert_by_name_members(t, d, j - 1);
                if u[j - 1] != d {
                    let m = choose|m: int| 0 <= m < t.len() && t[m] == #[trigger] u[j - 1];
                    assert(t[m] == s[m + 1]);
                }
            } else {
                assert(r[i] == u[i - 1]);
                assert(r[j] == u[j - 1]);
            }
        }
    }
}

proof fn lemma_sort_by_name_sorted(s: Seq<DeviceView>)
    ensures
        names_sorted(sort_by_name(s)),
    decreases s.len(),
{
    if s.len() > 0 {
        lemma_sort_by_name_sorted(s.drop_last());
        lemma_insert_by_name_sorted(sort_by_name(s.drop_last()), s.last());
    }
}

/// Dropping repeated devices keeps exactly the devices there were.
pub proof fn lemma_dedup_contains(s: Seq<DeviceView>)
    ensures
        forall|x: DeviceView| dedup(s).contains(x) <==> s.contains(x),
    decreases s.len(),
{
    if s.len() > 0 {
        let f = s.drop_last();
        let x = s.last();
        lemma_dedup_contains(f);
        let r = dedup(f);
        assert forall|y: DeviceView| s.contains(y) <==> (f.contains(y) || y == x) by {
            if s.contains(y) {
                let m = choose|m: int| 0 <= m < s.len() && s[m] == y;
                if m < f.len() {
                    assert(f[m] == y);
                }
            }
            if f.contains(y) {
                let m = choose|m: int| 0 <= m < f.len() && f[m] == y;
                assert(s[m] == y);
            }
            if y == x {
                assert(s[s.len() - 1] == y);
            }
        }
        if !f.contains(x) {
            let d = r.push(x);
            assert forall|y: DeviceView| d.contains(y) <==> (r.contains(y) || y == x) by {
                if d.contains(y) {
                    let m = choose|m: int| 0 <= m < d.len() && d[m] == y;
                    if m < r.len() {
                        assert(r[m] == y);
                    }
                }
                if r.contains(y) {
                    let m = choose|m: int| 0 <= m < r.len() && r[m] == y;
                    assert(d[m] == y);
                }
                if y == x {
                    assert(d[r.len() as int] == y);
                }
            }
        }
    }
}

proof fn lemma_dedup_facts(s: Seq<DeviceView>)
    requires
        names_sorted(s),
    ensures
        names_sorted(dedup(s)),
        forall|i: int, j: int|
            0 <= i < j < dedup(s).len() ==> #[trigger] dedup(s)[i] != #[trigger] dedup(s)[j],
    decreases s.len(),
{
    if s.len() > 0 {
        let f = s.drop_last();
        assert(names_sorted(f)) by {
            assert forall|i: int, j: int| 0 <= i < j < f.len() implies !seq_lt(
                #[trigger] f[j].name,
                #[trigger] f[i].name,
            ) by {
                assert(f[i] == s[i]);
                assert(f[j] == s[j]);
            }
        }
        lemma_dedup_facts(f);
        lemma_dedup_contains(f);
        let r = dedup(f);
        let x = s.last();
        assert(s[s.len() - 1] == x);
        if !f.contains(x) {
            let d = r.push(x);
            assert(d == dedup(s));
            assert forall|i: int, j: int| 0 <= i < j < d.len() implies !seq_lt(
                #[trigger] d[j].name,
                #[trigger] d[i].name,
            ) by {
                assert(d[i] == r[i]);
                if j == r.len() {
                    assert(r.contains(r[i]));
                    assert(f.contains(r[i]));
                    let m = choose|m: int| 0 <= m < f.len() && f[m] == r[i];
                    assert(s[m] == r[i]);
                } else {
                    assert(d[j] == r[j]);
                }
            }
            assert forall|i: int, j: int| 0 <= i < j < d.len() implies #[trigger] d[i]
                != #[trigger] d[j] by {
                assert(d[i] == r[i]);
                if j == r.len() {
                    assert(r.contains(r[i]));
                    assert(f.contains(r[i]));
                } else {
                    assert(d[j] == r[j]);
                }
            }
        }
    }
}

/// The device list comes out sorted by name, no two entries equal in
/// both name and id.
pub proof fn lemma_devices_sorted_distinct(content: Seq<char>)
    ensures
        names_sorted(devices_of(content)),
        forall|i: int, j: int|
            0 <= i < j < devices_of(content).len() ==> #[trigger] devices_of(content)[i]
                != #[trigger] devices_of(content)[j],
{
    let st = dev_run(std_lines(content));
    let all = if st.id.len() > 0 {
        st.devices.push(block_device(st.name, st.id))
    } else {
        st.devices
    };
    lemma_sort_by_name_sorted(all);
    lemma_dedup_facts(sort_by_name(all));
}

// ---------------------------------------------------------------------------
// Device lists joined at block boundaries
// ---------------------------------------------------------------------------

proof fn lemma_insert_by_name_contains(s: Seq<DeviceView>, d: DeviceView)
    ensures
        forall|x: DeviceView| insert_by_name(s, d).contains(x) <==> (s.contains(x) || x == d),
    decreases s.len(),
{
    let r = insert_by_name(s, d);
    if s.len() == 0 {
        assert(r == seq![d]);
        assert forall|x: DeviceView| r.contains(x) <==> (s.contains(x) || x == d) by {
            if x == d {
                assert(r[0] == d);
            }
        }
    } else {
        let t = s.drop_first();
        assert forall|x: DeviceView| s.contains(x) <==> (t.contains(x) || x == s[0]) by {
            if s.contains(x) {
                let m = choose|m: int| 0 <= m < s.len() && s[m] == x;
                if m > 0 {
                    assert(t[m - 1] == x);
                }
            }
            if t.contains(x) {
                let m = choose|m: int| 0 <= m < t.len() && t[m] == x;
                assert(s[m + 1] == x);
            }
            if x == s[0] {
                assert(s.contains(s[0]));
            }
        }
        let (h, rest) = if seq_lt(d.name, s[0].name) {
            (d, s)
        } else {
            (s[0], insert_by_name(t, d))
        };
        if !seq_lt(d.name, s[0].name) {
            lemma_insert_by_name_contains(t, d);
        }
        assert(r == seq![h] + rest);
        assert forall|x: DeviceView| r.contains(x) <==> (rest.contains(x) || x == h) by {
            if r.contains(x) {
                let m = choose|m: int| 0 <= m < r.len() && r[m] == x;
                if m > 0 {
                    assert(rest[m - 1] == x);
                }
            }
            if rest.contains(x) {
                let m = choose|m: int| 0 <= m < rest.len() && rest[m] == x;
                assert(r[m + 1] == x);
            }
            if x == h {
                assert(r[0] == h);
            }
        }
    }
}

proof fn lemma_sort_by_name_contains(s: Seq<DeviceView>)
    ensures
        forall|x: DeviceView| sort_by_name(s).contains(x) <==> s.contains(x),
    decreases s.len(),
{
    if s.len() > 0 {
        let f = s.drop_last();
        lemma_sort_by_name_contains(f);
        lemma_insert_by_name_contains(sort_by_name(f), s.last());
        assert forall|x: DeviceView| s.contains(x) <==> (f.contains(x) || x == s.last()) by {
            if s.contains(x) {
                let m = choose|m: int| 0 <= m < s.len() && s[m] == x;
                if m < f.len() {
                    assert(f[m] == x);
                }
            }
            if f.contains(x) {
                let m = choose|m: int| 0 <= m < f.len() && f[m] == x;
                assert(s[m] == x);
            }
            if x == s.last() {
                assert(s[s.len() - 1] == x);
            }
        }
    }
}

/// The devices read from lines, before sorting: the finished blocks and
/// the block still open at the end.
pub open spec fn all_devices(ls: Seq<Seq<char>>) -> Seq<DeviceView> {
    let st = dev_run(ls);
    if st.id.len() > 0 {
        st.devices.push(block_device(st.name, st.id))
    } else {
        st.devices
    }
}

proof fn lemma_dev_step_shift(d: Seq<DeviceView>, st: DevState, l: Seq<char>)
    ensures
        dev_step(DevState { devices: d + st.devices, name: st.name, id: st.id }, l) == (DevState {
            devices: d + dev_step(st, l).devices,
            name: dev_step(st, l).name,
            id: dev_step(st, l).id,
        }),
{
    let x = block_device(st.name, st.id);
    assert((d + st.devices).push(x) == d + st.devices.push(x));
}

proof fn lemma_dev_run_append(x: Seq<Seq<char>>, y: Seq<Seq<char>>)
    requires
        dev_run(x).name.len() == 0,
        dev_run(x).id.len() == 0,
    ensures
        dev_run(x + y) == (DevState {
            devices: dev_run(x).devices + dev_run(y).devices,
            name: dev_run(y).name,
            id: dev_run(y).id,
        }),
    decreases y.len(),
{
    if y.len() == 0 {
        assert(x + y == x);
        assert(dev_run(x).devices + Seq::<DeviceView>::empty() == dev_run(x).devices);
    } else {
        lemma_dev_run_append(x, y.drop_last());
        assert((x + y).drop_last() == x + y.drop_last());
        assert((x + y).last() == y.last());
        lemma_dev_step_shift(dev_run(x).devices, dev_run(y.drop_last()), y.last());
    }
}

proof fn lemma_std_lines_append(a: Seq<char>, b: Seq<char>)
    requires
        split_acc(a).1.len() == 0,
    ensures
        std_lines(a + b) == std_lines(a) + std_lines(b),
{
    lemma_split_acc_append(a, b);
    let (da, ca) = split_acc(a);
    let (db, cb) = split_acc(b);
    assert((da + db).map_values(|l: Seq<char>| strip_cr(l)) =~= da.map_values(
        |l: Seq<char>| strip_cr(l),
    ) + db.map_values(|l: Seq<char>| strip_cr(l)));
    if cb.len() > 0 {
        assert((da.map_values(|l: Seq<char>| strip_cr(l)) + db.map_values(
            |l: Seq<char>| strip_cr(l),
        )).push(cb) == da.map_values(|l: Seq<char>| strip_cr(l)) + db.map_values(
            |l: Seq<char>| strip_cr(l),
        ).push(cb));
    }
}

/// A device list ending in a blank line leaves no block open.
proof fn lemma_blank_end(a: Seq<char>)
    requires
        a.len() >= 2,
        a[a.len() - 1] == '\n',
        a[a.len() - 2] == '\n',
    ensures
        split_acc(a).1.len() == 0,
        dev_run(std_lines(a)).name.len() == 0,
        dev_run(std_lines(a)).id.len() == 0,
        all_devices(std_lines(a)) == dev_run(std_lines(a)).devices,
{
    let a0 = a.drop_last();
    assert(a0.last() == '\n');
    assert(split_acc(a0).1.len() == 0);
    let ls = std_lines(a);
    assert(split_acc(a).0 == split_acc(a0).0.push(split_acc(a0).1));
    assert(ls.len() > 0);
    assert(ls.last() == strip_cr(Seq::<char>::empty()));
    assert(ls.last() == Seq::<char>::empty());
    assert(!starts_with(Seq::<char>::empty(), id_line_prefix()));
    assert(!starts_with(Seq::<char>::empty(), name_line_prefix()));
}

/// Two device lists, the first ending in a blank line, joined: the devices
/// listed are those of the one and those of the other, and no others.
pub proof fn lemma_devices_concat(a: Seq<char>, b: Seq<char>)
    requires
        a.len() >= 2,
        a[a.len() - 1] == '\n',
        a[a.len() - 2] == '\n',
    ensures
        forall|x: DeviceView|
            #[trigger] devices_of(a + b).contains(x) <==> (devices_of(a).contains(x)
                || devices_of(b).contains(x)),
{
    lemma_blank_end(a);
    lemma_std_lines_append(a, b);
    let la = std_lines(a);
    let lb = std_lines(b);
    lemma_dev_run_append(la, lb);
    let sb = dev_run(lb);
    let all = all_devices(la + lb);
    assert(all == all_devices(la) + all_devices(lb)) by {
        if sb.id.len() > 0 {
            let x = block_device(sb.name, sb.id);
            assert((dev_run(la).devices + sb.devices).push(x) == dev_run(la).devices
                + sb.devices.push(x));
        }
    }
    assert(devices_of(a + b) == dedup(sort_by_name(all)));
    assert(devices_of(a) == dedup(sort_by_name(all_devices(la))));
    assert(devices_of(b) == dedup(sort_by_name(all_devices(lb))));
    lemma_dedup_contains(sort_by_name(all));
    lemma_dedup_contains(sort_by_name(all_devices(la)));
    lemma_dedup_contains(sort_by_name(all_devices(lb)));
    lemma_sort_by_name_contains(all);
    lemma_sort_by_name_contains(all_devices(la));
    lemma_sort_by_name_contains(all_devices(lb));
    let p = all_devices(la);
    let q = all_devices(lb);
    assert forall|x: DeviceView| (p + q).contains(x) <==> (p.contains(x) || q.contains(x)) by {
        if (p + q).contains(x) {
            let m = choose|m: int| 0 <= m < (p + q).len() && (p + q)[m] == x;
            if m < p.len() {
                assert(p[m] == x);
            } else {
                assert(q[m - p.len()] == x);
            }
        }
        if p.contains(x) {
            let m = choose|m: int| 0 <= m < p.len() && p[m] == x;
            assert((p + q)[m] == x);
        }
        if q.contains(x) {
            let m = choose|m: int| 0 <= m < q.len() && q[m] == x;
            assert((p + q)[m + p.len()] == x);
        }
    }
    assert forall|x: DeviceView|
        #[trigger] devices_of(a + b).contains(x) <==> (devices_of(a).contains(x)
            || devices_of(b).contains(x)) by {
        assert(dedup(sort_by_name(all)).contains(x) <==> sort_by_name(all).contains(x));
        assert(sort_by_name(all).contains(x) <==> all.contains(x));
        assert(dedup(sort_by_name(p)).contains(x) <==> sort_by_name(p).contains(x));
        assert(sort_by_name(p).contains(x) <==> p.contains(x));
        assert(dedup(sort_by_name(q)).contains(x) <==> sort_by_name(q).contains(x));
        assert(sort_by_name(q).contains(x) <==> q.contains(x));
    }
}

// ---------------------------------------------------------------------------
// One device block
// ---------------------------------------------------------------------------

/// Text without whitespace.
pub open spec fn no_ws(s: Seq<char>) -> bool {
    forall|i: int| 0 <= i < s.len() ==> !is_ws(#[trigger] s[i])
}

/// The `I:` line of a device block, giving its vendor and product.
pub open spec fn id_line(vendor: Seq<char>, product: Seq<char>) -> Seq<char> {
    id_line_prefix() + vendor_key() + vendor + seq![' '] + product_key() + product
}

/// The `N:` line of a device block, giving its name.
pub open spec fn name_line(name: Seq<char>) -> Seq<char> {
    name_line_prefix() + name + seq!['"']
}

/// One device block as the kernel writes it, ended by a blank line.
pub open spec fn block_text(vendor: Seq<char>, product: Seq<char>, name: Seq<char>) -> Seq<char> {
    id_line(vendor, product) + seq!['\n'] + name_line(name) + seq!['\n', '\n']
}

proof fn lemma_words_word(s: Seq<char>, w: Seq<char>)
    requires
        no_ws(w),
    ensures
        words_acc(s + w) == (words_acc(s).0, words_acc(s).1 + w),
    decreases w.len(),
{
    if w.len() == 0 {
        assert(s + w == s);
        assert(words_acc(s).1 + w == words_acc(s).1);
    } else {
        let w0 = w.drop_last();
        assert(no_ws(w0)) by {
            assert forall|i: int| 0 <= i < w0.len() implies !is_ws(#[trigger] w0[i]) by {
                assert(w0[i] == w[i]);
            }
        }
        lemma_words_word(s, w0);
        assert((s + w).drop_last() == s + w0);
        assert((s + w).last() == w.last());
        assert(!is_ws(w[w.len() - 1]));
        assert((words_acc(s).1 + w0).push(w.last()) == words_acc(s).1 + w);
    }
}

proof fn lemma_no_ws_concat(a: Seq<char>, b: Seq<char>)
    requires
        no_ws(a),
        no_ws(b),
    ensures
        no_ws(a + b),
{
    assert forall|i: int| 0 <= i < (a + b).len() implies !is_ws(#[trigger] (a + b)[i]) by {
        if i < a.len() {
            assert((a + b)[i] == a[i]);
        } else {
            assert((a + b)[i] == b[i - a.len()]);
        }
    }
}

/// The words of an `I:` line: `I:`, `Vendor=...`, `Product=...`.
proof fn lemma_id_line_words(vendor: Seq<char>, product: Seq<char>)
    requires
        no_ws(vendor),
        no_ws(product),
    ensures
        words_of(id_line(vendor, product)) == seq![
            seq!['I', ':'],
            vendor_key() + vendor,
            product_key() + product,
        ],
{
    let e = Seq::<char>::empty();
    let w0 = seq!['I', ':'];
    let w1 = vendor_key() + vendor;
    let w2 = product_key() + product;
    assert(no_ws(w0));
    assert(no_ws(vendor_key()));
    assert(no_ws(product_key()));
    lemma_no_ws_concat(vendor_key(), vendor);
    lemma_no_ws_concat(product_key(), product);
    lemma_words_word(e, w0);
    assert(e + w0 == w0);
    assert(words_acc(e) == (Seq::<Seq<char>>::empty(), e));
    assert(words_acc(w0) == (Seq::<Seq<char>>::empty(), w0));
    let x1 = w0.push(' ');
    assert(x1.drop_last() == w0);
    assert(words_acc(x1) == (seq![w0], e));
    lemma_words_word(x1, w1);
    let x2 = (x1 + w1).push(' ');
    assert(x2.drop_last() == x1 + w1);
    assert(words_acc(x2) == (seq![w0].push(w1), e));
    lemma_words_word(x2, w2);
    assert(e + w1 == w1);
    assert(e + w2 == w2);
    assert(id_line(vendor, product) =~= x2 + w2);
    assert(w2.len() > 0);
    assert(seq![w0].push(w1).push(w2) =~= seq![w0, w1, w2]);
}

/// What an `I:` line gives: its vendor and product.
proof fn lemma_id_line_ids(vendor: Seq<char>, product: Seq<char>)
    requires
        no_ws(vendor),
        no_ws(product),
    ensures
        vendor_product(words_of(id_line(vendor, product))) == (vendor, product),
{
    lemma_id_line_words(vendor, product);
    let w0 = seq!['I', ':'];
    let w1 = vendor_key() + vendor;
    let w2 = product_key() + product;
    let ws = seq![w0, w1, w2];
    assert(!starts_with(w0, vendor_key()));
    assert(!starts_with(w0, product_key()));
    assert(w1.take(7) =~= vendor_key());
    assert(w1.skip(7) =~= vendor);
    assert(w2.take(7)[0] == 'P');
    assert(!starts_with(w2, vendor_key()));
    assert(w2.take(8) =~= product_key());
    assert(w2.skip(8) =~= product);
    assert(seq![w0].drop_last() == Seq::<Seq<char>>::empty());
    assert(seq![w0].last() == w0);
    assert(vendor_product(Seq::<Seq<char>>::empty()) == (Seq::<char>::empty(), Seq::<char>::empty()));
    assert(vendor_product(seq![w0]) == (Seq::<char>::empty(), Seq::<char>::empty()));
    assert(seq![w0, w1].drop_last() == seq![w0]);
    assert(vendor_product(seq![w0, w1]) == (vendor, Seq::<char>::empty()));
    assert(ws.drop_last() == seq![w0, w1]);
}

/// The lines of one device block.
proof fn lemma_block_lines(vendor: Seq<char>, product: Seq<char>, name: Seq<char>)
    requires
        no_ws(vendor),
        no_ws(product),
        product.len() > 0,
        !name.contains('\n'),
    ensures
        std_lines(block_text(vendor, product, name)) == seq![
            id_line(vendor, product),
            name_line(name),
            Seq::<char>::empty(),
        ],
{
    let e = Seq::<char>::empty();
    let l1 = id_line(vendor, product);
    let l2 = name_line(name);
    lemma_no_ws_concat(vendor_key(), vendor);
    assert(no_ws(vendor_key()));
    assert(no_ws(product_key()));
    assert(!l1.contains('\n')) by {
        if l1.contains('\n') {
            let k = choose|k: int| 0 <= k < l1.len() && l1[k] == '\n';
            let n1 = id_line_prefix().len() + vendor_key().len();
            if k < n1 {
            } else if k < n1 + vendor.len() {
                assert(l1[k] == vendor[k - n1]);
                assert(!is_ws(vendor[k - n1]));
            } else if k < n1 + vendor.len() + 1 + product_key().len() {
            } else {
                assert(l1[k] == product[k - (n1 + vendor.len() + 1 + product_key().len())]);
                assert(!is_ws(product[k - (n1 + vendor.len() + 1 + product_key().len())]));
            }
        }
    }
    assert(!l2.contains('\n')) by {
        if l2.contains('\n') {
            let k = choose|k: int| 0 <= k < l2.len() && l2[k] == '\n';
            if 9 <= k < 9 + name.len() {
                assert(l2[k] == name[k - 9]);
            }
        }
    }
    lemma_split_acc_no_newline(e, l1);
    assert(e + l1 == l1);
    assert(split_acc(e) == (Seq::<Seq<char>>::empty(), e));
    let x1 = l1.push('\n');
    assert(x1.drop_last() == l1);
    assert(split_acc(x1) == (seq![l1], e));
    lemma_split_acc_no_newline(x1, l2);
    assert(e + l2 == l2);
    let x2 = (x1 + l2).push('\n');
    assert(x2.drop_last() == x1 + l2);
    assert(split_acc(x2) == (seq![l1, l2], e));
    let x3 = x2.push('\n');
    assert(x3.drop_last() == x2);
    assert(split_acc(x3) == (seq![l1, l2, e], e));
    assert(block_text(vendor, product, name) =~= x3);
    assert(l1.last() == product.last());
    assert(!is_ws(product[product.len() - 1]));
    assert(strip_cr(l1) == l1);
    assert(strip_cr(l2) == l2);
    assert(strip_cr(e) == e);
    assert(seq![l1, l2, e].map_values(|l: Seq<char>| strip_cr(l)) =~= seq![l1, l2, e]);
}

/// A device list of one block, as the kernel writes it, lists exactly that
/// device: its name (or `Unknown Device` when the name is empty) and the
/// id `vendor:product`.
pub proof fn lemma_one_block(vendor: Seq<char>, product: Seq<char>, name: Seq<char>)
    requires
        vendor.len() > 0,
        product.len() > 0,
        no_ws(vendor),
        no_ws(product),
        !name.contains('\n'),
    ensures
        devices_of(block_text(vendor, product, name)) == seq![
            DeviceView {
                name: if name.len() == 0 {
                    unknown_device()
                } else {
                    name
                },
                id: vendor + seq![':'] + product,
            },
        ],
{
    lemma_block_lines(vendor, product, name);
    lemma_id_line_ids(vendor, product);
    let e = Seq::<char>::empty();
    let l1 = id_line(vendor, product);
    let l2 = name_line(name);
    let ls = seq![l1, l2, e];
    let id = vendor + seq![':'] + product;
    let d = DeviceView {
        name: if name.len() == 0 {
            unknown_device()
        } else {
            name
        },
        id,
    };
    assert(l1.take(3) =~= id_line_prefix());
    assert(seq![l1].drop_last() == Seq::<Seq<char>>::empty());
    let s0 = DevState { devices: seq![], name: seq![], id: seq![] };
    assert(dev_run(Seq::<Seq<char>>::empty()) == s0);
    let s1 = DevState { devices: seq![], name: seq![], id };
    assert(dev_run(seq![l1]) == dev_step(s0, l1));
    assert(dev_step(s0, l1) == s1);
    assert(l2.take(3)[0] == 'N');
    assert(!starts_with(l2, id_line_prefix()));
    assert(l2.take(9) =~= name_line_prefix());
    assert(l2.subrange(9, l2.len() - 1) =~= name);
    let s2 = DevState { devices: seq![], name, id };
    assert(seq![l1, l2].drop_last() == seq![l1]);
    assert(dev_run(seq![l1, l2]) == s2);
    assert(ls.drop_last() == seq![l1, l2]);
    assert(!starts_with(e, id_line_prefix()));
    assert(!starts_with(e, name_line_prefix()));
    assert(block_device(name, id) == d);
    assert(dev_run(ls) == DevState { devices: seq![d], name: e, id: e });
    assert(seq![d].drop_last() == Seq::<DeviceView>::empty());
    assert(seq![d].last() == d);
    assert(sort_by_name(Seq::<DeviceView>::empty()) == Seq::<DeviceView>::empty());
    assert(sort_by_name(seq![d]) == insert_by_name(Seq::<DeviceView>::empty(), d));
    assert(sort_by_name(seq![d]) == seq![d]);
    assert(!Seq::<DeviceView>::empty().contains(d));
    assert(dedup(Seq::<DeviceView>::empty()) == Seq::<DeviceView>::empty());
    assert(dedup(seq![d]) =~= seq![d]);
}

/// `str::lines` on characters.
fn std_lines_of(s: &[char]) -> (r: Vec<Vec<char>>)
    ensures
        views(r@) == std_lines(s@),
{
    let pieces = split_lines(s);
    let ghost ps = views(pieces@);
    let n = pieces.len();
    let ghost done = ps.drop_last();
    assert(done == crate::text::split_acc(s@).0);
    let mut r: Vec<Vec<char>> = Vec::new();
    for i in 0..n - 1
        invariant
            n == pieces@.len(),
            n >= 1,
            ps == views(pieces@),
            done == ps.drop_last(),
            views(r@) == done.take(i as int).map_values(|l: Seq<char>| strip_cr(l)),
    {
        let p = &pieces[i];
        let m = p.len();
        let line = if m > 0 && p[m - 1] == '\r' {
            assert(p@.subrange(0, m - 1) == p@.drop_last());
            slice_chars(p.as_slice(), 0, m - 1)
        } else {
            assert(p@.subrange(0, m as int) == p@);
            slice_chars(p.as_slice(), 0, m)
        };
        assert(line@ == strip_cr(done[i as int]));
        let ghost before = views(r@);
        r.push(line);
        assert(views(r@) == before.push(line@));
        assert(done.take(i + 1) == done.take(i as int).push(done[i as int]));
        assert(views(r@) == done.take(i + 1).map_values(|l: Seq<char>| strip_cr(l)));
    }
    assert(done.take((n - 1) as int) == done);
    assert(ps.last() == crate::text::split_acc(s@).1);
    let last_len = pieces[n - 1].len();
    if last_len > 0 {
        let last = slice_chars(pieces[n - 1].as_slice(), 0, last_len);
        assert(pieces[n - 1]@.subrange(0, last_len as int) == pieces[n - 1]@);
        let ghost before = views(r@);
        r.push(last);
        assert(views(r@) == before.push(last@));
    }
    r
}

/// `str::split_whitespace` on characters.
fn words(s: &[char]) -> (r: Vec<Vec<char>>)
    ensures
        views(r@) == words_of(s@),
{
    let n = s.len();
    let mut done: Vec<Vec<char>> = Vec::new();
    let mut cur: Vec<char> = Vec::new();
    for i in 0..n
        invariant
            n == s@.len(),
            (views(done@), cur@) == words_acc(s@.take(i as int)),
    {
        assert(s@.take(i + 1).drop_last() == s@.take(i as int));
        if is_whitespace(s[i]) {
            if cur.len() > 0 {
                let w = cur;
                cur = Vec::new();
                let ghost before = views(done@);
                done.push(w);
                assert(views(done@) == before.push(w@));
            }
        } else {
            cur.push(s[i]);
        }
    }
    assert(s@.take(n as int) == s@);
    if cur.len() > 0 {
        let ghost before = views(done@);
        done.push(cur);
        assert(views(done@) == before.push(words_acc(s@).1));
    }
    done
}

/// Does `s` start with `p`?
fn begins_with(s: &[char], p: &[char]) -> (r: bool)
    ensures
        r == starts_with(s@, p@),
{
    if p.len() > s.len() {
        return false;
    }
    let n = p.len();
    for i in 0..n
        invariant
            n == p@.len(),
            n <= s@.len(),
            forall|j: int| 0 <= j < i ==> s@[j] == p@[j],
    {
        if s[i] != p[i] {
            return false;
        }
    }
    assert(s@.take(n as int) == p@);
    true
}

/// Does `v` hold a device equal to `d` in name and id?
fn contains_device(v: &Vec<DeviceInfo>, d: &DeviceInfo) -> (r: bool)
    ensures
        r == device_views(v@).contains(d@),
{
    let n = v.len();
    let dn = chars_of(d.name.as_str());
    let di = chars_of(d.id.as_str());
    for k in 0..n
        invariant
            n == v@.len(),
            dn@ == d@.name,
            di@ == d@.id,
            forall|j: int| 0 <= j < k ==> v@[j]@ != d@,
    {
        let a1 = chars_of(v[k].id.as_str());
        let a2 = chars_of(v[k].name.as_str());
        if chars_eq(a1.as_slice(), di.as_slice()) && chars_eq(a2.as_slice(), dn.as_slice()) {
            assert(v@[k as int]@ == d@);
            assert(device_views(v@)[k as int] == d@);
            return true;
        }
    }
    assert forall|j: int| 0 <= j < device_views(v@).len() implies device_views(v@)[j] != d@ by {
        assert(device_views(v@)[j] == v@[j]@);
    }
    false
}

/// The device a finished block describes.
fn make_device(name: &Vec<char>, id: &Vec<char>) -> (d: DeviceInfo)
    ensures
        d@ == block_device(name@, id@),
{
    let nm = if name.len() == 0 {
        let u: Vec<char> = vec!['U', 'n', 'k', 'n', 'o', 'w', 'n', ' ', 'D', 'e', 'v', 'i', 'c', 'e'];
        string_of(u.as_slice())
    } else {
        string_of(name.as_slice())
    };
    DeviceInfo { name: nm, id: string_of(id.as_slice()) }
}

/// Read the kernel's device list: one entry per device block that gives
/// both a vendor and a product (`vendor:product` as its id), named by its
/// `N: Name="..."` line or `Unknown Device`; sorted by name, every entry
/// equal in name and id to an earlier one dropped.
pub fn parse_devices(content: &str) -> (r: Vec<DeviceInfo>)
    requires
        name_lines_ok(content@),
    ensures
        device_views(r@) == devices_of(content@),
{
    let cs = chars_of(content);
    let lines = std_lines_of(cs.as_slice());
    let ghost ls = views(lines@);
    let i_pre: Vec<char> = vec!['I', ':', ' '];
    let n_pre: Vec<char> = vec!['N', ':', ' ', 'N', 'a', 'm', 'e', '=', '"'];
    let v_key: Vec<char> = vec!['V', 'e', 'n', 'd', 'o', 'r', '='];
    let p_key: Vec<char> = vec!['P', 'r', 'o', 'd', 'u', 'c', 't', '='];
    let mut devices: Vec<DeviceInfo> = Vec::new();
    let mut name: Vec<char> = Vec::new();
    let mut id: Vec<char> = Vec::new();
    let n = lines.len();
    for i in 0..n
        invariant
            n == lines@.len(),
            ls == views(lines@),
            ls == std_lines(content@),
            name_lines_ok(content@),
            i_pre@ == id_line_prefix(),
            n_pre@ == name_line_prefix(),
            v_key@ == vendor_key(),
            p_key@ == product_key(),
            (DevState { devices: device_views(devices@), name: name@, id: id@ }) == dev_run(
                ls.take(i as int),
            ),
    {
        assert(ls.take(i + 1).drop_last() == ls.take(i as int));
        assert(ls.take(i + 1).last() == lines@[i as int]@);
        let line = &lines[i];
        if begins_with(line.as_slice(), i_pre.as_slice()) {
            let ws = words(line.as_slice());
            let ghost wv = views(ws@);
            let mut vendor: Vec<char> = Vec::new();
            let mut product: Vec<char> = Vec::new();
            let m = ws.len();
            for k in 0..m
                invariant
                    m == ws@.len(),
                    wv == views(ws@),
                    v_key@ == vendor_key(),
                    p_key@ == product_key(),
                    (vendor@, product@) == vendor_product(wv.take(k as int)),
            {
                assert(wv.take(k + 1).drop_last() == wv.take(k as int));
                let w = &ws[k];
                let wl = w.len();
                if begins_with(w.as_slice(), v_key.as_slice()) {
                    vendor = slice_chars(w.as_slice(), 7, wl);
                    assert(w@.subrange(7, wl as int) == w@.skip(7));
                } else if begins_with(w.as_slice(), p_key.as_slice()) {
                    product = slice_chars(w.as_slice(), 8, wl);
                    assert(w@.subrange(8, wl as int) == w@.skip(8));
                }
            }
            assert(wv.take(m as int) == wv);
            if vendor.len() > 0 && product.len() > 0 {
                let mut new_id = vendor;
                new_id.push(':');
                let ghost with_colon = new_id@;
                let mut k: usize = 0;
                let pl = product.len();
                while k < pl
                    invariant
                        pl == product@.len(),
                        0 <= k <= pl,
                        new_id@ == with_colon + product@.take(k as int),
                    decreases pl - k,
                {
                    new_id.push(product[k]);
                    assert(product@.take(k + 1) == product@.take(k as int).push(product@[k as int]));
                    k = k + 1;
                }
                assert(product@.take(pl as int) == product@);
                id = new_id;
            }
        } else if begins_with(line.as_slice(), n_pre.as_slice()) {
            proof {
                assert(ls[i as int] == line@);
            }
            let ll = line.len();
            name = slice_chars(line.as_slice(), 9, ll - 1);
        } else if line.len() == 0 {
            if id.len() > 0 {
                let d = make_device(&name, &id);
                let ghost before = device_views(devices@);
                devices.push(d);
                assert(device_views(devices@) == before.push(d@));
            }
            name = Vec::new();
            id = Vec::new();
        }
    }
    assert(ls.take(n as int) == ls);
    if id.len() > 0 {
        let d = make_device(&name, &id);
        let ghost before = device_views(devices@);
        devices.push(d);
        assert(device_views(devices@) == before.push(d@));
    }
    let ghost all = device_views(devices@);
    // Stable insertion sort by name.
    let nd = devices.len();
    let mut sorted: Vec<DeviceInfo> = Vec::new();
    let mut rest = devices;
    for i in 0..nd
        invariant
            nd == all.len(),
            device_views(rest@) == all.skip(i as int),
            device_views(sorted@) == sort_by_name(all.take(i as int)),
    {
        let ghost rv = device_views(rest@);
        assert(rv.len() == rest@.len());
        assert(rv[0] == all[i as int]);
        let d = rest.remove(0);
        assert(device_views(rest@) == rv.drop_first());
        assert(all.skip(i as int).drop_first() == all.skip(i + 1));
        assert(all.take(i + 1).drop_last() == all.take(i as int));
        let dn = chars_of(d.name.as_str());
        let ghost sv = device_views(sorted@);
        let ms = sorted.len();
        let mut p: usize = 0;
        while p < ms && !chars_lt(dn.as_slice(), chars_of(sorted[p].name.as_str()).as_slice())
            invariant
                ms == sorted@.len(),
                sv == device_views(sorted@),
                dn@ == d@.name,
                0 <= p <= ms,
                forall|j: int| 0 <= j < p ==> !seq_lt(d@.name, #[trigger] sv[j].name),
            decreases ms - p,
        {
            p = p + 1;
        }
        proof {
            lemma_insert_by_name_at(sv, d@, p as int);
        }
        sorted.insert(p, d);
        assert(device_views(sorted@) == sv.insert(p as int, d@));
    }
    assert(all.take(nd as int) == all);
    let ghost ordered = device_views(sorted@);
    let nd = sorted.len();
    // Drop every entry equal to an earlier one.
    let mut out: Vec<DeviceInfo> = Vec::new();
    let mut rest = sorted;
    for i in 0..nd
        invariant
            nd == ordered.len(),
            device_views(rest@) == ordered.skip(i as int),
            device_views(out@) == dedup(ordered.take(i as int)),
    {
        let ghost rv = device_views(rest@);
        assert(rv.len() == rest@.len());
        assert(rv[0] == ordered[i as int]);
        let d = rest.remove(0);
        assert(device_views(rest@) == rv.drop_first());
        assert(ordered.skip(i as int).drop_first() == ordered.skip(i + 1));
        assert(ordered.take(i + 1).drop_last() == ordered.take(i as int));
        assert(ordered.take(i + 1).last() == d@);
        proof {
            lemma_dedup_contains(ordered.take(i as int));
        }
        let seen = contains_device(&out, &d);
        let ghost ov = device_views(out@);
        if !seen {
            out.push(d);
            assert(device_views(out@) == ov.push(d@));
        }
    }
    assert(ordered.take(nd as int) == ordered);
    out
}

} // verus!
