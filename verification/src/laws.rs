//! Properties of the configuration format that hold across operations:
//! modifier sorting is a stable, idempotent ordering, and writing a
//! configuration out and reading it back gives the same configuration.
use vstd::prelude::*;

use crate::config::{
    config_lines, entry_line, entry_lines, finish, find_layer, flush, heads_acc, ids_header,
    ids_lines, ids_name, init_state, insert_by_rank, is_section, join_dash, layer_header,
    layer_lines, layers_lines, lemma_find_layer, lemma_insert_by_rank_at, main_name, mod_rank,
    parse_config, piece_heads, remove_named, render, run_from, section_layer, sort_mods, step,
    ConfigView, LayerView, ParseState,
};
use crate::mappings::{
    assoc_get, assoc_insert, keys_sorted, lemma_insert_above, lemma_sorted_tables_equal, EntryView,
};
use crate::text::{
    find_char, is_ws, lemma_find_char_is, lemma_lines_of_join, lemma_split_acc_append, lemma_split_acc_no_newline,
    lemma_trim_end_concat, lemma_trim_fixed, lemma_trim_start_concat, lines_of, split_acc, trim,
    trim_end, trim_start,
};

verus! {

// ---------------------------------------------------------------------------
// Modifier order
// ---------------------------------------------------------------------------

/// Ranks never decrease along the sequence.
pub open spec fn rank_sorted(s: Seq<char>) -> bool {
    forall|i: int, j: int| 0 <= i < j < s.len() ==> mod_rank(#[trigger] s[i]) <= mod_rank(
        #[trigger] s[j],
    )
}

proof fn lemma_insert_by_rank_facts(s: Seq<char>, c: char)
    ensures
        insert_by_rank(s, c).len() == s.len() + 1,
        insert_by_rank(s, c).to_multiset() == s.to_multiset().insert(c),
        rank_sorted(s) ==> rank_sorted(insert_by_rank(s, c)),
    decreases s.len(),
{
    broadcast use vstd::seq_lib::group_to_multiset_ensures;

    if s.len() == 0 {
        assert(insert_by_rank(s, c) == seq![c]);
        assert(seq![c] == s.push(c));
    } else if mod_rank(c) < mod_rank(s[0]) {
        let r = seq![c] + s;
        assert(r == s.insert(0, c));
        if rank_sorted(s) {
            assert forall|i: int, j: int| 0 <= i < j < r.len() implies mod_rank(#[trigger] r[i])
                <= mod_rank(#[trigger] r[j]) by {
                if i == 0 {
                    assert(r[j] == s[j - 1]);
                } else {
                    assert(r[i] == s[i - 1]);
                    assert(r[j] == s[j - 1]);
                }
            }
        }
    } else {
        let t = s.drop_first();
        lemma_insert_by_rank_facts(t, c);
        let u = insert_by_rank(t, c);
        let r = seq![s[0]] + u;
        assert(s == seq![s[0]] + t);
        assert(r.to_multiset() == u.to_multiset().insert(s[0])) by {
            assert(r == u.insert(0, s[0]));
        }
        assert(s.to_multiset() == t.to_multiset().insert(s[0])) by {
            assert(s == t.insert(0, s[0]));
        }
        if rank_sorted(s) {
            assert(rank_sorted(t)) by {
                assert forall|i: int, j: int| 0 <= i < j < t.len() implies mod_rank(
                    #[trigger] t[i],
                ) <= mod_rank(#[trigger] t[j]) by {
                    assert(t[i] == s[i + 1]);
                    assert(t[j] == s[j + 1]);
                }
            }
            assert forall|i: int, j: int| 0 <= i < j < r.len() implies mod_rank(#[trigger] r[i])
                <= mod_rank(#[trigger] r[j]) by {
                if i == 0 {
                    assert(r[j] == u[j - 1]);
                    assert(u.to_multiset().contains(u[j - 1]));
                    assert(u.to_multiset().count(u[j - 1]) > 0);
                    if u[j - 1] != c {
                        assert(t.to_multiset().count(u[j - 1]) > 0);
                        assert(t.contains(u[j - 1]));
                        let m = choose|m: int| 0 <= m < t.len() && t[m] == u[j - 1];
                        assert(t[m] == s[m + 1]);
                    }
                } else {
                    assert(r[i] == u[i - 1]);
                    assert(r[j] == u[j - 1]);
                }
            }
        }
    }
}

/// Sorting modifiers keeps the same letters, each as often.
pub proof fn lemma_sort_mods_permutes(s: Seq<char>)
    ensures
        sort_mods(s).len() == s.len(),
        sort_mods(s).to_multiset() == s.to_multiset(),
    decreases s.len(),
{
    broadcast use vstd::seq_lib::group_to_multiset_ensures;

    if s.len() > 0 {
        lemma_sort_mods_permutes(s.drop_last());
        lemma_insert_by_rank_facts(sort_mods(s.drop_last()), s.last());
        assert(s == s.drop_last().push(s.last()));
    }
}

/// Sorted modifiers come in rank order.
pub proof fn lemma_sort_mods_sorted(s: Seq<char>)
    ensures
        rank_sorted(sort_mods(s)),
    decreases s.len(),
{
    if s.len() > 0 {
        lemma_sort_mods_sorted(s.drop_last());
        lemma_insert_by_rank_facts(sort_mods(s.drop_last()), s.last());
    }
}

/// Modifiers already in rank order are left as they are.
pub proof fn lemma_sort_mods_sorted_fixed(s: Seq<char>)
    requires
        rank_sorted(s),
    ensures
        sort_mods(s) == s,
    decreases s.len(),
{
    if s.len() > 0 {
        let t = s.drop_last();
        assert(rank_sorted(t)) by {
            assert forall|i: int, j: int| 0 <= i < j < t.len() implies mod_rank(#[trigger] t[i])
                <= mod_rank(#[trigger] t[j]) by {
                assert(t[i] == s[i]);
                assert(t[j] == s[j]);
            }
        }
        lemma_sort_mods_sorted_fixed(t);
        assert forall|j: int| 0 <= j < t.len() implies mod_rank(#[trigger] t[j]) <= mod_rank(
            s.last(),
        ) by {
            assert(t[j] == s[j]);
        }
        lemma_insert_by_rank_at(t, s.last(), t.len() as int);
        assert(t.insert(t.len() as int, s.last()) == s);
    }
}

/// Sorting modifiers twice is sorting them once.
pub proof fn lemma_sort_mods_idempotent(s: Seq<char>)
    ensures
        sort_mods(sort_mods(s)) == sort_mods(s),
{
    lemma_sort_mods_sorted(s);
    lemma_sort_mods_sorted_fixed(sort_mods(s));
}

/// A letter not among the modifiers is not among the sorted modifiers.
proof fn lemma_sort_mods_absent(s: Seq<char>, c: char)
    requires
        !s.contains(c),
    ensures
        !sort_mods(s).contains(c),
{
    broadcast use vstd::seq_lib::group_to_multiset_ensures;

    lemma_sort_mods_permutes(s);
    if sort_mods(s).contains(c) {
        assert(sort_mods(s).to_multiset().count(c) > 0);
        assert(s.to_multiset().count(c) > 0);
    }
}

// ---------------------------------------------------------------------------
// Section headers
// ---------------------------------------------------------------------------

proof fn lemma_heads_join(ms: Seq<char>)
    requires
        !ms.contains('-'),
    ensures
        heads_acc(join_dash(ms)) == (ms, ms.len() == 0),
    decreases ms.len(),
{
    if ms.len() == 0 {
        assert(join_dash(ms) == Seq::<char>::empty());
        assert(ms == Seq::<char>::empty());
    } else if ms.len() == 1 {
        assert(ms[0] != '-') by {
            assert(ms.contains(ms[0]));
        }
        let j = join_dash(ms);
        assert(j == seq![ms[0]]);
        assert(j.drop_last() == Seq::<char>::empty());
        assert(heads_acc(j.drop_last()) == (Seq::<char>::empty(), true));
        assert(seq![ms[0]] == Seq::<char>::empty().push(ms[0]));
        assert(ms == seq![ms[0]]);
        assert(heads_acc(j) == (ms, false));
    } else {
        let f = ms.drop_last();
        assert(!f.contains('-')) by {
            if f.contains('-') {
                let k = choose|k: int| 0 <= k < f.len() && f[k] == '-';
                assert(ms[k] == '-');
            }
        }
        assert(ms.last() != '-') by {
            assert(ms[ms.len() - 1] == ms.last());
        }
        lemma_heads_join(f);
        let j0 = join_dash(f);
        let j1 = j0.push('-');
        let j2 = j1.push(ms.last());
        assert(j2.drop_last() == j1);
        assert(j1.drop_last() == j0);
        assert(heads_acc(j1) == (f, true));
        assert(f.push(ms.last()) == ms);
        assert(heads_acc(j2) == (ms, false));
        assert(join_dash(ms) == j2);
    }
}

/// The modifiers of a header written with `join_dash` read back as the
/// letters themselves.
proof fn lemma_piece_heads_join(ms: Seq<char>)
    requires
        !ms.contains('-'),
    ensures
        piece_heads(join_dash(ms)) == ms,
{
    lemma_heads_join(ms);
}

proof fn lemma_join_dash_members(ms: Seq<char>, c: char)
    requires
        c != '-',
        !ms.contains(c),
    ensures
        !join_dash(ms).contains(c),
    decreases ms.len(),
{
    if ms.len() >= 2 {
        let f = ms.drop_last();
        assert(!f.contains(c)) by {
            if f.contains(c) {
                let k = choose|k: int| 0 <= k < f.len() && f[k] == c;
                assert(ms[k] == c);
            }
        }
        lemma_join_dash_members(f, c);
        assert(ms.last() != c) by {
            assert(ms[ms.len() - 1] == ms.last());
        }
        let j = join_dash(ms);
        if j.contains(c) {
            let k = choose|k: int| 0 <= k < j.len() && j[k] == c;
            if k < join_dash(f).len() {
                assert(join_dash(f)[k] == c);
            }
        }
    } else if ms.len() == 1 {
        assert(ms[0] != c) by {
            assert(ms.contains(ms[0]));
        }
    }
}

// ---------------------------------------------------------------------------
// Writing a configuration and reading it back
// ---------------------------------------------------------------------------

/// A device id that survives a write and a read: non-empty, without
/// whitespace at its ends, on one line, and not read as a comment or a
/// section header.
pub open spec fn id_ok(id: Seq<char>) -> bool {
    &&& id.len() > 0
    &&& trim(id) == id
    &&& !id.contains('\n')
    &&& id[0] != '#'
    &&& !is_section(id)
}

/// A key table entry that survives a write and a read: key and value
/// without whitespace at their ends and on one line, no `=` in the key,
/// and the line not read as a comment or a section header.
pub open spec fn entry_ok(e: EntryView) -> bool {
    &&& trim(e.0) == e.0
    &&& trim(e.1) == e.1
    &&& !e.0.contains('=')
    &&& !e.0.contains('\n')
    &&& !e.1.contains('\n')
    &&& !(e.0.len() > 0 && e.0[0] == '#')
    &&& !(e.0.len() > 0 && e.0[0] == '[' && e.1.len() > 0 && e.1.last() == ']')
}

/// A layer that survives a write and a read: a one-line name without `:`
/// (and not `ids` unless modifiers follow it), modifier letters other than
/// `-` and newline, and entries that survive.
pub open spec fn layer_ok(l: LayerView) -> bool {
    &&& !l.name.contains(':')
    &&& !l.name.contains('\n')
    &&& (l.name != ids_name() || l.modifiers.len() > 0)
    &&& !l.modifiers.contains('-')
    &&& !l.modifiers.contains('\n')
    &&& keys_sorted(l.mappings)
    &&& forall|i: int| 0 <= i < l.mappings.len() ==> entry_ok(#[trigger] l.mappings[i])
}

/// A configuration that survives a write and a read: at least one id, all
/// ids and layers surviving, and `main` as the first layer.
pub open spec fn config_ok(c: ConfigView) -> bool {
    &&& c.ids.len() > 0
    &&& forall|i: int| 0 <= i < c.ids.len() ==> id_ok(#[trigger] c.ids[i])
    &&& c.layers.len() > 0
    &&& c.layers[0].name == main_name()
    &&& forall|i: int| 0 <= i < c.layers.len() ==> layer_ok(#[trigger] c.layers[i])
}

/// A layer with its modifiers in the order they are written in.
pub open spec fn normal_layer(l: LayerView) -> LayerView {
    LayerView { name: l.name, modifiers: sort_mods(l.modifiers), mappings: l.mappings }
}

/// Layers with their modifiers in the order they are written in.
pub open spec fn normal_layers(ls: Seq<LayerView>) -> Seq<LayerView> {
    ls.map_values(|l: LayerView| normal_layer(l))
}

/// A configuration with its modifiers in the order they are written in.
pub open spec fn normalize(c: ConfigView) -> ConfigView {
    ConfigView { ids: c.ids, layers: normal_layers(c.layers) }
}

proof fn lemma_concat_contains(a: Seq<char>, b: Seq<char>, c: char)
    ensures
        (a + b).contains(c) == (a.contains(c) || b.contains(c)),
{
    if (a + b).contains(c) {
        let k = choose|k: int| 0 <= k < (a + b).len() && (a + b)[k] == c;
        if k < a.len() {
            assert(a[k] == c);
        } else {
            assert(b[k - a.len()] == c);
        }
    }
    if a.contains(c) {
        let k = choose|k: int| 0 <= k < a.len() && a[k] == c;
        assert((a + b)[k] == c);
    }
    if b.contains(c) {
        let k = choose|k: int| 0 <= k < b.len() && b[k] == c;
        assert((a + b)[k + a.len()] == c);
    }
}

/// A trimmed sequence has no whitespace at its ends.
proof fn lemma_trimmed_ends(x: Seq<char>)
    requires
        trim(x) == x,
    ensures
        x.len() > 0 ==> !is_ws(x[0]) && !is_ws(x.last()),
        trim_start(x) == x,
        trim_end(x) == x,
{
    crate::text::lemma_trim_ends(x);
}

/// Reading lines one after another is reading the first part, then the
/// rest.
pub proof fn lemma_run_from_append(st: ParseState, a: Seq<Seq<char>>, b: Seq<Seq<char>>)
    ensures
        run_from(st, a + b) == run_from(run_from(st, a), b),
    decreases b.len(),
{
    if b.len() == 0 {
        assert(a + b == a);
    } else {
        lemma_run_from_append(st, a, b.drop_last());
        assert((a + b).drop_last() == a + b.drop_last());
        assert((a + b).last() == b.last());
    }
}

proof fn lemma_run_one(st: ParseState, l: Seq<char>)
    ensures
        run_from(st, seq![l]) == step(st, l),
{
    assert(seq![l].drop_last() == Seq::<Seq<char>>::empty());
    assert(seq![l].last() == l);
    assert(run_from(st, Seq::<Seq<char>>::empty()) == st);
}

proof fn lemma_blank_step(st: ParseState)
    ensures
        step(st, Seq::<char>::empty()) == st,
{
    assert(trim_start(Seq::<char>::empty()) == Seq::<char>::empty());
    assert(trim_end(Seq::<char>::empty()) == Seq::<char>::empty());
}

/// Reading a `key = value` line adds the entry to the open layer.
proof fn lemma_entry_step(st: ParseState, l: LayerView, e: EntryView)
    requires
        st.current == Some(l),
        !st.in_ids,
        entry_ok(e),
    ensures
        step(st, entry_line(e)) == (ParseState {
            layers: st.layers,
            ids: st.ids,
            current: Some(
                LayerView {
                    name: l.name,
                    modifiers: l.modifiers,
                    mappings: assoc_insert(l.mappings, e.0, e.1),
                },
            ),
            in_ids: false,
        }),
{
    let k = e.0;
    let v = e.1;
    lemma_trimmed_ends(k);
    lemma_trimmed_ends(v);
    let sp = seq![' '];
    let s3 = seq![' ', '=', ' '];
    let line = entry_line(e);
    assert(line == k + (s3 + v));
    // Leading whitespace.
    let p: Seq<char> = if k.len() > 0 {
        k + seq![' ', '=']
    } else {
        seq!['=']
    };
    assert(trim_start(s3) == seq!['=', ' ']) by {
        assert(s3.drop_first() == seq!['=', ' ']);
        assert(trim_start(seq!['=', ' ']) == seq!['=', ' ']);
    }
    lemma_trim_start_concat(s3, v);
    assert(trim_start(s3 + v) == seq!['=', ' '] + v);
    lemma_trim_start_concat(k, s3 + v);
    assert(trim_start(line) == p + (sp + v)) by {
        if k.len() > 0 {
            assert(k + (s3 + v) == (k + seq![' ', '=']) + (sp + v));
        } else {
            assert(seq!['=', ' '] + v == seq!['='] + (sp + v));
        }
    }
    // Trailing whitespace.
    let w: Seq<char> = if v.len() > 0 {
        sp + v
    } else {
        seq![]
    };
    assert(p.last() == '=');
    assert(trim_end(p) == p);
    lemma_trim_end_concat(p, sp + v);
    lemma_trim_end_concat(sp, v);
    assert(trim_end(sp) == Seq::<char>::empty()) by {
        assert(sp.drop_last() == Seq::<char>::empty());
        assert(sp.last() == ' ');
        assert(is_ws(' '));
        assert(trim_end(Seq::<char>::empty()) == Seq::<char>::empty());
    }
    let t = trim(line);
    assert(t == p + w) by {
        if v.len() > 0 {
            assert(trim_end(sp + v) == sp + v);
        } else {
            assert(sp + v == sp);
            assert(p + w == p);
        }
    }
    // The first `=` ends the key part.
    let i = p.len() - 1;
    assert(t[i] == '=');
    assert forall|j: int| 0 <= j < i implies t[j] != '=' by {
        assert(t[j] == p[j]);
        if j < k.len() {
            assert(p[j] == k[j]);
            assert(k.contains(k[j]));
        }
    }
    lemma_find_char_is(t, '=', i);
    assert(t.take(i) == p.drop_last());
    assert(t.skip(i + 1) == w);
    // The key part trims to the key.
    assert(trim(p.drop_last()) == k) by {
        if k.len() > 0 {
            assert(p.drop_last() == k + sp);
            lemma_trim_start_concat(k, sp);
            lemma_trim_end_concat(k, sp);
        } else {
            assert(p.drop_last() == Seq::<char>::empty());
            assert(k == Seq::<char>::empty());
        }
    }
    // The value part trims to the value.
    assert(trim(w) == v) by {
        if v.len() > 0 {
            lemma_trim_start_concat(sp, v);
            assert(trim_start(sp) == Seq::<char>::empty()) by {
                assert(sp.drop_first() == Seq::<char>::empty());
                assert(sp[0] == ' ');
                assert(is_ws(' '));
                assert(trim_start(Seq::<char>::empty()) == Seq::<char>::empty());
            }
        } else {
            assert(v == Seq::<char>::empty());
        }
    }
    // Neither a comment nor a section header.
    assert(t.len() > 0);
    assert(t[0] == p[0]);
    if k.len() > 0 {
        assert(p[0] == k[0]);
    }
    if v.len() > 0 {
        assert(t.last() == v.last());
    } else {
        assert(t.last() == '=');
    }
}

/// Reading the entry lines of a sorted table fills the open layer with
/// exactly that table.
proof fn lemma_entries_run(st: ParseState, name: Seq<char>, mods: Seq<char>, es: Seq<EntryView>)
    requires
        st.current == Some(LayerView { name, modifiers: mods, mappings: seq![] }),
        !st.in_ids,
        keys_sorted(es),
        forall|i: int| 0 <= i < es.len() ==> entry_ok(#[trigger] es[i]),
    ensures
        run_from(st, entry_lines(es)) == (ParseState {
            layers: st.layers,
            ids: st.ids,
            current: Some(LayerView { name, modifiers: mods, mappings: es }),
            in_ids: false,
        }),
    decreases es.len(),
{
    if es.len() == 0 {
        assert(entry_lines(es) == Seq::<Seq<char>>::empty());
        assert(es == Seq::<EntryView>::empty());
    } else {
        let f = es.drop_last();
        assert(keys_sorted(f)) by {
            assert forall|i: int, j: int| 0 <= i < j < f.len() implies crate::text::seq_lt(
                #[trigger] f[i].0,
                #[trigger] f[j].0,
            ) by {
                assert(f[i] == es[i]);
                assert(f[j] == es[j]);
            }
        }
        assert forall|i: int| 0 <= i < f.len() implies entry_ok(#[trigger] f[i]) by {
            assert(f[i] == es[i]);
        }
        lemma_entries_run(st, name, mods, f);
        assert(entry_lines(es).drop_last() == entry_lines(f));
        assert(entry_lines(es).last() == entry_line(es.last()));
        let mid = run_from(st, entry_lines(f));
        assert(entry_ok(es.last())) by {
            assert(es[es.len() - 1] == es.last());
        }
        lemma_entry_step(mid, LayerView { name, modifiers: mods, mappings: f }, es.last());
        assert forall|j: int| 0 <= j < f.len() implies crate::text::seq_lt(
            #[trigger] f[j].0,
            es.last().0,
        ) by {
            assert(f[j] == es[j]);
            assert(es[es.len() - 1] == es.last());
        }
        lemma_insert_above(f, es.last().0, es.last().1);
        assert(f.push((es.last().0, es.last().1)) == es);
    }
}

/// Reading a layer's header opens the layer with its modifiers sorted.
proof fn lemma_header_step(st: ParseState, l: LayerView)
    requires
        layer_ok(l),
    ensures
        step(st, layer_header(l)) == (ParseState {
            layers: flush(st),
            ids: st.ids,
            current: Some(
                LayerView { name: l.name, modifiers: sort_mods(l.modifiers), mappings: seq![] },
            ),
            in_ids: false,
        }),
{
    let h = layer_header(l);
    let name = l.name;
    let m = l.modifiers;
    assert(h[0] == '[');
    assert(h.last() == ']');
    lemma_trim_fixed(h);
    assert(trim(h) == h);
    assert(is_section(h));
    let sec = h.subrange(1, h.len() - 1);
    if m.len() == 0 {
        assert(sec == name);
        lemma_sort_mods_permutes(m);
        assert(sort_mods(m) == Seq::<char>::empty());
        crate::text::lemma_find_char_none(name, ':');
        assert(section_layer(sec) == LayerView {
            name,
            modifiers: sort_mods(m),
            mappings: seq![],
        });
    } else {
        let j = join_dash(sort_mods(m));
        assert(sec == name + seq![':'] + j);
        assert(sec[name.len() as int] == ':');
        assert(sec != ids_name()) by {
            if sec == ids_name() {
                assert(ids_name()[name.len() as int] == ':');
            }
        }
        assert forall|q: int| 0 <= q < name.len() implies sec[q] != ':' by {
            assert(sec[q] == name[q]);
            assert(name.contains(name[q]));
        }
        lemma_find_char_is(sec, ':', name.len() as int);
        assert(sec.take(name.len() as int) == name);
        assert(sec.skip(name.len() as int + 1) == j);
        lemma_sort_mods_absent(m, '-');
        lemma_piece_heads_join(sort_mods(m));
        lemma_sort_mods_idempotent(m);
    }
}

/// Reading a layer's lines closes the open layer and leaves this one open
/// with its modifiers sorted.
proof fn lemma_layer_run(st: ParseState, l: LayerView)
    requires
        layer_ok(l),
    ensures
        run_from(st, layer_lines(l)) == (ParseState {
            layers: flush(st),
            ids: st.ids,
            current: Some(normal_layer(l)),
            in_ids: false,
        }),
{
    let h = layer_header(l);
    let es = entry_lines(l.mappings);
    assert(layer_lines(l) == seq![h] + es + seq![Seq::<char>::empty()]);
    lemma_run_from_append(st, seq![h] + es, seq![Seq::<char>::empty()]);
    lemma_run_from_append(st, seq![h], es);
    lemma_run_one(st, h);
    lemma_header_step(st, l);
    let s1 = step(st, h);
    lemma_entries_run(s1, l.name, sort_mods(l.modifiers), l.mappings);
    let s2 = run_from(s1, es);
    lemma_run_one(s2, Seq::<char>::empty());
    lemma_blank_step(s2);
}

/// Reading the id lines appends them to the ids.
proof fn lemma_ids_run(st: ParseState, ids: Seq<Seq<char>>)
    requires
        st.in_ids,
        st.current is None,
        forall|i: int| 0 <= i < ids.len() ==> id_ok(#[trigger] ids[i]),
    ensures
        run_from(st, ids) == (ParseState {
            layers: st.layers,
            ids: st.ids + ids,
            current: None,
            in_ids: true,
        }),
    decreases ids.len(),
{
    if ids.len() == 0 {
        assert(st.ids + ids == st.ids);
    } else {
        let f = ids.drop_last();
        assert forall|i: int| 0 <= i < f.len() implies id_ok(#[trigger] f[i]) by {
            assert(f[i] == ids[i]);
        }
        lemma_ids_run(st, f);
        let id = ids.last();
        assert(id_ok(id)) by {
            assert(ids[ids.len() - 1] == id);
        }
        assert(st.ids + f + seq![id] == st.ids + ids) by {
            assert(f.push(id) == ids);
        }
        assert((st.ids + f).push(id) == st.ids + ids);
    }
}

/// Reading the lines of several layers, after the ids.
proof fn lemma_layers_run(st: ParseState, ls: Seq<LayerView>)
    requires
        st.current is None,
        forall|i: int| 0 <= i < ls.len() ==> layer_ok(#[trigger] ls[i]),
    ensures
        ls.len() == 0 ==> run_from(st, layers_lines(ls)) == st,
        ls.len() > 0 ==> run_from(st, layers_lines(ls)) == (ParseState {
            layers: st.layers + normal_layers(ls.drop_last()),
            ids: st.ids,
            current: Some(normal_layer(ls.last())),
            in_ids: false,
        }),
    decreases ls.len(),
{
    if ls.len() == 0 {
        assert(layers_lines(ls) == Seq::<Seq<char>>::empty());
    } else {
        let f = ls.drop_last();
        assert forall|i: int| 0 <= i < f.len() implies layer_ok(#[trigger] f[i]) by {
            assert(f[i] == ls[i]);
        }
        lemma_layers_run(st, f);
        assert(layer_ok(ls.last())) by {
            assert(ls[ls.len() - 1] == ls.last());
        }
        lemma_run_from_append(st, layers_lines(f), layer_lines(ls.last()));
        let mid = run_from(st, layers_lines(f));
        lemma_layer_run(mid, ls.last());
        if f.len() == 0 {
            assert(normal_layers(f) == Seq::<LayerView>::empty());
            assert(st.layers + normal_layers(f) == st.layers);
        } else {
            assert(f.drop_last().push(f.last()) == f);
            assert(normal_layers(f) == normal_layers(f.drop_last()).push(normal_layer(f.last())));
            assert(st.layers + normal_layers(f) == (st.layers + normal_layers(f.drop_last())).push(
                normal_layer(f.last()),
            ));
        }
    }
}

proof fn lemma_layer_lines_one_line(l: LayerView)
    requires
        layer_ok(l),
    ensures
        forall|i: int| 0 <= i < layer_lines(l).len() ==> !(#[trigger] layer_lines(l)[i]).contains(
            '\n',
        ),
{
    let h = layer_header(l);
    assert(!h.contains('\n')) by {
        lemma_concat_contains(seq!['['], l.name, '\n');
        if l.modifiers.len() == 0 {
            lemma_concat_contains(seq!['['] + l.name, seq![']'], '\n');
        } else {
            let j = join_dash(sort_mods(l.modifiers));
            lemma_sort_mods_absent(l.modifiers, '\n');
            lemma_join_dash_members(sort_mods(l.modifiers), '\n');
            lemma_concat_contains(seq!['['] + l.name, seq![':'], '\n');
            lemma_concat_contains(seq!['['] + l.name + seq![':'], j, '\n');
            lemma_concat_contains(seq!['['] + l.name + seq![':'] + j, seq![']'], '\n');
        }
    }
    let ls = layer_lines(l);
    assert forall|i: int| 0 <= i < ls.len() implies !(#[trigger] ls[i]).contains('\n') by {
        if i == 0 {
            assert(ls[i] == h);
        } else if i <= l.mappings.len() {
            let e = l.mappings[i - 1];
            assert(ls[i] == entry_line(e));
            assert(entry_ok(e));
            lemma_concat_contains(e.0, seq![' ', '=', ' '], '\n');
            lemma_concat_contains(e.0 + seq![' ', '=', ' '], e.1, '\n');
        } else {
            assert(ls[i] == Seq::<char>::empty());
        }
    }
}

proof fn lemma_layers_lines_one_line(ls: Seq<LayerView>)
    requires
        forall|i: int| 0 <= i < ls.len() ==> layer_ok(#[trigger] ls[i]),
    ensures
        forall|i: int| 0 <= i < layers_lines(ls).len() ==> !(#[trigger] layers_lines(
            ls,
        )[i]).contains('\n'),
    decreases ls.len(),
{
    if ls.len() > 0 {
        let f = ls.drop_last();
        assert forall|i: int| 0 <= i < f.len() implies layer_ok(#[trigger] f[i]) by {
            assert(f[i] == ls[i]);
        }
        lemma_layers_lines_one_line(f);
        assert(layer_ok(ls.last())) by {
            assert(ls[ls.len() - 1] == ls.last());
        }
        lemma_layer_lines_one_line(ls.last());
        let a = layers_lines(f);
        let b = layer_lines(ls.last());
        assert forall|i: int| 0 <= i < (a + b).len() implies !(#[trigger] (a + b)[i]).contains(
            '\n',
        ) by {
            if i < a.len() {
                assert((a + b)[i] == a[i]);
            } else {
                assert((a + b)[i] == b[i - a.len()]);
            }
        }
    }
}

/// Writing a configuration and reading the text back gives the same
/// configuration, with each layer's modifiers in the order they are
/// written in (`C M A S G`, others last), provided every id, name,
/// modifier, key and value can be written without changing its meaning.
pub proof fn lemma_render_parse(c: ConfigView)
    requires
        config_ok(c),
    ensures
        parse_config(render(c)) == normalize(c),
{
    let ls = config_lines(c);
    let il = ids_lines(c.ids);
    let ll = layers_lines(c.layers);
    assert(ls == il + ll);
    // Every line is one line.
    lemma_layers_lines_one_line(c.layers);
    assert forall|i: int| 0 <= i < ls.len() implies !(#[trigger] ls[i]).contains('\n') by {
        if i < il.len() {
            assert(ls[i] == il[i]);
            if i == 0 {
                assert(il[i] == ids_header());
            } else if i <= c.ids.len() {
                assert(il[i] == c.ids[i - 1]);
                assert(id_ok(c.ids[i - 1]));
            } else {
                assert(il[i] == Seq::<char>::empty());
            }
        } else {
            assert(ls[i] == ll[i - il.len()]);
        }
    }
    lemma_lines_of_join(ls);
    assert(lines_of(render(c)) == il + ll + seq![Seq::<char>::empty()]);
    lemma_run_from_append(init_state(), il + ll, seq![Seq::<char>::empty()]);
    lemma_run_from_append(init_state(), il, ll);
    // The ids section.
    let hdr = ids_header();
    assert(il == seq![hdr] + c.ids + seq![Seq::<char>::empty()]);
    lemma_run_from_append(init_state(), seq![hdr] + c.ids, seq![Seq::<char>::empty()]);
    lemma_run_from_append(init_state(), seq![hdr], c.ids);
    lemma_run_one(init_state(), hdr);
    assert(trim(hdr) == hdr) by {
        lemma_trim_fixed(hdr);
    }
    assert(hdr.subrange(1, hdr.len() - 1) == ids_name());
    let s1 = step(init_state(), hdr);
    assert(s1 == ParseState {
        layers: Seq::<LayerView>::empty(),
        ids: Seq::<Seq<char>>::empty(),
        current: None,
        in_ids: true,
    });
    lemma_ids_run(s1, c.ids);
    let s2 = run_from(s1, c.ids);
    assert(Seq::<Seq<char>>::empty() + c.ids == c.ids);
    lemma_run_one(s2, Seq::<char>::empty());
    lemma_blank_step(s2);
    // The layers.
    lemma_layers_run(s2, c.layers);
    let s3 = run_from(s2, ll);
    lemma_run_one(s3, Seq::<char>::empty());
    lemma_blank_step(s3);
    assert(Seq::<LayerView>::empty() + normal_layers(c.layers.drop_last()) == normal_layers(
        c.layers.drop_last(),
    ));
    assert(c.layers.drop_last().push(c.layers.last()) == c.layers);
    assert(flush(s3) == normal_layers(c.layers));
    // Closing.
    let nl = normal_layers(c.layers);
    lemma_find_layer(nl, main_name());
    assert(nl[0].name == main_name());
    assert(find_layer(nl, main_name()) == Some(0nat));
    assert(seq![nl[0]] + nl.remove(0) == nl);
}

proof fn lemma_layers_lines_normal(ls: Seq<LayerView>)
    ensures
        layers_lines(normal_layers(ls)) == layers_lines(ls),
    decreases ls.len(),
{
    if ls.len() > 0 {
        let f = ls.drop_last();
        lemma_layers_lines_normal(f);
        let n = normal_layers(ls);
        assert(n.drop_last() == normal_layers(f));
        assert(n.last() == normal_layer(ls.last()));
        let l = ls.last();
        lemma_sort_mods_permutes(l.modifiers);
        lemma_sort_mods_idempotent(l.modifiers);
        assert(layer_header(normal_layer(l)) == layer_header(l));
        assert(layer_lines(normal_layer(l)) == layer_lines(l));
    }
}

/// Sorting the modifiers does not change the written text.
pub proof fn lemma_render_normalize(c: ConfigView)
    ensures
        render(normalize(c)) == render(c),
{
    lemma_layers_lines_normal(c.layers);
    assert(config_lines(normalize(c)) == config_lines(c));
}

/// Saving a configuration that was just read from a saved text writes the
/// same text again.
pub proof fn lemma_save_load_save(c: ConfigView)
    requires
        config_ok(c),
    ensures
        render(parse_config(render(c))) == render(c),
{
    lemma_render_parse(c);
    lemma_render_normalize(c);
}

// ---------------------------------------------------------------------------
// Shape of every parsed configuration
// ---------------------------------------------------------------------------

/// Whatever the text, the parsed configuration has at least one id and
/// starts with a layer named `main`.
pub proof fn lemma_parse_shape(text: Seq<char>)
    ensures
        parse_config(text).ids.len() > 0,
        parse_config(text).layers.len() > 0,
        parse_config(text).layers[0].name == main_name(),
{
    let st = run_from(init_state(), lines_of(text));
    let layers = flush(st);
    lemma_find_layer(layers, main_name());
}

// ---------------------------------------------------------------------------
// Adding and removing layers
// ---------------------------------------------------------------------------

/// Removing a name no layer has changes nothing.
pub proof fn lemma_remove_absent_layer(ls: Seq<LayerView>, name: Seq<char>)
    requires
        find_layer(ls, name) is None,
    ensures
        remove_named(ls, name) == ls,
    decreases ls.len(),
{
    lemma_find_layer(ls, name);
    if ls.len() > 0 {
        let f = ls.drop_last();
        assert forall|j: int| 0 <= j < f.len() implies f[j].name != name by {
            assert(f[j] == ls[j]);
        }
        crate::config::lemma_find_layer_none(f, name);
        lemma_remove_absent_layer(f, name);
        assert(ls[ls.len() - 1] == ls.last());
        assert(f.push(ls.last()) == ls);
    }
}

/// After removing a name, no layer has it.
pub proof fn lemma_remove_layer_gone(ls: Seq<LayerView>, name: Seq<char>)
    ensures
        find_layer(remove_named(ls, name), name) is None,
    decreases ls.len(),
{
    let r = remove_named(ls, name);
    if ls.len() > 0 {
        lemma_remove_layer_gone(ls.drop_last(), name);
        let r0 = remove_named(ls.drop_last(), name);
        lemma_find_layer(r0, name);
        assert forall|j: int| 0 <= j < r.len() implies r[j].name != name by {
            if j < r0.len() {
                assert(r[j] == r0[j]);
            }
        }
    }
    crate::config::lemma_find_layer_none(r, name);
}

/// Adding a layer under a new name and removing that name again gives
/// back the layers as they were.
pub proof fn lemma_add_then_remove_layer(ls: Seq<LayerView>, name: Seq<char>)
    requires
        find_layer(ls, name) is None,
    ensures
        remove_named(ls.push(LayerView { name, modifiers: seq![], mappings: seq![] }), name)
            == ls,
{
    let l = LayerView { name, modifiers: seq![], mappings: seq![] };
    assert(ls.push(l).drop_last() == ls);
    lemma_remove_absent_layer(ls, name);
}

/// Adding a layer makes its name present.
pub proof fn lemma_add_layer_present(ls: Seq<LayerView>, name: Seq<char>)
    ensures
        find_layer(ls.push(LayerView { name, modifiers: seq![], mappings: seq![] }), name) is Some,
{
    let r = ls.push(LayerView { name, modifiers: seq![], mappings: seq![] });
    lemma_find_layer(r, name);
    assert(r[ls.len() as int].name == name);
}

// ---------------------------------------------------------------------------
// Reading, saving and reading again
// ---------------------------------------------------------------------------

/// A layer as the reader produces it.
pub open spec fn read_layer_ok(l: LayerView) -> bool {
    &&& !l.name.contains(':')
    &&& !l.name.contains('\n')
    &&& !l.modifiers.contains('-')
    &&& !l.modifiers.contains('\n')
    &&& rank_sorted(l.modifiers)
    &&& keys_sorted(l.mappings)
    &&& forall|i: int| 0 <= i < l.mappings.len() ==> entry_ok(#[trigger] l.mappings[i])
}

/// Reader state whose ids and layers are as the reader produces them.
pub open spec fn state_ok(st: ParseState) -> bool {
    &&& forall|i: int| 0 <= i < st.ids.len() ==> id_ok(#[trigger] st.ids[i])
    &&& forall|i: int| 0 <= i < st.layers.len() ==> read_layer_ok(#[trigger] st.layers[i])
    &&& (st.current matches Some(l) ==> read_layer_ok(l))
}

proof fn lemma_heads_members(s: Seq<char>)
    ensures
        forall|c: char| #[trigger] piece_heads(s).contains(c) ==> c != '-' && s.contains(c),
    decreases s.len(),
{
    if s.len() > 0 {
        let f = s.drop_last();
        lemma_heads_members(f);
        let h = piece_heads(f);
        let at_start = heads_acc(f).1;
        let c = s.last();
        assert(s[s.len() - 1] == c);
        assert(piece_heads(s) == if c != '-' && at_start {
            h.push(c)
        } else {
            h
        });
        assert forall|x: char| #[trigger] piece_heads(s).contains(x) implies x != '-' && s.contains(
            x,
        ) by {
            let hs = piece_heads(s);
            let q = choose|q: int| 0 <= q < hs.len() && hs[q] == x;
            if q < h.len() {
                assert(hs[q] == h[q]);
                assert(h.contains(x));
                assert(piece_heads(f).contains(x));
                assert(f.contains(x));
                let m = choose|m: int| 0 <= m < f.len() && f[m] == x;
                assert(s[m] == x);
            } else {
                assert(x == c);
            }
        }
    }
}

proof fn lemma_insert_entries(s: Seq<EntryView>, k: Seq<char>, v: Seq<char>, i: int)
    requires
        0 <= i < assoc_insert(s, k, v).len(),
    ensures
        assoc_insert(s, k, v)[i] == (k, v) || exists|m: int|
            0 <= m < s.len() && s[m] == #[trigger] assoc_insert(s, k, v)[i],
    decreases s.len(),
{
    let r = assoc_insert(s, k, v);
    if s.len() == 0 {
    } else if s[0].0 == k {
        if i > 0 {
            assert(r[i] == s[i]);
        }
    } else if crate::text::seq_lt(k, s[0].0) {
        if i > 0 {
            assert(r[i] == s[i - 1]);
        }
    } else {
        if i == 0 {
            assert(r[0] == s[0]);
        } else {
            let t = s.drop_first();
            assert(r[i] == assoc_insert(t, k, v)[i - 1]);
            lemma_insert_entries(t, k, v, i - 1);
            if assoc_insert(t, k, v)[i - 1] != (k, v) {
                let m = choose|m: int|
                    0 <= m < t.len() && t[m] == #[trigger] assoc_insert(t, k, v)[i - 1];
                assert(t[m] == s[m + 1]);
            }
        }
    }
}

proof fn lemma_no_char_sub(x: Seq<char>, lo: int, hi: int, c: char)
    requires
        0 <= lo <= hi <= x.len(),
        !x.contains(c),
    ensures
        !x.subrange(lo, hi).contains(c),
{
    if x.subrange(lo, hi).contains(c) {
        let q = choose|q: int| 0 <= q < hi - lo && x.subrange(lo, hi)[q] == c;
        assert(x[lo + q] == c);
    }
}

/// Reading one line keeps the ids and layers as the reader produces them.
proof fn lemma_step_ok(st: ParseState, raw: Seq<char>)
    requires
        state_ok(st),
        !raw.contains('\n'),
    ensures
        state_ok(step(st, raw)),
{
    let line = trim(raw);
    crate::text::lemma_trim_parts(raw);
    crate::text::lemma_trim_ends(raw);
    assert(!line.contains('\n'));
    let nst = step(st, raw);
    if line.len() == 0 || line[0] == '#' {
    } else if is_section(line) {
        let sec = line.subrange(1, line.len() - 1);
        lemma_no_char_sub(line, 1, line.len() - 1, '\n');
        let fl = flush(st);
        assert forall|i: int| 0 <= i < fl.len() implies read_layer_ok(#[trigger] fl[i]) by {
            if i < st.layers.len() {
                assert(fl[i] == st.layers[i]);
            }
        }
        if sec != ids_name() {
            let l = section_layer(sec);
            crate::text::lemma_find_char(sec, ':');
            match find_char(sec, ':') {
                Some(i) => {
                    let i = i as int;
                    lemma_no_char_sub(sec, 0, i, '\n');
                    assert(sec.take(i) == sec.subrange(0, i));
                    assert(!l.name.contains(':')) by {
                        if l.name.contains(':') {
                            let q = choose|q: int| 0 <= q < l.name.len() && l.name[q] == ':';
                            assert(sec[q] == ':');
                        }
                    }
                    let rest = sec.skip(i + 1);
                    assert(rest == sec.subrange(i + 1, sec.len() as int));
                    lemma_no_char_sub(sec, i + 1, sec.len() as int, '\n');
                    lemma_heads_members(rest);
                    let h = piece_heads(rest);
                    assert(!h.contains('-')) by {
                        if piece_heads(rest).contains('-') {
                        }
                    }
                    assert(!h.contains('\n')) by {
                        if piece_heads(rest).contains('\n') {
                            assert(rest.contains('\n'));
                        }
                    }
                    lemma_sort_mods_absent(h, '-');
                    lemma_sort_mods_absent(h, '\n');
                    lemma_sort_mods_sorted(h);
                },
                None => {
                    assert(!sec.contains(':'));
                    assert(rank_sorted(Seq::<char>::empty()));
                },
            }
            assert(read_layer_ok(l));
        }
    } else if st.in_ids {
        assert(id_ok(line));
        let ids2 = st.ids.push(line);
        assert forall|i: int| 0 <= i < ids2.len() implies id_ok(#[trigger] ids2[i]) by {
            if i < st.ids.len() {
                assert(ids2[i] == st.ids[i]);
            }
        }
    } else {
        match st.current {
            Some(l) => {
                crate::text::lemma_find_char(line, '=');
                match find_char(line, '=') {
                    Some(i) => {
                        let i = i as int;
                        let a = line.take(i);
                        let b = line.skip(i + 1);
                        assert(a == line.subrange(0, i));
                        assert(b == line.subrange(i + 1, line.len() as int));
                        let k = trim(a);
                        let v = trim(b);
                        crate::text::lemma_trim_parts(a);
                        crate::text::lemma_trim_parts(b);
                        lemma_no_char_sub(line, 0, i, '\n');
                        lemma_no_char_sub(line, i + 1, line.len() as int, '\n');
                        assert(!a.contains('=')) by {
                            if a.contains('=') {
                                let q = choose|q: int| 0 <= q < a.len() && a[q] == '=';
                                assert(line[q] == '=');
                            }
                        }
                        if k.len() > 0 {
                            assert(a[0] == line[0]);
                            assert(k[0] == line[0]);
                        }
                        if v.len() > 0 {
                            assert(b.last() == line.last());
                            assert(v.last() == line.last());
                        }
                        let e = (k, v);
                        assert(entry_ok(e));
                        let m2 = assoc_insert(l.mappings, k, v);
                        crate::mappings::lemma_insert_sorted(l.mappings, k, v);
                        assert forall|q: int| 0 <= q < m2.len() implies entry_ok(#[trigger] m2[q]) by {
                            lemma_insert_entries(l.mappings, k, v, q);
                            if m2[q] != (k, v) {
                                let m = choose|m: int|
                                    0 <= m < l.mappings.len() && l.mappings[m] == #[trigger] m2[q];
                                assert(entry_ok(l.mappings[m]));
                            }
                        }
                    },
                    None => {},
                }
            },
            None => {},
        }
    }
}

/// Reading any lines keeps the ids and layers as the reader produces them.
proof fn lemma_run_ok(ls: Seq<Seq<char>>)
    requires
        forall|i: int| 0 <= i < ls.len() ==> !(#[trigger] ls[i]).contains('\n'),
    ensures
        state_ok(run_from(init_state(), ls)),
    decreases ls.len(),
{
    if ls.len() > 0 {
        let f = ls.drop_last();
        assert forall|i: int| 0 <= i < f.len() implies !(#[trigger] f[i]).contains('\n') by {
            assert(f[i] == ls[i]);
        }
        lemma_run_ok(f);
        assert(ls[ls.len() - 1] == ls.last());
        lemma_step_ok(run_from(init_state(), f), ls.last());
    }
}

/// The layers of a configuration read from any text are as the reader
/// produces them, and its ids can be written.
proof fn lemma_parse_read_ok(text: Seq<char>)
    ensures
        forall|i: int| 0 <= i < parse_config(text).ids.len() ==> id_ok(
            #[trigger] parse_config(text).ids[i],
        ),
        forall|i: int|
            0 <= i < parse_config(text).layers.len() ==> read_layer_ok(
                #[trigger] parse_config(text).layers[i],
            ),
{
    crate::text::lemma_lines_one_line(text);
    lemma_run_ok(lines_of(text));
    let st = run_from(init_state(), lines_of(text));
    let fl = flush(st);
    assert forall|i: int| 0 <= i < fl.len() implies read_layer_ok(#[trigger] fl[i]) by {
        if i < st.layers.len() {
            assert(fl[i] == st.layers[i]);
        }
    }
    let c = parse_config(text);
    lemma_find_layer(fl, main_name());
    match find_layer(fl, main_name()) {
        Some(p) => {
            let p = p as int;
            assert forall|i: int| 0 <= i < c.layers.len() implies read_layer_ok(
                #[trigger] c.layers[i],
            ) by {
                if i == 0 {
                    assert(c.layers[0] == fl[p]);
                } else if i - 1 < p {
                    assert(c.layers[i] == fl[i - 1]);
                } else {
                    assert(c.layers[i] == fl[i]);
                }
            }
        },
        None => {
            assert(rank_sorted(Seq::<char>::empty()));
            assert(keys_sorted(Seq::<EntryView>::empty()));
            assert forall|i: int| 0 <= i < c.layers.len() implies read_layer_ok(
                #[trigger] c.layers[i],
            ) by {
                if i > 0 {
                    assert(c.layers[i] == fl[i - 1]);
                }
            }
        },
    }
    if st.ids.len() == 0 {
        let star = crate::config::wildcard_id();
        assert(star[0] == '*');
        assert(!is_ws('*'));
        lemma_trim_fixed(star);
        assert(!star.contains('\n')) by {
            if star.contains('\n') {
                let q = choose|q: int| 0 <= q < star.len() && star[q] == '\n';
                assert(q == 0);
            }
        }
        assert(id_ok(star));
    }
}

/// A configuration read from any text, saved and read again, is the same
/// configuration, unless it holds a layer named `ids` without modifiers
/// (which the file can only express as `[ids:]` and would read back as the
/// id section).
pub proof fn lemma_parse_render_parse(text: Seq<char>)
    requires
        forall|i: int|
            0 <= i < parse_config(text).layers.len() ==> !(#[trigger] parse_config(text).layers[i].name
                == ids_name() && parse_config(text).layers[i].modifiers.len() == 0),
    ensures
        parse_config(render(parse_config(text))) == parse_config(text),
{
    let c = parse_config(text);
    lemma_parse_read_ok(text);
    lemma_parse_shape(text);
    assert forall|i: int| 0 <= i < c.layers.len() implies layer_ok(#[trigger] c.layers[i]) by {
        assert(read_layer_ok(c.layers[i]));
        assert(!(c.layers[i].name == ids_name() && c.layers[i].modifiers.len() == 0));
    }
    assert(config_ok(c));
    lemma_render_parse(c);
    assert forall|i: int| 0 <= i < c.layers.len() implies normal_layers(c.layers)[i] == c.layers[i] by {
        assert(read_layer_ok(c.layers[i]));
        lemma_sort_mods_sorted_fixed(c.layers[i].modifiers);
    }
    assert(normal_layers(c.layers) == c.layers);
    assert(normalize(c) == c);
}

// ---------------------------------------------------------------------------
// What the written text depends on
// ---------------------------------------------------------------------------

/// Two layers the file cannot tell apart: the same name, the same
/// modifiers once sorted, and the same action under every key.
pub open spec fn same_written_layer(l1: LayerView, l2: LayerView) -> bool {
    &&& l1.name == l2.name
    &&& sort_mods(l1.modifiers) == sort_mods(l2.modifiers)
    &&& forall|k: Seq<char>| #[trigger] assoc_get(l1.mappings, k) == assoc_get(l2.mappings, k)
}

proof fn lemma_same_layer_lines(l1: LayerView, l2: LayerView)
    requires
        same_written_layer(l1, l2),
        keys_sorted(l1.mappings),
        keys_sorted(l2.mappings),
    ensures
        layer_lines(l1) == layer_lines(l2),
{
    lemma_sorted_tables_equal(l1.mappings, l2.mappings);
    lemma_sort_mods_permutes(l1.modifiers);
    lemma_sort_mods_permutes(l2.modifiers);
    assert(layer_header(l1) == layer_header(l2));
}

proof fn lemma_same_layers_lines(ls1: Seq<LayerView>, ls2: Seq<LayerView>)
    requires
        ls1.len() == ls2.len(),
        forall|i: int|
            0 <= i < ls1.len() ==> same_written_layer(#[trigger] ls1[i], ls2[i]) && keys_sorted(
                ls1[i].mappings,
            ) && keys_sorted(ls2[i].mappings),
    ensures
        layers_lines(ls1) == layers_lines(ls2),
    decreases ls1.len(),
{
    if ls1.len() > 0 {
        let f1 = ls1.drop_last();
        let f2 = ls2.drop_last();
        assert forall|i: int| 0 <= i < f1.len() implies same_written_layer(#[trigger] f1[i], f2[i])
            && keys_sorted(f1[i].mappings) && keys_sorted(f2[i].mappings) by {
            assert(f1[i] == ls1[i]);
            assert(f2[i] == ls2[i]);
        }
        lemma_same_layers_lines(f1, f2);
        let n = ls1.len() - 1;
        assert(same_written_layer(ls1[n], ls2[n]));
        lemma_same_layer_lines(ls1.last(), ls2.last());
    }
}

/// The written text depends only on the ids, the layer names, each
/// layer's modifiers once sorted and each key table as a map from keys
/// to actions (tables being kept in key order, as every table is).
pub proof fn lemma_render_same_written(c1: ConfigView, c2: ConfigView)
    requires
        c1.ids == c2.ids,
        c1.layers.len() == c2.layers.len(),
        forall|i: int|
            0 <= i < c1.layers.len() ==> same_written_layer(#[trigger] c1.layers[i], c2.layers[i]),
        forall|i: int| 0 <= i < c1.layers.len() ==> keys_sorted(#[trigger] c1.layers[i].mappings),
        forall|i: int| 0 <= i < c2.layers.len() ==> keys_sorted(#[trigger] c2.layers[i].mappings),
    ensures
        render(c1) == render(c2),
{
    assert forall|i: int| 0 <= i < c1.layers.len() implies same_written_layer(
        #[trigger] c1.layers[i],
        c2.layers[i],
    ) && keys_sorted(c1.layers[i].mappings) && keys_sorted(c2.layers[i].mappings) by {
        assert(keys_sorted(c2.layers[i].mappings));
    }
    lemma_same_layers_lines(c1.layers, c2.layers);
    assert(config_lines(c1) == config_lines(c2));
}

// ---------------------------------------------------------------------------
// Lines the reader passes over
// ---------------------------------------------------------------------------

/// A line the reader passes over: blank, or a comment once trimmed.
pub open spec fn ignorable(l: Seq<char>) -> bool {
    trim(l).len() == 0 || trim(l)[0] == '#'
}

/// The lines the reader does not pass over, in order.
pub open spec fn significant(ls: Seq<Seq<char>>) -> Seq<Seq<char>>
    decreases ls.len(),
{
    if ls.len() == 0 {
        ls
    } else if ignorable(ls.last()) {
        significant(ls.drop_last())
    } else {
        significant(ls.drop_last()).push(ls.last())
    }
}

proof fn lemma_run_significant(st: ParseState, ls: Seq<Seq<char>>)
    ensures
        run_from(st, ls) == run_from(st, significant(ls)),
    decreases ls.len(),
{
    if ls.len() > 0 {
        lemma_run_significant(st, ls.drop_last());
        if !ignorable(ls.last()) {
            let g = significant(ls);
            assert(g.drop_last() == significant(ls.drop_last()));
            assert(g.last() == ls.last());
        }
    }
}

proof fn lemma_significant_append(a: Seq<Seq<char>>, b: Seq<Seq<char>>)
    ensures
        significant(a + b) == significant(a) + significant(b),
    decreases b.len(),
{
    if b.len() == 0 {
        assert(a + b == a);
        assert(significant(a) + significant(b) == significant(a));
    } else {
        lemma_significant_append(a, b.drop_last());
        assert((a + b).drop_last() == a + b.drop_last());
        assert((a + b).last() == b.last());
        if !ignorable(b.last()) {
            assert(significant(a) + significant(b.drop_last()).push(b.last()) == (significant(a)
                + significant(b.drop_last())).push(b.last()));
        }
    }
}

/// Two texts whose lines are the same once blank and comment lines are
/// passed over are read as the same configuration.
pub proof fn lemma_parse_significant(s: Seq<char>, t: Seq<char>)
    requires
        significant(lines_of(s)) == significant(lines_of(t)),
    ensures
        parse_config(s) == parse_config(t),
{
    lemma_run_significant(init_state(), lines_of(s));
    lemma_run_significant(init_state(), lines_of(t));
}

/// A blank or comment line put in at the start of a line changes nothing
/// that is read.
pub proof fn lemma_parse_extra_line(a: Seq<char>, l: Seq<char>, b: Seq<char>)
    requires
        a.len() == 0 || a.last() == '\n',
        !l.contains('\n'),
        ignorable(l),
    ensures
        parse_config(a + l.push('\n') + b) == parse_config(a + b),
{
    assert(split_acc(a).1.len() == 0) by {
        if a.len() > 0 {
            assert(a == a.drop_last().push('\n'));
        }
    }
    let e = Seq::<char>::empty();
    lemma_split_acc_no_newline(e, l);
    assert(e + l == l);
    assert(split_acc(e) == (Seq::<Seq<char>>::empty(), e));
    assert(split_acc(l) == (Seq::<Seq<char>>::empty(), l));
    let ln = l.push('\n');
    assert(ln.drop_last() == l);
    assert(split_acc(ln) == (seq![l], e));
    lemma_split_acc_append(ln, b);
    assert(a + ln + b == a + (ln + b));
    lemma_split_acc_append(a, ln + b);
    lemma_split_acc_append(a, b);
    let pa = split_acc(a).0;
    let (pb, cb) = split_acc(b);
    assert(lines_of(a + ln + b) == pa + (seq![l] + pb.push(cb)));
    assert(lines_of(a + b) == pa + pb.push(cb));
    lemma_significant_append(pa, seq![l] + pb.push(cb));
    lemma_significant_append(seq![l], pb.push(cb));
    lemma_significant_append(pa, pb.push(cb));
    assert(seq![l].drop_last() == Seq::<Seq<char>>::empty());
    assert(seq![l].last() == l);
    assert(significant(Seq::<Seq<char>>::empty()) == Seq::<Seq<char>>::empty());
    assert(significant(seq![l]) == significant(seq![l].drop_last()));
    assert(significant(seq![l]) == Seq::<Seq<char>>::empty());
    assert(Seq::<Seq<char>>::empty() + significant(pb.push(cb)) == significant(pb.push(cb)));
    lemma_parse_significant(a + ln + b, a + b);
}

/// The text with every `"\n"` written as `"\r\n"`.
pub open spec fn crlf(s: Seq<char>) -> Seq<char>
    decreases s.len(),
{
    if s.len() == 0 {
        s
    } else if s.last() == '\n' {
        crlf(s.drop_last()) + seq!['\r', '\n']
    } else {
        crlf(s.drop_last()).push(s.last())
    }
}

proof fn lemma_split_acc_crlf(s: Seq<char>)
    ensures
        split_acc(crlf(s)).0 == split_acc(s).0.map_values(|l: Seq<char>| l.push('\r')),
        split_acc(crlf(s)).1 == split_acc(s).1,
    decreases s.len(),
{
    if s.len() > 0 {
        let f = s.drop_last();
        lemma_split_acc_crlf(f);
        let (d, c) = split_acc(f);
        if s.last() == '\n' {
            let x = crlf(f).push('\r');
            assert(x.drop_last() == crlf(f));
            assert(crlf(s) == x.push('\n'));
            assert(x.push('\n').drop_last() == x);
            assert(x.last() == '\r');
            assert(split_acc(x) == (split_acc(crlf(f)).0, split_acc(crlf(f)).1.push('\r')));
            assert(x.push('\n').last() == '\n');
            assert(split_acc(crlf(s)) == (split_acc(x).0.push(split_acc(x).1), Seq::<char>::empty()));
            assert(split_acc(s) == (d.push(c), Seq::<char>::empty()));
            assert(d.push(c).map_values(|l: Seq<char>| l.push('\r')) == d.map_values(
                |l: Seq<char>| l.push('\r'),
            ).push(c.push('\r')));
        } else {
            assert(crlf(s).drop_last() == crlf(f));
            assert(crlf(s).last() == s.last());
        }
    }
}

proof fn lemma_trim_cr(l: Seq<char>)
    ensures
        trim(l.push('\r')) == trim(l),
{
    let cr = seq!['\r'];
    assert(l.push('\r') == l + cr);
    lemma_trim_start_concat(l, cr);
    assert(cr.drop_first() == Seq::<char>::empty());
    assert(trim_start(Seq::<char>::empty()) == Seq::<char>::empty());
    assert(trim_start(cr) == Seq::<char>::empty());
    let t = trim_start(l);
    if t.len() > 0 {
        assert((t + cr).drop_last() == t);
        assert((t + cr).last() == '\r');
    } else {
        assert(trim_end(Seq::<char>::empty()) == Seq::<char>::empty());
    }
}

proof fn lemma_run_same_trim(st: ParseState, ls: Seq<Seq<char>>, ms: Seq<Seq<char>>)
    requires
        ls.len() == ms.len(),
        forall|i: int| 0 <= i < ls.len() ==> trim(#[trigger] ls[i]) == trim(ms[i]),
    ensures
        run_from(st, ls) == run_from(st, ms),
    decreases ls.len(),
{
    if ls.len() > 0 {
        let f = ls.drop_last();
        let g = ms.drop_last();
        assert forall|i: int| 0 <= i < f.len() implies trim(#[trigger] f[i]) == trim(g[i]) by {
            assert(f[i] == ls[i]);
            assert(g[i] == ms[i]);
        }
        lemma_run_same_trim(st, f, g);
        assert(trim(ls[ls.len() - 1]) == trim(ms[ms.len() - 1]));
        assert(step(run_from(st, f), ls.last()) == step(run_from(st, g), ms.last()));
    }
}

/// `"\r\n"` line ends are read as `"\n"` ones.
pub proof fn lemma_parse_crlf(s: Seq<char>)
    ensures
        parse_config(crlf(s)) == parse_config(s),
{
    lemma_split_acc_crlf(s);
    let ls = lines_of(crlf(s));
    let ms = lines_of(s);
    assert forall|i: int| 0 <= i < ls.len() implies trim(#[trigger] ls[i]) == trim(ms[i]) by {
        if i < split_acc(s).0.len() {
            lemma_trim_cr(split_acc(s).0[i]);
        }
    }
    lemma_run_same_trim(init_state(), ls, ms);
}

} // verus!
