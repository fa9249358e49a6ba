//! The keyd configuration model and its text format: the `[ids]` section,
//! layer sections `[name]` or `[name:C-S]`, and `key = action` lines.
use vstd::prelude::*;

use crate::mappings::{assoc_insert, keys_sorted, EntryView, Mappings};
use crate::text::{
    chars_eq, chars_of, find_char, find_first, join_lines, lemma_find_char,
    lemma_join_lines_push, lines_of, push_char, push_str, slice_chars, split_lines, string_of,
    string_views, trim, trim_chars, views,
};

verus! {

// ---------------------------------------------------------------------------
// Model
// ---------------------------------------------------------------------------

/// A layer as values: its name, modifier letters and key table.
#[verifier::ext_equal]
pub struct LayerView {
    pub name: Seq<char>,
    pub modifiers: Seq<char>,
    pub mappings: Seq<EntryView>,
}

/// A configuration as values: device ids and layers, in order.
#[verifier::ext_equal]
pub struct ConfigView {
    pub ids: Seq<Seq<char>>,
    pub layers: Seq<LayerView>,
}

/// `"main"`
pub open spec fn main_name() -> Seq<char> {
    seq!['m', 'a', 'i', 'n']
}

/// `"ids"`
pub open spec fn ids_name() -> Seq<char> {
    seq!['i', 'd', 's']
}

/// `"*"`, the id that matches every device.
pub open spec fn wildcard_id() -> Seq<char> {
    seq!['*']
}

/// The `main` layer with nothing in it.
pub open spec fn empty_main() -> LayerView {
    LayerView { name: main_name(), modifiers: seq![], mappings: seq![] }
}

/// Where a modifier letter sorts: its place in `"CMASG"`, other letters last.
pub open spec fn mod_rank(c: char) -> nat {
    if c == 'C' {
        0
    } else if c == 'M' {
        1
    } else if c == 'A' {
        2
    } else if c == 'S' {
        3
    } else if c == 'G' {
        4
    } else {
        5
    }
}

/// Insert `c` before the first letter of greater rank.
pub open spec fn insert_by_rank(s: Seq<char>, c: char) -> Seq<char>
    decreases s.len(),
{
    if s.len() == 0 {
        seq![c]
    } else if mod_rank(c) < mod_rank(s[0]) {
        seq![c] + s
    } else {
        seq![s[0]] + insert_by_rank(s.drop_first(), c)
    }
}

/// Modifier letters stably sorted by rank.
pub open spec fn sort_mods(s: Seq<char>) -> Seq<char>
    decreases s.len(),
{
    if s.len() == 0 {
        s
    } else {
        insert_by_rank(sort_mods(s.drop_last()), s.last())
    }
}

/// Scan of a `-`-separated list: first letters so far, and whether the
/// scan stands at the start of a piece.
pub open spec fn heads_acc(s: Seq<char>) -> (Seq<char>, bool)
    decreases s.len(),
{
    if s.len() == 0 {
        (seq![], true)
    } else {
        let (h, at_start) = heads_acc(s.drop_last());
        let c = s.last();
        if c == '-' {
            (h, true)
        } else if at_start {
            (h.push(c), false)
        } else {
            (h, false)
        }
    }
}

/// The first letter of each non-empty piece of a `-`-separated list.
pub open spec fn piece_heads(s: Seq<char>) -> Seq<char> {
    heads_acc(s).0
}

/// The layer a section header `[sec]` opens: the name before the first
/// `:`, the modifiers after it.
pub open spec fn section_layer(sec: Seq<char>) -> LayerView {
    match find_char(sec, ':') {
        Some(i) => LayerView {
            name: sec.take(i as int),
            modifiers: sort_mods(piece_heads(sec.skip(i as int + 1))),
            mappings: seq![],
        },
        None => LayerView { name: sec, modifiers: seq![], mappings: seq![] },
    }
}

/// Reader state between lines.
#[verifier::ext_equal]
pub struct ParseState {
    pub layers: Seq<LayerView>,
    pub ids: Seq<Seq<char>>,
    pub current: Option<LayerView>,
    pub in_ids: bool,
}

pub open spec fn init_state() -> ParseState {
    ParseState { layers: seq![], ids: seq![], current: None, in_ids: false }
}

/// The finished layers with the open one closed.
pub open spec fn flush(st: ParseState) -> Seq<LayerView> {
    match st.current {
        Some(l) => st.layers.push(l),
        None => st.layers,
    }
}

/// A trimmed line that opens a section.
pub open spec fn is_section(line: Seq<char>) -> bool {
    line.len() > 0 && line[0] == '[' && line.last() == ']'
}

/// Read one line.
pub open spec fn step(st: ParseState, raw: Seq<char>) -> ParseState {
    let line = trim(raw);
    if line.len() == 0 || line[0] == '#' {
        st
    } else if is_section(line) {
        let sec = line.subrange(1, line.len() - 1);
        if sec == ids_name() {
            ParseState { layers: flush(st), ids: st.ids, current: None, in_ids: true }
        } else {
            ParseState {
                layers: flush(st),
                ids: st.ids,
                current: Some(section_layer(sec)),
                in_ids: false,
            }
        }
    } else if st.in_ids {
        ParseState { layers: st.layers, ids: st.ids.push(line), current: st.current, in_ids: true }
    } else {
        match st.current {
            Some(l) => match find_char(line, '=') {
                Some(i) => ParseState {
                    layers: st.layers,
                    ids: st.ids,
                    current: Some(
                        LayerView {
                            name: l.name,
                            modifiers: l.modifiers,
                            mappings: assoc_insert(
                                l.mappings,
                                trim(line.take(i as int)),
                                trim(line.skip(i as int + 1)),
                            ),
                        },
                    ),
                    in_ids: st.in_ids,
                },
                None => st,
            },
            None => st,
        }
    }
}

/// Read lines one after another, starting from `st`.
pub open spec fn run_from(st: ParseState, ls: Seq<Seq<char>>) -> ParseState
    decreases ls.len(),
{
    if ls.len() == 0 {
        st
    } else {
        step(run_from(st, ls.drop_last()), ls.last())
    }
}

/// Index of the first layer named `name`.
pub open spec fn find_layer(ls: Seq<LayerView>, name: Seq<char>) -> Option<nat>
    decreases ls.len(),
{
    if ls.len() == 0 {
        None
    } else if ls[0].name == name {
        Some(0)
    } else {
        match find_layer(ls.drop_first(), name) {
            Some(i) => Some(i + 1),
            None => None,
        }
    }
}

/// After the last line: close the open layer, bring the first `main`
/// layer to the front (adding an empty one if there is none), and make
/// the id list `["*"]` if it is empty.
pub open spec fn finish(st: ParseState) -> ConfigView {
    let layers = flush(st);
    ConfigView {
        ids: if st.ids.len() == 0 {
            seq![wildcard_id()]
        } else {
            st.ids
        },
        layers: match find_layer(layers, main_name()) {
            Some(p) => seq![layers[p as int]] + layers.remove(p as int),
            None => seq![empty_main()] + layers,
        },
    }
}

/// The configuration a text describes.
pub open spec fn parse_config(text: Seq<char>) -> ConfigView {
    finish(run_from(init_state(), lines_of(text)))
}

/// `"[ids]"`
pub open spec fn ids_header() -> Seq<char> {
    seq!['[', 'i', 'd', 's', ']']
}

/// Letters joined by `-`.
pub open spec fn join_dash(ms: Seq<char>) -> Seq<char>
    decreases ms.len(),
{
    if ms.len() == 0 {
        seq![]
    } else if ms.len() == 1 {
        seq![ms[0]]
    } else {
        join_dash(ms.drop_last()).push('-').push(ms.last())
    }
}

/// A layer's section header: `[name]`, or `[name:C-S]` with its modifiers
/// in sorted order.
pub open spec fn layer_header(l: LayerView) -> Seq<char> {
    if l.modifiers.len() == 0 {
        seq!['['] + l.name + seq![']']
    } else {
        seq!['['] + l.name + seq![':'] + join_dash(sort_mods(l.modifiers)) + seq![']']
    }
}

/// The line of one key table entry: `key = value`.
pub open spec fn entry_line(e: EntryView) -> Seq<char> {
    e.0 + seq![' ', '=', ' '] + e.1
}

/// The lines of a key table, in key order.
pub open spec fn entry_lines(es: Seq<EntryView>) -> Seq<Seq<char>> {
    es.map_values(|e: EntryView| entry_line(e))
}

/// The lines of one layer: header, entries, blank line.
pub open spec fn layer_lines(l: LayerView) -> Seq<Seq<char>> {
    seq![layer_header(l)] + entry_lines(l.mappings) + seq![Seq::<char>::empty()]
}

/// The lines of several layers, one after another.
pub open spec fn layers_lines(ls: Seq<LayerView>) -> Seq<Seq<char>>
    decreases ls.len(),
{
    if ls.len() == 0 {
        seq![]
    } else {
        layers_lines(ls.drop_last()) + layer_lines(ls.last())
    }
}

/// The lines before the layers: `[ids]`, the ids, a blank line.
pub open spec fn ids_lines(ids: Seq<Seq<char>>) -> Seq<Seq<char>> {
    seq![ids_header()] + ids + seq![Seq::<char>::empty()]
}

/// All lines of a configuration file.
pub open spec fn config_lines(c: ConfigView) -> Seq<Seq<char>> {
    ids_lines(c.ids) + layers_lines(c.layers)
}

/// The text of a configuration file.
pub open spec fn render(c: ConfigView) -> Seq<char> {
    join_lines(config_lines(c))
}

/// The layers without those named `name`.
pub open spec fn remove_named(ls: Seq<LayerView>, name: Seq<char>) -> Seq<LayerView>
    decreases ls.len(),
{
    if ls.len() == 0 {
        ls
    } else if ls.last().name == name {
        remove_named(ls.drop_last(), name)
    } else {
        remove_named(ls.drop_last(), name).push(ls.last())
    }
}

pub proof fn lemma_join_lines_append(a: Seq<Seq<char>>, b: Seq<Seq<char>>)
    ensures
        join_lines(a + b) == join_lines(a) + join_lines(b),
    decreases b.len(),
{
    if b.len() == 0 {
        assert(a + b == a);
    } else {
        lemma_join_lines_append(a, b.drop_last());
        assert((a + b).drop_last() == a + b.drop_last());
        assert(join_lines(a + b) == join_lines(a + b.drop_last()) + b.last().push('\n'));
    }
}

// ---------------------------------------------------------------------------
// Lemmas on the model
// ---------------------------------------------------------------------------

pub proof fn lemma_find_layer(ls: Seq<LayerView>, name: Seq<char>)
    ensures
        match find_layer(ls, name) {
            Some(i) => i < ls.len() && ls[i as int].name == name && forall|j: int|
                0 <= j < i ==> ls[j].name != name,
            None => forall|j: int| 0 <= j < ls.len() ==> ls[j].name != name,
        },
    decreases ls.len(),
{
    if ls.len() > 0 && ls[0].name != name {
        lemma_find_layer(ls.drop_first(), name);
        assert forall|j: int| 0 < j < ls.len() implies ls[j] == ls.drop_first()[j - 1] by {}
    }
}

pub proof fn lemma_find_layer_is(ls: Seq<LayerView>, name: Seq<char>, i: int)
    requires
        0 <= i < ls.len(),
        ls[i].name == name,
        forall|j: int| 0 <= j < i ==> ls[j].name != name,
    ensures
        find_layer(ls, name) == Some(i as nat),
{
    lemma_find_layer(ls, name);
}

pub proof fn lemma_find_layer_none(ls: Seq<LayerView>, name: Seq<char>)
    requires
        forall|j: int| 0 <= j < ls.len() ==> ls[j].name != name,
    ensures
        find_layer(ls, name) is None,
{
    lemma_find_layer(ls, name);
}

/// The first letter of greater rank is where `insert_by_rank` places `c`.
pub proof fn lemma_insert_by_rank_at(s: Seq<char>, c: char, p: int)
    requires
        0 <= p <= s.len(),
        forall|j: int| 0 <= j < p ==> mod_rank(#[trigger] s[j]) <= mod_rank(c),
        p < s.len() ==> mod_rank(c) < mod_rank(s[p]),
    ensures
        insert_by_rank(s, c) == s.insert(p, c),
    decreases s.len(),
{
    if s.len() == 0 {
        assert(s.insert(0, c) == seq![c]);
    } else if p == 0 {
        assert(s.insert(0, c) == seq![c] + s);
    } else {
        let t = s.drop_first();
        assert forall|j: int| 0 <= j < p - 1 implies mod_rank(#[trigger] t[j]) <= mod_rank(c) by {
            assert(t[j] == s[j + 1]);
        }
        if p < s.len() {
            assert(t[p - 1] == s[p]);
        }
        lemma_insert_by_rank_at(t, c, p - 1);
        assert(seq![s[0]] + t.insert(p - 1, c) == s.insert(p, c));
    }
}

// ---------------------------------------------------------------------------
// Executable model
// ---------------------------------------------------------------------------

/// One layer of a configuration.
#[derive(Clone, Debug)]
pub struct Layer {
    pub name: String,
    pub modifiers: Vec<char>,
    pub mappings: Mappings,
}

impl View for Layer {
    type V = LayerView;

    open spec fn view(&self) -> LayerView {
        LayerView { name: self.name@, modifiers: self.modifiers@, mappings: self.mappings@ }
    }
}

/// The views of a sequence of layers.
pub open spec fn layer_views(v: Seq<Layer>) -> Seq<LayerView> {
    v.map_values(|l: Layer| l@)
}

/// A keyd configuration file: the devices it targets and its layers.
#[derive(Clone, Debug)]
pub struct KeydConfig {
    pub ids: Vec<String>,
    pub layers: Vec<Layer>,
}

impl View for KeydConfig {
    type V = ConfigView;

    open spec fn view(&self) -> ConfigView {
        ConfigView { ids: string_views(self.ids@), layers: layer_views(self.layers@) }
    }
}

impl Default for Layer {
    fn default() -> (l: Self)
        ensures
            l@ == (LayerView { name: seq![], modifiers: seq![], mappings: seq![] }),
    {
        Layer { name: String::new(), modifiers: Vec::new(), mappings: Mappings::new() }
    }
}

impl Default for KeydConfig {
    fn default() -> (c: Self)
        ensures
            c@.ids.len() == 0,
            c@.layers.len() == 0,
    {
        KeydConfig { ids: Vec::new(), layers: Vec::new() }
    }
}

/// `"main"` as characters.
fn main_chars() -> (v: Vec<char>)
    ensures
        v@ == main_name(),
{
    vec!['m', 'a', 'i', 'n']
}

/// Rank of a modifier letter.
fn rank(c: char) -> (r: usize)
    ensures
        r == mod_rank(c),
{
    if c == 'C' {
        0
    } else if c == 'M' {
        1
    } else if c == 'A' {
        2
    } else if c == 'S' {
        3
    } else if c == 'G' {
        4
    } else {
        5
    }
}

/// First letters of the pieces of a `-`-separated list.
fn heads_of(s: &[char]) -> (h: Vec<char>)
    ensures
        h@ == piece_heads(s@),
{
    let n = s.len();
    let mut h: Vec<char> = Vec::new();
    let mut at_start = true;
    for i in 0..n
        invariant
            n == s@.len(),
            (h@, at_start) == heads_acc(s@.take(i as int)),
    {
        assert(s@.take(i + 1).drop_last() == s@.take(i as int));
        let c = s[i];
        if c == '-' {
            at_start = true;
        } else if at_start {
            h.push(c);
            at_start = false;
        }
    }
    assert(s@.take(n as int) == s@);
    h
}

/// The layer a section header opens.
fn section_from(sec: &[char]) -> (l: Layer)
    ensures
        l@ == section_layer(sec@),
{
    match find_first(sec, ':') {
        Some(i) => {
            let sl = sec.len();
            assert(i < sl);
            let name = string_of(slice_chars(sec, 0, i).as_slice());
            let mut mods = heads_of(slice_chars(sec, i + 1, sl).as_slice());
            KeydConfig::sort_modifiers(&mut mods);
            assert(sec@.subrange(0, i as int) == sec@.take(i as int));
            assert(sec@.subrange(i + 1, sec@.len() as int) == sec@.skip(i + 1));
            Layer { name, modifiers: mods, mappings: Mappings::new() }
        },
        None => {
            let name = string_of(sec);
            Layer { name, modifiers: Vec::new(), mappings: Mappings::new() }
        },
    }
}

/// Index of the first layer named `name`.
pub fn find_layer_index(layers: &Vec<Layer>, name: &[char]) -> (r: Option<usize>)
    ensures
        match r {
            Some(i) => find_layer(layer_views(layers@), name@) == Some(i as nat) && i
                < layers@.len(),
            None => find_layer(layer_views(layers@), name@) is None,
        },
{
    let n = layers.len();
    for k in 0..n
        invariant
            n == layers@.len(),
            forall|j: int| 0 <= j < k ==> layer_views(layers@)[j].name != name@,
    {
        let nm = chars_of(layers[k].name.as_str());
        if chars_eq(nm.as_slice(), name) {
            proof {
                lemma_find_layer_is(layer_views(layers@), name@, k as int);
            }
            return Some(k);
        }
    }
    proof {
        lemma_find_layer_none(layer_views(layers@), name@);
    }
    None
}

/// The reader state held by the executable parser, as values.
pub open spec fn state_view(
    layers: Seq<Layer>,
    ids: Seq<String>,
    current: Option<Layer>,
    in_ids: bool,
) -> ParseState {
    ParseState {
        layers: layer_views(layers),
        ids: string_views(ids),
        current: match current {
            Some(l) => Some(l@),
            None => None,
        },
        in_ids,
    }
}

impl KeydConfig {
    /// An empty configuration: no ids, no layers.
    pub fn new() -> (c: Self)
        ensures
            c@.ids.len() == 0,
            c@.layers.len() == 0,
    {
        let c = KeydConfig { ids: Vec::new(), layers: Vec::new() };
        c
    }

    /// Stable sort of modifier letters into the order `C M A S G`, other
    /// letters last.
    pub fn sort_modifiers(mods: &mut Vec<char>)
        ensures
            final(mods)@ == sort_mods(old(mods)@),
    {
        let n = mods.len();
        let mut sorted: Vec<char> = Vec::new();
        for i in 0..n
            invariant
                n == mods@.len(),
                sorted@ == sort_mods(mods@.take(i as int)),
        {
            let c = mods[i];
            let rc = rank(c);
            let m = sorted.len();
            let mut p: usize = 0;
            while p < m && rank(sorted[p]) <= rc
                invariant
                    m == sorted@.len(),
                    0 <= p <= m,
                    rc == mod_rank(c),
                    forall|j: int| 0 <= j < p ==> mod_rank(#[trigger] sorted@[j]) <= mod_rank(c),
                decreases m - p,
            {
                p = p + 1;
            }
            proof {
                lemma_insert_by_rank_at(sorted@, c, p as int);
                assert(mods@.take(i + 1).drop_last() == mods@.take(i as int));
            }
            sorted.insert(p, c);
        }
        assert(mods@.take(n as int) == mods@);
        *mods = sorted;
    }

    /// Append `c` and record it as one more finished line when `c` is a
    /// newline.
    fn push_line(out: &mut String, line: &str, Ghost(before): Ghost<Seq<Seq<char>>>)
        requires
            old(out)@ == join_lines(before),
        ensures
            final(out)@ == join_lines(before.push(line@)),
    {
        push_str(out, line);
        push_char(out, '\n');
        proof {
            lemma_join_lines_push(before, line@);
        }
    }

    /// The text of the configuration file: `[ids]`, one id per line, a
    /// blank line, then each layer's header, its entries in key order as
    /// `key = value`, and a blank line.
    pub fn to_string(&self) -> (s: String)
        ensures
            s@ == render(self@),
    {
        let mut out = String::new();
        let hdr: Vec<char> = vec!['[', 'i', 'd', 's', ']'];
        let hdr_s = string_of(hdr.as_slice());
        let ghost ids = self@.ids;
        assert(out@ == join_lines(Seq::<Seq<char>>::empty()));
        Self::push_line(&mut out, hdr_s.as_str(), Ghost(Seq::<Seq<char>>::empty()));
        assert(Seq::<Seq<char>>::empty().push(ids_header()) == seq![ids_header()]);
        let n = self.ids.len();
        for i in 0..n
            invariant
                n == self.ids@.len(),
                ids == self@.ids,
                out@ == join_lines(seq![ids_header()] + ids.take(i as int)),
        {
            Self::push_line(&mut out, self.ids[i].as_str(), Ghost(seq![ids_header()] + ids.take(i as int)));
            assert(seq![ids_header()] + ids.take(i + 1) == (seq![ids_header()] + ids.take(
                i as int,
            )).push(ids[i as int]));
        }
        assert(ids.take(n as int) == ids);
        let empty = String::new();
        Self::push_line(&mut out, empty.as_str(), Ghost(seq![ids_header()] + ids));
        let ghost base = ids_lines(ids);
        let ghost ls = self@.layers;
        assert((seq![ids_header()] + ids).push(Seq::<char>::empty()) == base);
        assert(ls.take(0) == Seq::<LayerView>::empty());
        assert(base + layers_lines(ls.take(0)) == base);
        let nl = self.layers.len();
        for i in 0..nl
            invariant
                nl == self.layers@.len(),
                ls == self@.layers,
                base == ids_lines(self@.ids),
                empty@ == Seq::<char>::empty(),
                out@ == join_lines(base + layers_lines(ls.take(i as int))),
        {
            let layer = &self.layers[i];
            let ghost lv = ls[i as int];
            let ghost before = base + layers_lines(ls.take(i as int));
            let mut header = String::new();
            push_char(&mut header, '[');
            push_str(&mut header, layer.name.as_str());
            if layer.modifiers.len() > 0 {
                let mut mods = layer.modifiers.clone();
                assert(mods@ == layer.modifiers@);
                Self::sort_modifiers(&mut mods);
                push_char(&mut header, ':');
                let m = mods.len();
                let ghost h0 = header@;
                for k in 0..m
                    invariant
                        m == mods@.len(),
                        header@ == h0 + join_dash(mods@.take(k as int)),
                {
                    if k > 0 {
                        push_char(&mut header, '-');
                    }
                    push_char(&mut header, mods[k]);
                    assert(mods@.take(k + 1).drop_last() == mods@.take(k as int));
                }
                assert(mods@.take(m as int) == mods@);
            }
            push_char(&mut header, ']');
            assert(header@ == layer_header(lv));
            Self::push_line(&mut out, header.as_str(), Ghost(before));
            let ghost es = lv.mappings;
            let ghost hb = before.push(layer_header(lv));
            assert(hb + entry_lines(es.take(0)) == hb);
            let ne = layer.mappings.len();
            for j in 0..ne
                invariant
                    ne == es.len(),
                    es == layer.mappings@,
                    out@ == join_lines(hb + entry_lines(es.take(j as int))),
            {
                let mut line = String::new();
                push_str(&mut line, layer.mappings.key_at(j).as_str());
                push_char(&mut line, ' ');
                push_char(&mut line, '=');
                push_char(&mut line, ' ');
                push_str(&mut line, layer.mappings.value_at(j).as_str());
                assert(line@ == entry_line(es[j as int]));
                Self::push_line(&mut out, line.as_str(), Ghost(hb + entry_lines(es.take(j as int))));
                assert(entry_lines(es.take(j + 1)) == entry_lines(es.take(j as int)).push(
                    entry_line(es[j as int]),
                ));
                assert(hb + entry_lines(es.take(j + 1)) == (hb + entry_lines(es.take(j as int))).push(
                    entry_line(es[j as int]),
                ));
            }
            assert(es.take(ne as int) == es);
            Self::push_line(&mut out, empty.as_str(), Ghost(hb + entry_lines(es)));
            proof {
                assert(ls.take(i + 1).drop_last() == ls.take(i as int));
                assert(layers_lines(ls.take(i + 1)) == layers_lines(ls.take(i as int)) + layer_lines(
                    lv,
                ));
                assert((hb + entry_lines(es)).push(Seq::<char>::empty()) == before + layer_lines(lv));
                assert(base + layers_lines(ls.take(i + 1)) == before + layer_lines(lv));
            }
        }
        assert(ls.take(nl as int) == ls);
        out
    }

    /// Add an empty layer named `name`, unless a layer of that name exists.
    pub fn add_layer(&mut self, name: String)
        ensures
            final(self)@.ids == old(self)@.ids,
            find_layer(old(self)@.layers, name@) is Some ==> final(self)@ == old(self)@,
            find_layer(old(self)@.layers, name@) is None ==> final(self)@.layers == old(self)@.layers.push(LayerView { name: name@, modifiers: seq![], mappings: seq![] }),
    {
        let nm = chars_of(name.as_str());
        match find_layer_index(&self.layers, nm.as_slice()) {
            Some(_) => {},
            None => {
                self.layers.push(Layer { name, modifiers: Vec::new(), mappings: Mappings::new() });
                assert(layer_views(self.layers@) == layer_views(old(self).layers@).push(
                    LayerView { name: nm@, modifiers: seq![], mappings: seq![] },
                ));
            },
        }
    }

    /// The first layer named `name`, for editing in place.
    pub fn get_layer_mut(&mut self, name: &str) -> (r: Option<&mut Layer>)
        ensures
            match find_layer(old(self)@.layers, name@) {
                Some(i) => r matches Some(l) && *l == old(self).layers@[i as int]
                    && final(self).layers@ == old(self).layers@.update(i as int, *final(l))
                    && final(self).ids == old(self).ids,
                None => r is None && *final(self) == *old(self),
            },
    {
        let nm = chars_of(name);
        match find_layer_index(&self.layers, nm.as_slice()) {
            Some(i) => Some(&mut self.layers[i]),
            None => None,
        }
    }

    /// Remove every layer named `name`; the `main` layer is never removed.
    pub fn remove_layer(&mut self, name: &str)
        ensures
            final(self)@.ids == old(self)@.ids,
            name@ == main_name() ==> final(self)@ == old(self)@,
            name@ != main_name() ==> final(self)@.layers == remove_named(
                old(self)@.layers,
                name@,
            ),
    {
        let nm = chars_of(name);
        let main = main_chars();
        if chars_eq(nm.as_slice(), main.as_slice()) {
            return;
        }
        let mut old_layers: Vec<Layer> = Vec::new();
        std::mem::swap(&mut old_layers, &mut self.layers);
        let ghost ls = layer_views(old_layers@);
        let mut kept: Vec<Layer> = Vec::new();
        let n = old_layers.len();
        let mut rest = old_layers;
        for i in 0..n
            invariant
                n == ls.len(),
                layer_views(rest@) == ls.skip(i as int),
                layer_views(kept@) == remove_named(ls.take(i as int), nm@),
        {
            let ghost rv = layer_views(rest@);
            assert(rv.len() == rest@.len());
            assert(rv[0] == ls[i as int]);
            let l = rest.remove(0);
            assert(layer_views(rest@) == rv.drop_first());
            assert(ls.skip(i as int).drop_first() == ls.skip(i + 1));
            assert(ls.take(i + 1).drop_last() == ls.take(i as int));
            assert(l@ == ls[i as int]);
            let ln = chars_of(l.name.as_str());
            if !chars_eq(ln.as_slice(), nm.as_slice()) {
                kept.push(l);
                assert(layer_views(kept@) == remove_named(ls.take(i as int), nm@).push(l@));
            }
        }
        assert(ls.take(n as int) == ls);
        self.layers = kept;
    }

    /// Parse the text of a configuration file.
    pub fn from_str(s: &str) -> (c: Self)
        ensures
            c@ == parse_config(s@),
    {
        let chars = chars_of(s);
        let lines = split_lines(chars.as_slice());
        let ghost ls = views(lines@);
        let mut layers: Vec<Layer> = Vec::new();
        let mut ids: Vec<String> = Vec::new();
        let mut current: Option<Layer> = None;
        let mut in_ids = false;
        let n = lines.len();
        for i in 0..n
            invariant
                n == lines@.len(),
                ls == views(lines@),
                ls == lines_of(s@),
                state_view(layers@, ids@, current, in_ids) == run_from(
                    init_state(),
                    ls.take(i as int),
                ),
        {
            let ghost before = state_view(layers@, ids@, current, in_ids);
            proof {
                assert(ls.take(i + 1).drop_last() == ls.take(i as int));
                assert(ls.take(i + 1).last() == lines@[i as int]@);
            }
            let line = trim_chars(lines[i].as_slice());
            let len = line.len();
            if len == 0 || line[0] == '#' {
            } else if line[0] == '[' && line[len - 1] == ']' {
                match current.take() {
                    Some(l) => {
                        layers.push(l);
                    },
                    None => {},
                }
                assert(layer_views(layers@) == flush(before));
                let sec = slice_chars(line.as_slice(), 1, len - 1);
                let ids_chars: Vec<char> = vec!['i', 'd', 's'];
                if chars_eq(sec.as_slice(), ids_chars.as_slice()) {
                    in_ids = true;
                } else {
                    in_ids = false;
                    current = Some(section_from(sec.as_slice()));
                }
            } else if in_ids {
                ids.push(string_of(line.as_slice()));
                assert(string_views(ids@) == before.ids.push(line@));
            } else {
                match current {
                    Some(mut l) => {
                        match find_first(line.as_slice(), '=') {
                            Some(p) => {
                                let key = trim_chars(slice_chars(line.as_slice(), 0, p).as_slice());
                                let value = trim_chars(
                                    slice_chars(line.as_slice(), p + 1, len).as_slice(),
                                );
                                assert(line@.subrange(0, p as int) == line@.take(p as int));
                                assert(line@.subrange(p + 1, len as int) == line@.skip(p + 1));
                                l.mappings.insert(
                                    string_of(key.as_slice()),
                                    string_of(value.as_slice()),
                                );
                            },
                            None => {},
                        }
                        current = Some(l);
                    },
                    None => {
                        current = None;
                    },
                }
            }
        }
        proof {
            assert(ls.take(n as int) == ls);
        }
        let ghost last = state_view(layers@, ids@, current, in_ids);
        match current.take() {
            Some(l) => {
                layers.push(l);
            },
            None => {},
        }
        assert(layer_views(layers@) == flush(last));
        let main = main_chars();
        let pos = find_layer_index(&layers, main.as_slice());
        let ghost flushed = layer_views(layers@);
        match pos {
            Some(p) => {
                proof {
                    lemma_find_layer(flushed, main_name());
                }
                let m = layers.remove(p);
                layers.insert(0, m);
                assert(layer_views(layers@) == seq![flushed[p as int]] + flushed.remove(p as int));
            },
            None => {
                let m = Layer {
                    name: string_of(main.as_slice()),
                    modifiers: Vec::new(),
                    mappings: Mappings::new(),
                };
                layers.insert(0, m);
                assert(layer_views(layers@) == seq![empty_main()] + flushed);
            },
        }
        if ids.len() == 0 {
            let star: Vec<char> = vec!['*'];
            ids.push(string_of(star.as_slice()));
            assert(string_views(ids@)[0] == wildcard_id());
            assert(string_views(ids@) == seq![wildcard_id()]);
        }
        KeydConfig { ids, layers }
    }
}

} // verus!
