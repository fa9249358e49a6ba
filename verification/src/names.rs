//! Names the editor makes up (`device_1`, `New layer 2`, `key_3`), key
//! combinations recorded from the keyboard, and mouse button names.
use vstd::prelude::*;

use crate::text::{
    chars_eq, chars_of, decimal, decimal_chars, digit_char, push_char, push_chars, push_str,
    string_views,
};

verus! {

/// `prefix` followed by the decimal digits of `i`.
pub open spec fn numbered(prefix: Seq<char>, i: nat) -> Seq<char> {
    prefix + decimal(i)
}

/// The first `numbered(prefix, i)` with `i >= 1` that `taken` does not hold.
pub open spec fn is_first_free(prefix: Seq<char>, taken: Seq<Seq<char>>, i: nat) -> bool {
    &&& i >= 1
    &&& !taken.contains(numbered(prefix, i))
    &&& forall|j: nat| 1 <= j < i ==> taken.contains(#[trigger] numbered(prefix, j))
}

pub proof fn lemma_decimal_len(n: nat)
    ensures
        decimal(n).len() >= 1,
        n >= 10 ==> decimal(n).len() >= 2,
    decreases n,
{
    if n >= 10 {
        lemma_decimal_len(n / 10);
    }
}

pub proof fn lemma_digit_char_injective(a: nat, b: nat)
    requires
        a < 10,
        b < 10,
        digit_char(a) == digit_char(b),
    ensures
        a == b,
{
}

/// Different numbers have different decimal renderings.
pub proof fn lemma_decimal_injective(a: nat, b: nat)
    requires
        decimal(a) == decimal(b),
    ensures
        a == b,
    decreases a,
{
    lemma_decimal_len(a);
    lemma_decimal_len(b);
    if a < 10 {
        if b >= 10 {
            assert(decimal(a).len() == 1);
        } else {
            assert(decimal(a) == seq![digit_char(a)]);
            assert(decimal(b) == seq![digit_char(b)]);
            assert(seq![digit_char(a)][0] == digit_char(a));
            assert(seq![digit_char(b)][0] == digit_char(b));
            assert(decimal(a)[0] == decimal(b)[0]);
            lemma_digit_char_injective(a, b);
        }
    } else {
        if b < 10 {
            assert(decimal(b).len() == 1);
        } else {
            assert(decimal(a).last() == digit_char(a % 10));
            assert(decimal(b).last() == digit_char(b % 10));
            lemma_digit_char_injective(a % 10, b % 10);
            assert(decimal(a / 10) == decimal(a).drop_last());
            assert(decimal(b / 10) == decimal(b).drop_last());
            lemma_decimal_injective(a / 10, b / 10);
        }
    }
}

/// If the first `i` numbered names are all taken, `taken` has at least
/// `i` entries.
pub proof fn lemma_taken_bound(prefix: Seq<char>, taken: Seq<Seq<char>>, i: nat)
    requires
        forall|j: nat| 1 <= j <= i ==> taken.contains(#[trigger] numbered(prefix, j)),
    ensures
        i <= taken.len(),
{
    let f = |j: int| numbered(prefix, j as nat);
    let dom = vstd::set_lib::set_int_range(1, i as int + 1);
    vstd::set_lib::lemma_int_range(1, i as int + 1);
    assert forall|x: int, y: int| dom.contains(x) && dom.contains(y) && #[trigger] f(x) == #[trigger] f(
        y,
    ) implies x == y by {
        assert(decimal(x as nat) == f(x).skip(prefix.len() as int));
        assert(decimal(y as nat) == f(y).skip(prefix.len() as int));
        lemma_decimal_injective(x as nat, y as nat);
    }
    let img = dom.map(f);
    vstd::set_lib::lemma_map_size(dom, img, f);
    let t = taken.to_set();
    assert forall|s: Seq<char>| img.contains(s) implies t.contains(s) by {
        let x = choose|x: int| dom.contains(x) && f(x) == s;
        assert(taken.contains(numbered(prefix, x as nat)));
    }
    vstd::seq_lib::seq_to_set_is_finite(taken);
    vstd::set_lib::lemma_len_subset(img, t);
    taken.lemma_cardinality_of_set();
}

/// Is `name` among `taken`?
fn is_taken(taken: &Vec<String>, name: &[char]) -> (b: bool)
    ensures
        b == string_views(taken@).contains(name@),
{
    let n = taken.len();
    for k in 0..n
        invariant
            n == taken@.len(),
            forall|j: int| 0 <= j < k ==> string_views(taken@)[j] != name@,
    {
        let t = chars_of(taken[k].as_str());
        if chars_eq(t.as_slice(), name) {
            assert(string_views(taken@)[k as int] == name@);
            return true;
        }
    }
    false
}

/// `prefix` followed by the smallest number from 1 up that gives a name
/// `taken` does not hold.
pub fn first_free_name(prefix: &str, taken: &Vec<String>) -> (r: String)
    requires
        taken@.len() < usize::MAX,
    ensures
        exists|i: nat| is_first_free(prefix@, string_views(taken@), i) && r@ == numbered(prefix@, i),
{
    let p = chars_of(prefix);
    let ghost tv = string_views(taken@);
    let mut i: usize = 1;
    let mut cand = p.clone();
    assert(cand@ == p@);
    let d = decimal_chars(i);
    push_chars_vec(&mut cand, &d);
    while is_taken(taken, cand.as_slice())
        invariant
            tv == string_views(taken@),
            taken@.len() < usize::MAX,
            p@ == prefix@,
            1 <= i <= taken@.len() + 1,
            cand@ == numbered(prefix@, i as nat),
            forall|j: nat| 1 <= j < i ==> tv.contains(#[trigger] numbered(prefix@, j)),
        decreases taken@.len() + 1 - i,
    {
        proof {
            assert forall|j: nat| 1 <= j <= i implies tv.contains(#[trigger] numbered(prefix@, j)) by {
                if j < i {
                } else {
                    assert(j == i);
                }
            }
            lemma_taken_bound(prefix@, tv, i as nat);
        }
        i = i + 1;
        cand = p.clone();
        assert(cand@ == p@);
        let d = decimal_chars(i);
        push_chars_vec(&mut cand, &d);
    }
    let mut out = String::new();
    push_chars(&mut out, cand.as_slice());
    assert(is_first_free(prefix@, tv, i as nat));
    out
}

/// Append the characters of `b` to `a`.
fn push_chars_vec(a: &mut Vec<char>, b: &Vec<char>)
    ensures
        final(a)@ == old(a)@ + b@,
{
    let n = b.len();
    for k in 0..n
        invariant
            n == b@.len(),
            a@ == old(a)@ + b@.take(k as int),
    {
        a.push(b[k]);
        assert(b@.take(k + 1) == b@.take(k as int).push(b@[k as int]));
    }
    assert(b@.take(n as int) == b@);
}

/// The modifier letters held while a key was pressed, in the order
/// `C M A S`.
pub open spec fn held_letters(control: bool, logo: bool, alt: bool, shift: bool) -> Seq<char> {
    (if control {
        seq!['C']
    } else {
        seq![]
    }) + (if logo {
        seq!['M']
    } else {
        seq![]
    }) + (if alt {
        seq!['A']
    } else {
        seq![]
    }) + (if shift {
        seq!['S']
    } else {
        seq![]
    })
}

/// Each letter followed by `-`.
pub open spec fn dash_each(ls: Seq<char>) -> Seq<char>
    decreases ls.len(),
{
    if ls.len() == 0 {
        seq![]
    } else {
        dash_each(ls.drop_last()) + seq![ls.last(), '-']
    }
}

/// A recorded key combination: the held modifier letters, each followed
/// by `-`, then the key (`C-S-s`, or just `s`).
pub open spec fn combo(control: bool, logo: bool, alt: bool, shift: bool, key: Seq<char>) -> Seq<
    char,
> {
    dash_each(held_letters(control, logo, alt, shift)) + key
}

/// The text of a recorded key combination.
pub fn key_combination(control: bool, logo: bool, alt: bool, shift: bool, key: &str) -> (r: String)
    ensures
        r@ == combo(control, logo, alt, shift, key@),
{
    let mut letters: Vec<char> = Vec::new();
    if control {
        letters.push('C');
    }
    if logo {
        letters.push('M');
    }
    if alt {
        letters.push('A');
    }
    if shift {
        letters.push('S');
    }
    assert(letters@ == held_letters(control, logo, alt, shift));
    let mut out = String::new();
    let n = letters.len();
    for k in 0..n
        invariant
            n == letters@.len(),
            out@ == dash_each(letters@.take(k as int)),
    {
        push_char(&mut out, letters[k]);
        push_char(&mut out, '-');
        assert(letters@.take(k + 1).drop_last() == letters@.take(k as int));
    }
    assert(letters@.take(n as int) == letters@);
    push_str(&mut out, key);
    out
}

proof fn lemma_dash_each_append(x: Seq<char>, y: Seq<char>)
    ensures
        dash_each(x + y) == dash_each(x) + dash_each(y),
    decreases y.len(),
{
    if y.len() == 0 {
        assert(x + y == x);
        assert(dash_each(x) + dash_each(y) == dash_each(x));
    } else {
        lemma_dash_each_append(x, y.drop_last());
        assert((x + y).drop_last() == x + y.drop_last());
        assert((x + y).last() == y.last());
        assert(dash_each(x) + dash_each(y.drop_last()) + seq![y.last(), '-'] == dash_each(x) + (
        dash_each(y.drop_last()) + seq![y.last(), '-']));
    }
}

/// The text of one held modifier: its letter and `-`, or nothing.
proof fn lemma_dash_one(held: bool, c: char)
    ensures
        dash_each(if held {
            seq![c]
        } else {
            seq![]
        }) == if held {
            seq![c, '-']
        } else {
            Seq::<char>::empty()
        },
{
    if held {
        assert(seq![c].drop_last() == Seq::<char>::empty());
        assert(seq![c].last() == c);
        assert(dash_each(Seq::<char>::empty()) == Seq::<char>::empty());
        assert(Seq::<char>::empty() + seq![c, '-'] == seq![c, '-']);
    }
}

/// Two characters per held modifier before `at`.
pub open spec fn held_width(held: bool) -> int {
    if held {
        2
    } else {
        0
    }
}

/// The text of one modifier: its letter and `-` when held.
pub open spec fn dash_if(held: bool, c: char) -> Seq<char> {
    if held {
        seq![c, '-']
    } else {
        Seq::<char>::empty()
    }
}

proof fn lemma_combo_parts(c: bool, m: bool, a: bool, s: bool, key: Seq<char>)
    ensures
        combo(c, m, a, s, key) == dash_if(c, 'C') + dash_if(m, 'M') + dash_if(a, 'A') + dash_if(
            s,
            'S',
        ) + key,
{
    let pc: Seq<char> = if c {
        seq!['C']
    } else {
        seq![]
    };
    let pm: Seq<char> = if m {
        seq!['M']
    } else {
        seq![]
    };
    let pa: Seq<char> = if a {
        seq!['A']
    } else {
        seq![]
    };
    let ps: Seq<char> = if s {
        seq!['S']
    } else {
        seq![]
    };
    assert(held_letters(c, m, a, s) == pc + pm + pa + ps);
    lemma_dash_each_append(pc + pm + pa, ps);
    lemma_dash_each_append(pc + pm, pa);
    lemma_dash_each_append(pc, pm);
    lemma_dash_one(c, 'C');
    lemma_dash_one(m, 'M');
    lemma_dash_one(a, 'A');
    lemma_dash_one(s, 'S');
}

/// How a recorded combination is built, one modifier at a time: with
/// nothing held it is the key alone, and holding one more modifier puts
/// its letter and `-` into the text after the letters of the modifiers
/// that come before it in `C M A S`, leaving the rest as it was.
pub proof fn lemma_combo_modifiers(c: bool, m: bool, a: bool, s: bool, key: Seq<char>)
    ensures
        combo(false, false, false, false, key) == key,
        combo(true, m, a, s, key) == seq!['C', '-'] + combo(false, m, a, s, key),
        combo(c, true, a, s, key) == combo(c, false, a, s, key).take(held_width(c)) + seq![
            'M',
            '-',
        ] + combo(c, false, a, s, key).skip(held_width(c)),
        combo(c, m, true, s, key) == combo(c, m, false, s, key).take(
            held_width(c) + held_width(m),
        ) + seq!['A', '-'] + combo(c, m, false, s, key).skip(held_width(c) + held_width(m)),
        combo(c, m, a, true, key) == combo(c, m, a, false, key).take(
            held_width(c) + held_width(m) + held_width(a),
        ) + seq!['S', '-'] + combo(c, m, a, false, key).skip(
            held_width(c) + held_width(m) + held_width(a),
        ),
{
    let e = Seq::<char>::empty();
    lemma_combo_parts(false, false, false, false, key);
    assert(e + e + e + e + key == key);
    lemma_combo_c(m, a, s, key);
    lemma_combo_m(c, a, s, key);
    lemma_combo_a(c, m, s, key);
    lemma_combo_s(c, m, a, key);
}

proof fn lemma_combo_c(m: bool, a: bool, s: bool, key: Seq<char>)
    ensures
        combo(true, m, a, s, key) == seq!['C', '-'] + combo(false, m, a, s, key),
{
    lemma_combo_parts(true, m, a, s, key);
    lemma_combo_parts(false, m, a, s, key);
    let rest = dash_if(m, 'M') + dash_if(a, 'A') + dash_if(s, 'S') + key;
    assert(combo(true, m, a, s, key) =~= seq!['C', '-'] + rest);
    assert(combo(false, m, a, s, key) =~= rest);
}

proof fn lemma_combo_m(c: bool, a: bool, s: bool, key: Seq<char>)
    ensures
        combo(c, true, a, s, key) == combo(c, false, a, s, key).take(held_width(c)) + seq![
            'M',
            '-',
        ] + combo(c, false, a, s, key).skip(held_width(c)),
{
    lemma_combo_parts(c, true, a, s, key);
    lemma_combo_parts(c, false, a, s, key);
    let head = dash_if(c, 'C');
    let rest = dash_if(a, 'A') + dash_if(s, 'S') + key;
    let t = combo(c, false, a, s, key);
    assert(t =~= head + rest);
    assert(head.len() == held_width(c));
    assert(t.take(held_width(c)) =~= head);
    assert(t.skip(held_width(c)) =~= rest);
    assert(combo(c, true, a, s, key) =~= head + seq!['M', '-'] + rest);
}

proof fn lemma_combo_a(c: bool, m: bool, s: bool, key: Seq<char>)
    ensures
        combo(c, m, true, s, key) == combo(c, m, false, s, key).take(
            held_width(c) + held_width(m),
        ) + seq!['A', '-'] + combo(c, m, false, s, key).skip(held_width(c) + held_width(m)),
{
    lemma_combo_parts(c, m, true, s, key);
    lemma_combo_parts(c, m, false, s, key);
    let head = dash_if(c, 'C') + dash_if(m, 'M');
    let rest = dash_if(s, 'S') + key;
    let t = combo(c, m, false, s, key);
    let w = held_width(c) + held_width(m);
    assert(t =~= head + rest);
    assert(head.len() == w);
    assert(t.take(w) =~= head);
    assert(t.skip(w) =~= rest);
    assert(combo(c, m, true, s, key) =~= head + seq!['A', '-'] + rest);
}

proof fn lemma_combo_s(c: bool, m: bool, a: bool, key: Seq<char>)
    ensures
        combo(c, m, a, true, key) == combo(c, m, a, false, key).take(
            held_width(c) + held_width(m) + held_width(a),
        ) + seq!['S', '-'] + combo(c, m, a, false, key).skip(
            held_width(c) + held_width(m) + held_width(a),
        ),
{
    lemma_combo_parts(c, m, a, true, key);
    lemma_combo_parts(c, m, a, false, key);
    let head = dash_if(c, 'C') + dash_if(m, 'M') + dash_if(a, 'A');
    let t = combo(c, m, a, false, key);
    let w = held_width(c) + held_width(m) + held_width(a);
    assert(t =~= head + key);
    assert(head.len() == w);
    assert(t.take(w) =~= head);
    assert(t.skip(w) =~= key);
    assert(combo(c, m, a, true, key) =~= head + seq!['S', '-'] + key);
}

/// A mouse button.
#[derive(Clone, Copy, Debug, PartialEq, Eq, Structural)]
pub enum MouseButton {
    Left,
    Right,
    Middle,
    Back,
    Forward,
    Other(u16),
}

/// The key name keyd gives a mouse button.
pub open spec fn button_name_of(b: MouseButton) -> Seq<char> {
    match b {
        MouseButton::Left => seq!['l', 'e', 'f', 't', 'm', 'o', 'u', 's', 'e'],
        MouseButton::Right => seq!['r', 'i', 'g', 'h', 't', 'm', 'o', 'u', 's', 'e'],
        MouseButton::Middle => seq!['m', 'i', 'd', 'd', 'l', 'e', 'm', 'o', 'u', 's', 'e'],
        MouseButton::Back => seq!['m', 'o', 'u', 's', 'e', '1'],
        MouseButton::Forward => seq!['m', 'o', 'u', 's', 'e', '2'],
        MouseButton::Other(n) => seq!['m', 'o', 'u', 's', 'e'] + decimal(n as nat),
    }
}

/// The key name keyd gives a mouse button.
pub fn button_name(b: MouseButton) -> (r: String)
    ensures
        r@ == button_name_of(b),
{
    let v: Vec<char> = match b {
        MouseButton::Left => vec!['l', 'e', 'f', 't', 'm', 'o', 'u', 's', 'e'],
        MouseButton::Right => vec!['r', 'i', 'g', 'h', 't', 'm', 'o', 'u', 's', 'e'],
        MouseButton::Middle => vec!['m', 'i', 'd', 'd', 'l', 'e', 'm', 'o', 'u', 's', 'e'],
        MouseButton::Back => vec!['m', 'o', 'u', 's', 'e', '1'],
        MouseButton::Forward => vec!['m', 'o', 'u', 's', 'e', '2'],
        MouseButton::Other(n) => {
            let mut v: Vec<char> = vec!['m', 'o', 'u', 's', 'e'];
            let d = decimal_chars(n as usize);
            push_chars_vec(&mut v, &d);
            v
        },
    };
    let mut out = String::new();
    push_chars(&mut out, v.as_slice());
    out
}

} // verus!
