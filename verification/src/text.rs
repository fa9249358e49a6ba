//! Character-sequence building blocks: whitespace trimming, line splitting,
//! lexicographic order and decimal rendering, each with the mathematical
//! definition it is proved against.
use vstd::prelude::*;

verus! {

// ---------------------------------------------------------------------------
// Specifications
// ---------------------------------------------------------------------------

/// Unicode `White_Space`, the set that `char::is_whitespace` tests.
pub open spec fn is_ws(c: char) -> bool {
    ||| c == '\t'
    ||| c == '\n'
    ||| c == '\x0B'
    ||| c == '\x0C'
    ||| c == '\r'
    ||| c == ' '
    ||| c == '\u{85}'
    ||| c == '\u{A0}'
    ||| c == '\u{1680}'
    ||| ('\u{2000}' <= c && c <= '\u{200A}')
    ||| c == '\u{2028}'
    ||| c == '\u{2029}'
    ||| c == '\u{202F}'
    ||| c == '\u{205F}'
    ||| c == '\u{3000}'
}

/// Drop leading whitespace.
pub open spec fn trim_start(s: Seq<char>) -> Seq<char>
    decreases s.len(),
{
    if s.len() > 0 && is_ws(s[0]) {
        trim_start(s.drop_first())
    } else {
        s
    }
}

/// Drop trailing whitespace.
pub open spec fn trim_end(s: Seq<char>) -> Seq<char>
    decreases s.len(),
{
    if s.len() > 0 && is_ws(s.last()) {
        trim_end(s.drop_last())
    } else {
        s
    }
}

/// `str::trim`: whitespace removed from both ends.
pub open spec fn trim(s: Seq<char>) -> Seq<char> {
    trim_end(trim_start(s))
}

/// The pieces of `s` between `'\n'` characters, scanning left to right:
/// the finished pieces and the piece still open.
pub open spec fn split_acc(s: Seq<char>) -> (Seq<Seq<char>>, Seq<char>)
    decreases s.len(),
{
    if s.len() == 0 {
        (seq![], seq![])
    } else {
        let (done, cur) = split_acc(s.drop_last());
        if s.last() == '\n' {
            (done.push(cur), seq![])
        } else {
            (done, cur.push(s.last()))
        }
    }
}

/// `s` split at every `'\n'` (always at least one piece).
pub open spec fn lines_of(s: Seq<char>) -> Seq<Seq<char>> {
    split_acc(s).0.push(split_acc(s).1)
}

/// Every line followed by a newline, concatenated.
pub open spec fn join_lines(ls: Seq<Seq<char>>) -> Seq<char>
    decreases ls.len(),
{
    if ls.len() == 0 {
        seq![]
    } else {
        join_lines(ls.drop_last()) + ls.last().push('\n')
    }
}

/// Lexicographic order on character sequences, characters compared by
/// code point (the order of `String`'s `Ord`).
pub open spec fn seq_lt(a: Seq<char>, b: Seq<char>) -> bool
    decreases a.len(),
{
    if a.len() == 0 {
        b.len() > 0
    } else if b.len() == 0 {
        false
    } else if a[0] != b[0] {
        (a[0] as int) < (b[0] as int)
    } else {
        seq_lt(a.drop_first(), b.drop_first())
    }
}

/// The character of a decimal digit.
pub open spec fn digit_char(d: nat) -> char {
    if d == 0 {
        '0'
    } else if d == 1 {
        '1'
    } else if d == 2 {
        '2'
    } else if d == 3 {
        '3'
    } else if d == 4 {
        '4'
    } else if d == 5 {
        '5'
    } else if d == 6 {
        '6'
    } else if d == 7 {
        '7'
    } else if d == 8 {
        '8'
    } else {
        '9'
    }
}

/// Decimal rendering of a natural number, as `format!("{}", n)` prints it.
pub open spec fn decimal(n: nat) -> Seq<char>
    decreases n,
{
    if n < 10 {
        seq![digit_char(n)]
    } else {
        decimal(n / 10).push(digit_char(n % 10))
    }
}

/// Index of the first occurrence of `c` in `s`.
pub open spec fn find_char(s: Seq<char>, c: char) -> Option<nat>
    decreases s.len(),
{
    if s.len() == 0 {
        None
    } else if s[0] == c {
        Some(0)
    } else {
        match find_char(s.drop_first(), c) {
            Some(i) => Some(i + 1),
            None => None,
        }
    }
}

/// Index of the last occurrence of `c` in `s`.
pub open spec fn rfind_char(s: Seq<char>, c: char) -> Option<nat>
    decreases s.len(),
{
    if s.len() == 0 {
        None
    } else if s.last() == c {
        Some((s.len() - 1) as nat)
    } else {
        rfind_char(s.drop_last(), c)
    }
}

/// The views of a sequence of character vectors.
pub open spec fn views(v: Seq<Vec<char>>) -> Seq<Seq<char>> {
    v.map_values(|x: Vec<char>| x@)
}

/// The views of a sequence of strings.
pub open spec fn string_views(v: Seq<String>) -> Seq<Seq<char>> {
    v.map_values(|x: String| x@)
}

// ---------------------------------------------------------------------------
// Lemmas
// ---------------------------------------------------------------------------

pub proof fn lemma_find_char(s: Seq<char>, c: char)
    ensures
        match find_char(s, c) {
            Some(i) => i < s.len() && s[i as int] == c && forall|j: int|
                0 <= j < i ==> s[j] != c,
            None => forall|j: int| 0 <= j < s.len() ==> s[j] != c,
        },
    decreases s.len(),
{
    if s.len() > 0 && s[0] != c {
        lemma_find_char(s.drop_first(), c);
        match find_char(s.drop_first(), c) {
            Some(i) => {
                assert forall|j: int| 0 <= j < i + 1 implies s[j] != c by {
                    if j > 0 {
                        assert(s[j] == s.drop_first()[j - 1]);
                    }
                }
            },
            None => {
                assert forall|j: int| 0 <= j < s.len() implies s[j] != c by {
                    if j > 0 {
                        assert(s[j] == s.drop_first()[j - 1]);
                    }
                }
            },
        }
    }
}

/// `find_char` is characterised by its index property.
pub proof fn lemma_find_char_is(s: Seq<char>, c: char, i: int)
    requires
        0 <= i < s.len(),
        s[i] == c,
        forall|j: int| 0 <= j < i ==> s[j] != c,
    ensures
        find_char(s, c) == Some(i as nat),
{
    lemma_find_char(s, c);
    match find_char(s, c) {
        Some(k) => {
            if (k as int) < i {
            } else if (k as int) > i {
            }
        },
        None => {},
    }
}

pub proof fn lemma_find_char_none(s: Seq<char>, c: char)
    requires
        forall|j: int| 0 <= j < s.len() ==> s[j] != c,
    ensures
        find_char(s, c) is None,
{
    lemma_find_char(s, c);
}

pub proof fn lemma_rfind_char(s: Seq<char>, c: char)
    ensures
        match rfind_char(s, c) {
            Some(i) => i < s.len() && s[i as int] == c && forall|j: int|
                i < j < s.len() ==> s[j] != c,
            None => forall|j: int| 0 <= j < s.len() ==> s[j] != c,
        },
    decreases s.len(),
{
    if s.len() > 0 && s.last() != c {
        lemma_rfind_char(s.drop_last(), c);
        assert forall|j: int| 0 <= j < s.len() - 1 implies s[j] == s.drop_last()[j] by {}
    }
}

/// `rfind_char` is characterised by its index property.
pub proof fn lemma_rfind_char_is(s: Seq<char>, c: char, i: int)
    requires
        0 <= i < s.len(),
        s[i] == c,
        forall|j: int| i < j < s.len() ==> s[j] != c,
    ensures
        rfind_char(s, c) == Some(i as nat),
{
    lemma_rfind_char(s, c);
    match rfind_char(s, c) {
        Some(k) => {
            if (k as int) < i {
            } else if (k as int) > i {
            }
        },
        None => {},
    }
}

pub proof fn lemma_rfind_char_none(s: Seq<char>, c: char)
    requires
        forall|j: int| 0 <= j < s.len() ==> s[j] != c,
    ensures
        rfind_char(s, c) is None,
{
    lemma_rfind_char(s, c);
}

/// Trimming keeps a contiguous part: each character of the result is a
/// character of the input, the first non-blank first character and the
/// last non-blank last character stay in place.
pub proof fn lemma_trim_parts(x: Seq<char>)
    ensures
        forall|c: char| trim(x).contains(c) ==> x.contains(c),
        x.len() > 0 && !is_ws(x[0]) && trim(x).len() > 0 ==> trim(x)[0] == x[0],
        x.len() > 0 && !is_ws(x.last()) && trim(x).len() > 0 ==> trim(x).last() == x.last(),
        trim(trim(x)) == trim(x),
{
    lemma_trim_start_suffix(x);
    let i = choose|i: int|
        0 <= i <= x.len() && trim_start(x) == x.skip(i) && (forall|j: int|
            0 <= j < i ==> is_ws(#[trigger] x[j]));
    let y = x.skip(i);
    lemma_trim_end_prefix(y);
    let k = choose|k: int|
        0 <= k <= y.len() && trim_end(y) == y.take(k) && (forall|j: int|
            k <= j < y.len() ==> is_ws(#[trigger] y[j]));
    let t = trim(x);
    assert(t == y.take(k));
    assert forall|c: char| t.contains(c) implies x.contains(c) by {
        let q = choose|q: int| 0 <= q < t.len() && t[q] == c;
        assert(t[q] == x[i + q]);
    }
    if x.len() > 0 && !is_ws(x[0]) && t.len() > 0 {
        if i > 0 {
            assert(is_ws(x[0]));
        }
        assert(t[0] == x[0]);
    }
    if x.len() > 0 && !is_ws(x.last()) && t.len() > 0 {
        assert(y.len() > 0);
        assert(y.last() == x.last());
        if k < y.len() {
            assert(is_ws(y[y.len() - 1]));
        }
        assert(t == y);
    }
    lemma_trim_ends(x);
    lemma_trim_fixed(t);
}

/// No piece of a split contains the separator.
pub proof fn lemma_lines_one_line(s: Seq<char>)
    ensures
        forall|i: int| 0 <= i < lines_of(s).len() ==> !(#[trigger] lines_of(s)[i]).contains('\n'),
        forall|i: int|
            0 <= i < split_acc(s).0.len() ==> !(#[trigger] split_acc(s).0[i]).contains('\n'),
        !split_acc(s).1.contains('\n'),
    decreases s.len(),
{
    if s.len() > 0 {
        lemma_lines_one_line(s.drop_last());
        let (d, c) = split_acc(s.drop_last());
        if s.last() != '\n' {
            let c2 = c.push(s.last());
            assert forall|q: int| 0 <= q < c2.len() implies c2[q] != '\n' by {
                if q < c.len() {
                    assert(c2[q] == c[q]);
                    assert(c.contains(c[q]));
                }
            }
        } else {
            let d2 = d.push(c);
            assert forall|i: int| 0 <= i < d2.len() implies !(#[trigger] d2[i]).contains('\n') by {
                if i < d.len() {
                    assert(d2[i] == d[i]);
                }
            }
            assert(Seq::<char>::empty().len() == 0);
        }
    }
    let l = lines_of(s);
    assert forall|i: int| 0 <= i < l.len() implies !(#[trigger] l[i]).contains('\n') by {
        if i < split_acc(s).0.len() {
            assert(l[i] == split_acc(s).0[i]);
        } else {
            assert(l[i] == split_acc(s).1);
        }
    }
}

pub proof fn lemma_trim_start_suffix(s: Seq<char>)
    ensures
        exists|i: int|
            0 <= i <= s.len() && trim_start(s) == s.skip(i) && (forall|j: int|
                0 <= j < i ==> is_ws(#[trigger] s[j])),
        trim_start(s).len() > 0 ==> !is_ws(trim_start(s)[0]),
    decreases s.len(),
{
    if s.len() > 0 && is_ws(s[0]) {
        lemma_trim_start_suffix(s.drop_first());
        let i = choose|i: int|
            0 <= i <= s.drop_first().len() && trim_start(s.drop_first()) == s.drop_first().skip(i)
                && (forall|j: int| 0 <= j < i ==> is_ws(#[trigger] s.drop_first()[j]));
        assert(s.drop_first().skip(i) == s.skip(i + 1));
        assert forall|j: int| 0 <= j < i + 1 implies is_ws(#[trigger] s[j]) by {
            if j > 0 {
                assert(s[j] == s.drop_first()[j - 1]);
            }
        }
    } else {
        assert(s.skip(0) == s);
    }
}

pub proof fn lemma_trim_end_prefix(s: Seq<char>)
    ensures
        exists|i: int|
            0 <= i <= s.len() && trim_end(s) == s.take(i) && (forall|j: int|
                i <= j < s.len() ==> is_ws(#[trigger] s[j])),
        trim_end(s).len() > 0 ==> !is_ws(trim_end(s).last()),
    decreases s.len(),
{
    if s.len() > 0 && is_ws(s.last()) {
        lemma_trim_end_prefix(s.drop_last());
        let i = choose|i: int|
            0 <= i <= s.drop_last().len() && trim_end(s.drop_last()) == s.drop_last().take(i)
                && (forall|j: int| i <= j < s.drop_last().len() ==> is_ws(#[trigger] s.drop_last()[j]));
        assert(s.drop_last().take(i) == s.take(i));
        assert forall|j: int| i <= j < s.len() implies is_ws(#[trigger] s[j]) by {
            if j < s.len() - 1 {
                assert(s[j] == s.drop_last()[j]);
            }
        }
    } else {
        assert(s.take(s.len() as int) == s);
    }
}

/// Trimming leaves no whitespace at either end.
pub proof fn lemma_trim_ends(s: Seq<char>)
    ensures
        trim(s).len() > 0 ==> !is_ws(trim(s)[0]) && !is_ws(trim(s).last()),
{
    lemma_trim_start_suffix(s);
    lemma_trim_end_prefix(trim_start(s));
    let t = trim_start(s);
    if trim(s).len() > 0 {
        assert(trim(s)[0] == t[0]);
    }
}

/// A sequence with no whitespace at its ends is its own trim.
pub proof fn lemma_trim_fixed(s: Seq<char>)
    requires
        s.len() > 0 ==> !is_ws(s[0]) && !is_ws(s.last()),
    ensures
        trim(s) == s,
{
}

pub proof fn lemma_seq_lt_irreflexive(a: Seq<char>)
    ensures
        !seq_lt(a, a),
    decreases a.len(),
{
    if a.len() > 0 {
        lemma_seq_lt_irreflexive(a.drop_first());
    }
}

pub proof fn lemma_seq_lt_transitive(a: Seq<char>, b: Seq<char>, c: Seq<char>)
    requires
        seq_lt(a, b),
        seq_lt(b, c),
    ensures
        seq_lt(a, c),
    decreases a.len(),
{
    if a.len() > 0 && b.len() > 0 && c.len() > 0 {
        if a[0] == b[0] && b[0] == c[0] {
            lemma_seq_lt_transitive(a.drop_first(), b.drop_first(), c.drop_first());
        }
    }
}

pub proof fn lemma_seq_lt_total(a: Seq<char>, b: Seq<char>)
    ensures
        a == b || seq_lt(a, b) || seq_lt(b, a),
    decreases a.len(),
{
    if a.len() > 0 && b.len() > 0 {
        if a[0] == b[0] {
            lemma_seq_lt_total(a.drop_first(), b.drop_first());
            if a.drop_first() == b.drop_first() {
                assert(a == seq![a[0]] + a.drop_first());
                assert(b == seq![b[0]] + b.drop_first());
            }
        } else {
            assert((a[0] as int) != (b[0] as int));
        }
    } else if a.len() == 0 && b.len() == 0 {
        assert(a == b);
    }
}

pub proof fn lemma_seq_lt_asymmetric(a: Seq<char>, b: Seq<char>)
    requires
        seq_lt(a, b),
    ensures
        !seq_lt(b, a),
    decreases a.len(),
{
    if a.len() > 0 && b.len() > 0 && a[0] == b[0] {
        lemma_seq_lt_asymmetric(a.drop_first(), b.drop_first());
    }
}

pub proof fn lemma_join_lines_push(ls: Seq<Seq<char>>, l: Seq<char>)
    ensures
        join_lines(ls.push(l)) == join_lines(ls) + l.push('\n'),
{
    assert(ls.push(l).drop_last() == ls);
}

/// Reading characters with no newline extends the open piece.
/// Splitting text that starts with whole lines splits those lines, then
/// the rest.
pub proof fn lemma_split_acc_append(x: Seq<char>, y: Seq<char>)
    requires
        split_acc(x).1.len() == 0,
    ensures
        split_acc(x + y) == (split_acc(x).0 + split_acc(y).0, split_acc(y).1),
    decreases y.len(),
{
    if y.len() == 0 {
        assert(x + y == x);
        assert(split_acc(x).0 + Seq::<Seq<char>>::empty() == split_acc(x).0);
    } else {
        lemma_split_acc_append(x, y.drop_last());
        assert((x + y).drop_last() == x + y.drop_last());
        assert((x + y).last() == y.last());
        let (d, c) = split_acc(y.drop_last());
        assert((split_acc(x).0 + d).push(c) == split_acc(x).0 + d.push(c));
    }
}

pub proof fn lemma_split_acc_no_newline(p: Seq<char>, l: Seq<char>)
    requires
        !l.contains('\n'),
    ensures
        split_acc(p + l) == (split_acc(p).0, split_acc(p).1 + l),
    decreases l.len(),
{
    if l.len() == 0 {
        assert(p + l == p);
        assert(split_acc(p).1 + l == split_acc(p).1);
    } else {
        let l0 = l.drop_last();
        assert(!l0.contains('\n')) by {
            if l0.contains('\n') {
                let j = choose|j: int| 0 <= j < l0.len() && l0[j] == '\n';
                assert(l[j] == '\n');
            }
        }
        lemma_split_acc_no_newline(p, l0);
        assert((p + l).drop_last() == p + l0);
        assert((p + l).last() == l.last());
        assert(l.last() != '\n') by {
            assert(l[l.len() - 1] == l.last());
        }
        assert(split_acc(p).1 + l0 + seq![l.last()] == split_acc(p).1 + l);
    }
}

/// Splitting the joined lines gives the lines back, then the empty piece
/// after the last newline.
pub proof fn lemma_lines_of_join(ls: Seq<Seq<char>>)
    requires
        forall|i: int| 0 <= i < ls.len() ==> !(#[trigger] ls[i]).contains('\n'),
    ensures
        split_acc(join_lines(ls)) == (ls, Seq::<char>::empty()),
        lines_of(join_lines(ls)) == ls.push(Seq::<char>::empty()),
    decreases ls.len(),
{
    if ls.len() == 0 {
        assert(join_lines(ls) == Seq::<char>::empty());
        assert(ls == Seq::<Seq<char>>::empty());
    } else {
        let front = ls.drop_last();
        assert forall|i: int| 0 <= i < front.len() implies !(#[trigger] front[i]).contains('\n') by {
            assert(front[i] == ls[i]);
        }
        lemma_lines_of_join(front);
        let j = join_lines(front);
        let l = ls.last();
        assert(!l.contains('\n')) by {
            assert(ls[ls.len() - 1] == l);
        }
        lemma_split_acc_no_newline(j, l);
        assert(join_lines(ls) == j + l.push('\n'));
        assert((j + l.push('\n')).drop_last() == j + l);
        assert(Seq::<char>::empty() + l == l);
        assert(front.push(l) == ls);
    }
}

/// Leading whitespace of a concatenation.
pub proof fn lemma_trim_start_concat(x: Seq<char>, y: Seq<char>)
    ensures
        trim_start(x + y) == if trim_start(x).len() > 0 {
            trim_start(x) + y
        } else {
            trim_start(y)
        },
    decreases x.len(),
{
    if x.len() == 0 {
        assert(x + y == y);
    } else if is_ws(x[0]) {
        lemma_trim_start_concat(x.drop_first(), y);
        assert((x + y).drop_first() == x.drop_first() + y);
        assert((x + y)[0] == x[0]);
    } else {
        assert((x + y)[0] == x[0]);
    }
}

/// Trailing whitespace of a concatenation.
pub proof fn lemma_trim_end_concat(x: Seq<char>, y: Seq<char>)
    ensures
        trim_end(x + y) == if trim_end(y).len() > 0 {
            x + trim_end(y)
        } else {
            trim_end(x)
        },
    decreases y.len(),
{
    if y.len() == 0 {
        assert(x + y == x);
    } else if is_ws(y.last()) {
        lemma_trim_end_concat(x, y.drop_last());
        assert((x + y).drop_last() == x + y.drop_last());
        assert((x + y).last() == y.last());
    } else {
        assert((x + y).last() == y.last());
    }
}

// ---------------------------------------------------------------------------
// Executable functions
// ---------------------------------------------------------------------------

/// `String::push`, which appends one character.
#[verifier::external_body]
pub(crate) fn push_char(s: &mut String, c: char)
    ensures
        final(s)@ == old(s)@.push(c),
{
    s.push(c);
}

/// The characters of a string slice.
pub fn chars_of(s: &str) -> (v: Vec<char>)
    ensures
        v@ == s@,
{
    let mut v: Vec<char> = Vec::new();
    for c in it: s.chars()
        invariant
            v@ == it.seq().take(it.index() as int),
    {
        v.push(c);
    }
    v
}

/// A string holding the given characters.
pub fn string_of(v: &[char]) -> (s: String)
    ensures
        s@ == v@,
{
    let mut s = String::new();
    let n = v.len();
    for i in 0..n
        invariant
            n == v@.len(),
            s@ == v@.take(i as int),
    {
        push_char(&mut s, v[i]);
        assert(v@.take(i + 1) == v@.take(i as int).push(v@[i as int]));
    }
    assert(v@.take(n as int) == v@);
    s
}

/// Append characters to a string.
pub fn push_chars(s: &mut String, v: &[char])
    ensures
        final(s)@ == old(s)@ + v@,
{
    let n = v.len();
    for i in 0..n
        invariant
            n == v@.len(),
            s@ == old(s)@ + v@.take(i as int),
    {
        push_char(s, v[i]);
        assert(v@.take(i + 1) == v@.take(i as int).push(v@[i as int]));
    }
    assert(v@.take(n as int) == v@);
}

/// Append the characters of a string slice to a string.
pub fn push_str(s: &mut String, t: &str)
    ensures
        final(s)@ == old(s)@ + t@,
{
    let v = chars_of(t);
    push_chars(s, v.as_slice());
}

/// `char::is_whitespace`.
pub fn is_whitespace(c: char) -> (r: bool)
    ensures
        r == is_ws(c),
{
    c == '\t' || c == '\n' || c == '\x0B' || c == '\x0C' || c == '\r' || c == ' ' || c == '\u{85}'
        || c == '\u{A0}' || c == '\u{1680}' || ('\u{2000}' <= c && c <= '\u{200A}') || c
        == '\u{2028}' || c == '\u{2029}' || c == '\u{202F}' || c == '\u{205F}' || c == '\u{3000}'
}

/// The bounds `(lo, hi)` of the trimmed part of `s`.
pub fn trim_bounds(s: &[char]) -> (r: (usize, usize))
    ensures
        r.0 <= r.1 <= s@.len(),
        trim(s@) == s@.subrange(r.0 as int, r.1 as int),
{
    let n = s.len();
    let mut i: usize = 0;
    assert(s@.skip(0) == s@);
    while i < n && is_whitespace(s[i])
        invariant
            n == s@.len(),
            0 <= i <= n,
            trim_start(s@) == trim_start(s@.skip(i as int)),
        decreases n - i,
    {
        assert(s@.skip(i as int).drop_first() == s@.skip(i + 1));
        i = i + 1;
    }
    assert(trim_start(s@) == s@.skip(i as int));
    let mut j: usize = n;
    while j > i && is_whitespace(s[j - 1])
        invariant
            n == s@.len(),
            0 <= i <= j <= n,
            trim_end(s@.skip(i as int)) == trim_end(s@.subrange(i as int, j as int)),
        decreases j,
    {
        assert(s@.subrange(i as int, j as int).drop_last() == s@.subrange(i as int, j - 1));
        j = j - 1;
    }
    assert(s@.skip(i as int) == s@.subrange(i as int, n as int));
    (i, j)
}

/// A copy of `s[lo..hi]`.
pub fn slice_chars(s: &[char], lo: usize, hi: usize) -> (r: Vec<char>)
    requires
        lo <= hi <= s@.len(),
    ensures
        r@ == s@.subrange(lo as int, hi as int),
{
    let mut r: Vec<char> = Vec::new();
    let mut k = lo;
    while k < hi
        invariant
            lo <= k <= hi <= s@.len(),
            r@ == s@.subrange(lo as int, k as int),
        decreases hi - k,
    {
        r.push(s[k]);
        assert(s@.subrange(lo as int, k + 1) == s@.subrange(lo as int, k as int).push(s@[k as int]));
        k = k + 1;
    }
    r
}

/// `str::trim` on a character slice.
pub fn trim_chars(s: &[char]) -> (r: Vec<char>)
    ensures
        r@ == trim(s@),
{
    let (lo, hi) = trim_bounds(s);
    slice_chars(s, lo, hi)
}

/// `s` split at every `'\n'`.
pub fn split_lines(s: &[char]) -> (r: Vec<Vec<char>>)
    ensures
        views(r@) == lines_of(s@),
{
    let n = s.len();
    let mut done: Vec<Vec<char>> = Vec::new();
    let mut cur: Vec<char> = Vec::new();
    for i in 0..n
        invariant
            n == s@.len(),
            (views(done@), cur@) == split_acc(s@.take(i as int)),
    {
        assert(s@.take(i + 1).drop_last() == s@.take(i as int));
        if s[i] == '\n' {
            let finished = cur;
            cur = Vec::new();
            done.push(finished);
            assert(views(done@) == split_acc(s@.take(i as int)).0.push(finished@));
        } else {
            cur.push(s[i]);
        }
    }
    assert(s@.take(n as int) == s@);
    let last = cur;
    done.push(last);
    assert(views(done@) == lines_of(s@));
    done
}

/// Does `s` contain `c`?
pub fn contains_char(s: &[char], c: char) -> (r: bool)
    ensures
        r == s@.contains(c),
        r == (find_char(s@, c) is Some),
{
    proof {
        lemma_find_char(s@, c);
    }
    let n = s.len();
    for i in 0..n
        invariant
            n == s@.len(),
            forall|j: int| 0 <= j < i ==> s@[j] != c,
    {
        if s[i] == c {
            assert(s@[i as int] == c);
            proof {
                lemma_find_char(s@, c);
            }
            return true;
        }
    }
    false
}

/// Index of the first `c` in `s`.
pub fn find_first(s: &[char], c: char) -> (r: Option<usize>)
    ensures
        match r {
            Some(i) => find_char(s@, c) == Some(i as nat) && i < s@.len() && s@[i as int] == c,
            None => find_char(s@, c) is None,
        },
{
    let n = s.len();
    for i in 0..n
        invariant
            n == s@.len(),
            forall|j: int| 0 <= j < i ==> s@[j] != c,
    {
        if s[i] == c {
            proof {
                lemma_find_char_is(s@, c, i as int);
            }
            return Some(i);
        }
    }
    proof {
        lemma_find_char_none(s@, c);
    }
    None
}

/// Index of the last `c` in `s`.
pub fn find_last(s: &[char], c: char) -> (r: Option<usize>)
    ensures
        match r {
            Some(i) => rfind_char(s@, c) == Some(i as nat) && i < s@.len() && s@[i as int] == c,
            None => rfind_char(s@, c) is None,
        },
{
    let n = s.len();
    let mut k = n;
    assert(s@.take(n as int) == s@);
    while k > 0
        invariant
            n == s@.len(),
            0 <= k <= n,
            rfind_char(s@, c) == rfind_char(s@.take(k as int), c),
        decreases k,
    {
        if s[k - 1] == c {
            return Some(k - 1);
        }
        assert(s@.take(k as int).drop_last() == s@.take(k - 1));
        k = k - 1;
    }
    None
}

/// Equality of character slices.
pub fn chars_eq(a: &[char], b: &[char]) -> (r: bool)
    ensures
        r == (a@ == b@),
{
    if a.len() != b.len() {
        return false;
    }
    let n = a.len();
    for i in 0..n
        invariant
            n == a@.len(),
            n == b@.len(),
            forall|j: int| 0 <= j < i ==> a@[j] == b@[j],
    {
        if a[i] != b[i] {
            return false;
        }
    }
    assert(a@ == b@);
    true
}

/// Lexicographic `a < b`.
pub fn chars_lt(a: &[char], b: &[char]) -> (r: bool)
    ensures
        r == seq_lt(a@, b@),
{
    let mut i: usize = 0;
    assert(a@.skip(0) == a@);
    assert(b@.skip(0) == b@);
    while i < a.len() && i < b.len() && a[i] == b[i]
        invariant
            0 <= i <= a@.len(),
            i <= b@.len(),
            seq_lt(a@, b@) == seq_lt(a@.skip(i as int), b@.skip(i as int)),
        decreases a@.len() - i,
    {
        assert(a@.skip(i as int).drop_first() == a@.skip(i + 1));
        assert(b@.skip(i as int).drop_first() == b@.skip(i + 1));
        i = i + 1;
    }
    if i == a.len() {
        i < b.len()
    } else if i == b.len() {
        false
    } else {
        assert(a@.skip(i as int)[0] == a@[i as int]);
        assert(b@.skip(i as int)[0] == b@[i as int]);
        a[i] < b[i]
    }
}

/// The character of a decimal digit.
pub fn digit(d: usize) -> (c: char)
    requires
        d < 10,
    ensures
        c == digit_char(d as nat),
{
    if d == 0 {
        '0'
    } else if d == 1 {
        '1'
    } else if d == 2 {
        '2'
    } else if d == 3 {
        '3'
    } else if d == 4 {
        '4'
    } else if d == 5 {
        '5'
    } else if d == 6 {
        '6'
    } else if d == 7 {
        '7'
    } else if d == 8 {
        '8'
    } else {
        '9'
    }
}

/// Decimal digits of `n`.
pub fn decimal_chars(n: usize) -> (r: Vec<char>)
    ensures
        r@ == decimal(n as nat),
    decreases n,
{
    if n < 10 {
        let mut r: Vec<char> = Vec::new();
        r.push(digit(n));
        r
    } else {
        let mut r = decimal_chars(n / 10);
        r.push(digit(n % 10));
        r
    }
}

} // verus!
