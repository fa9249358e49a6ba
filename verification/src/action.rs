//! Actions that a key can be bound to (`overload(layer, key)` and the like):
//! their argument shapes, and the rewriting of an action text when its
//! kind or one of its arguments changes.
use vstd::prelude::*;

use crate::text::{
    chars_of, find_char, is_ws, lemma_find_char, lemma_rfind_char, trim_end, trim_start, find_first, find_last, push_char, push_chars, push_str, rfind_char, slice_chars,
    string_of, string_views, trim, trim_chars,
};

verus! {

/// What an action argument holds.
#[derive(Clone, Copy, Debug, PartialEq, Eq, Structural)]
pub enum ArgType {
    /// A key or key combination, such as `C-s`.
    Key,
    /// A layer name.
    Layer,
    /// A time in milliseconds.
    Timeout,
    /// Free text.
    Text,
}

/// The kinds of action a key can be bound to.
#[derive(Clone, Copy, Debug, PartialEq, Eq, Structural)]
pub enum ActionType {
    Simple,
    Layer,
    Overload,
    OverloadT,
    Timeout,
    Macro,
    Swap,
    Command,
}

/// The arguments each kind of action takes.
pub open spec fn schema_of(a: ActionType) -> Seq<ArgType> {
    match a {
        ActionType::Simple => seq![ArgType::Key],
        ActionType::Layer => seq![ArgType::Layer],
        ActionType::Overload => seq![ArgType::Layer, ArgType::Key],
        ActionType::OverloadT => seq![ArgType::Layer, ArgType::Key, ArgType::Timeout],
        ActionType::Timeout => seq![ArgType::Key, ArgType::Timeout, ArgType::Key],
        ActionType::Macro => seq![ArgType::Text],
        ActionType::Swap => seq![ArgType::Layer],
        ActionType::Command => seq![ArgType::Text],
    }
}

/// The function name written before the arguments; a simple action has none.
pub open spec fn prefix_of(a: ActionType) -> Option<Seq<char>> {
    match a {
        ActionType::Simple => None,
        ActionType::Layer => Some(seq!['l', 'a', 'y', 'e', 'r']),
        ActionType::Overload => Some(seq!['o', 'v', 'e', 'r', 'l', 'o', 'a', 'd']),
        ActionType::OverloadT => Some(seq!['o', 'v', 'e', 'r', 'l', 'o', 'a', 'd', 't']),
        ActionType::Timeout => Some(seq!['t', 'i', 'm', 'e', 'o', 'u', 't']),
        ActionType::Macro => Some(seq!['m', 'a', 'c', 'r', 'o']),
        ActionType::Swap => Some(seq!['s', 'w', 'a', 'p']),
        ActionType::Command => Some(seq!['c', 'o', 'm', 'm', 'a', 'n', 'd']),
    }
}

/// The name a kind of action is shown under.
pub open spec fn label_of(a: ActionType) -> Seq<char> {
    match a {
        ActionType::Simple => seq!['S', 'i', 'm', 'p', 'l', 'e'],
        ActionType::Layer => seq!['L', 'a', 'y', 'e', 'r'],
        ActionType::Overload => seq!['O', 'v', 'e', 'r', 'l', 'o', 'a', 'd'],
        ActionType::OverloadT => seq!['O', 'v', 'e', 'r', 'l', 'o', 'a', 'd', 'T'],
        ActionType::Timeout => seq!['T', 'i', 'm', 'e', 'o', 'u', 't'],
        ActionType::Macro => seq!['M', 'a', 'c', 'r', 'o'],
        ActionType::Swap => seq!['S', 'w', 'a', 'p'],
        ActionType::Command => seq!['C', 'o', 'm', 'm', 'a', 'n', 'd'],
    }
}

/// The argument filled in where none is given.
pub open spec fn default_arg(t: ArgType) -> Seq<char> {
    match t {
        ArgType::Key => seq!['v', 'o', 'i', 'd'],
        ArgType::Layer => seq!['m', 'a', 'i', 'n'],
        ArgType::Timeout => seq!['2', '0', '0'],
        ArgType::Text => seq!['t', 'y', 'p', 'e', '_', 'h', 'e', 'r', 'e'],
    }
}

/// `p` is a prefix of `s`.
pub open spec fn starts_with(s: Seq<char>, p: Seq<char>) -> bool {
    p.len() <= s.len() && s.take(p.len() as int) == p
}

/// `prefix(`, the text an action of kind `a` starts with.
pub open spec fn opening(a: ActionType) -> Seq<char> {
    match prefix_of(a) {
        Some(p) => p.push('('),
        None => seq![],
    }
}

/// The kind of an action text: the first of `overloadt(`, `overload(`,
/// `timeout(`, `macro(`, `layer(`, `swap(`, `command(` that it starts
/// with, else a simple key.
pub open spec fn kind_of(value: Seq<char>) -> ActionType {
    if starts_with(value, opening(ActionType::OverloadT)) {
        ActionType::OverloadT
    } else if starts_with(value, opening(ActionType::Overload)) {
        ActionType::Overload
    } else if starts_with(value, opening(ActionType::Timeout)) {
        ActionType::Timeout
    } else if starts_with(value, opening(ActionType::Macro)) {
        ActionType::Macro
    } else if starts_with(value, opening(ActionType::Layer)) {
        ActionType::Layer
    } else if starts_with(value, opening(ActionType::Swap)) {
        ActionType::Swap
    } else if starts_with(value, opening(ActionType::Command)) {
        ActionType::Command
    } else {
        ActionType::Simple
    }
}

/// Scan for top-level commas: finished arguments, the argument being
/// read, and the parenthesis depth.
pub open spec fn args_acc(s: Seq<char>) -> (Seq<Seq<char>>, Seq<char>, int)
    decreases s.len(),
{
    if s.len() == 0 {
        (seq![], seq![], 0)
    } else {
        let (done, cur, depth) = args_acc(s.drop_last());
        let c = s.last();
        if c == '(' {
            (done, cur.push(c), depth + 1)
        } else if c == ')' {
            (done, cur.push(c), depth - 1)
        } else if c == ',' && depth == 0 {
            (done.push(trim(cur)), seq![], depth)
        } else {
            (done, cur.push(c), depth)
        }
    }
}

/// The arguments of an argument list: split at commas outside
/// parentheses, each trimmed; a last argument is kept unless nothing at
/// all follows the last comma.
pub open spec fn args_of(s: Seq<char>) -> Seq<Seq<char>> {
    let (done, cur, depth) = args_acc(s);
    if cur.len() > 0 {
        done.push(trim(cur))
    } else {
        done
    }
}

/// Arguments joined by `, `.
pub open spec fn join_args(args: Seq<Seq<char>>) -> Seq<char>
    decreases args.len(),
{
    if args.len() == 0 {
        seq![]
    } else if args.len() == 1 {
        args[0]
    } else {
        join_args(args.drop_last()) + seq![',', ' '] + args.last()
    }
}

/// The argument text of an action: between the first `(` and the last
/// `)` (to the end when there is no `)`), or the whole text when there is
/// no `(`.
pub open spec fn raw_args_of(value: Seq<char>) -> Seq<char> {
    match find_char(value, '(') {
        Some(start) => match rfind_char(value, ')') {
            Some(end) => value.subrange(start as int + 1, end as int),
            None => value.skip(start as int + 1),
        },
        None => value,
    }
}

/// Cutting out the argument text would not panic: there is no `)` before
/// the first `(` without one after it.
pub open spec fn args_in_order(value: Seq<char>) -> bool {
    match find_char(value, '(') {
        Some(start) => match rfind_char(value, ')') {
            Some(end) => start + 1 <= end,
            None => true,
        },
        None => true,
    }
}

/// The arguments an action of kind `a` gets from the old ones: each old
/// argument that is present and not empty, else the default.
pub open spec fn fill_args(schema: Seq<ArgType>, old_args: Seq<Seq<char>>) -> Seq<Seq<char>> {
    Seq::new(
        schema.len(),
        |i: int|
            if i < old_args.len() && old_args[i].len() > 0 {
                old_args[i]
            } else {
                default_arg(schema[i])
            },
    )
}

/// The argument text a change of kind reads: between the first `(` and
/// the last `)`, empty when there is no `)`, the whole text when there is
/// no `(`.
pub open spec fn kind_content(value: Seq<char>) -> Seq<char> {
    match find_char(value, '(') {
        Some(start) => match rfind_char(value, ')') {
            Some(end) => value.subrange(start as int + 1, end as int),
            None => seq![],
        },
        None => value,
    }
}

/// The parenthesis depth stays within the range of `i32` after every
/// prefix of `s`, so counting it in an `i32` does not overflow.
pub open spec fn depth_fits(s: Seq<char>) -> bool {
    forall|i: int|
        0 <= i <= s.len() ==> -2147483648 <= #[trigger] paren_depth(s.take(i)) <= 2147483647
}

/// The argument list a change of one argument reads fits the depth
/// counter (trivially so when there is no `(`).
pub open spec fn arg_list_fits(value: Seq<char>) -> bool {
    match find_char(value, '(') {
        Some(start) => depth_fits(value.subrange(start as int + 1, args_end(value))),
        None => true,
    }
}

/// The text of an action after its kind is changed to `a`: the old
/// arguments (between the first `(` and the last `)`, empty when there is
/// no `)`) carried over into the new kind's argument list.
pub open spec fn with_kind(value: Seq<char>, a: ActionType) -> Seq<char> {
    let new_args = fill_args(schema_of(a), args_of(kind_content(value)));
    match prefix_of(a) {
        Some(p) => p + seq!['('] + join_args(new_args) + seq![')'],
        None => new_args[0],
    }
}

/// The arguments after argument `index` is set to `v`, padding with empty
/// arguments as needed.
pub open spec fn set_arg(args: Seq<Seq<char>>, index: nat, v: Seq<char>) -> Seq<Seq<char>> {
    let padded = if args.len() > index {
        args
    } else {
        args + Seq::new((index + 1 - args.len()) as nat, |i: int| Seq::<char>::empty())
    };
    padded.update(index as int, v)
}

/// The text of an action after argument `index` is set to `v`.
pub open spec fn with_arg(value: Seq<char>, index: nat, v: Seq<char>) -> Seq<char> {
    match find_char(value, '(') {
        Some(start) => {
            let end = match rfind_char(value, ')') {
                Some(e) => e as int,
                None => value.len() as int,
            };
            let args = args_of(value.subrange(start as int + 1, end));
            value.take(start as int + 1) + join_args(set_arg(args, index, v)) + value.skip(end)
        },
        None => if index == 0 {
            v
        } else {
            value
        },
    }
}

impl ActionType {
    /// The arguments this kind of action takes.
    pub fn args_schema(&self) -> (r: Vec<ArgType>)
        ensures
            r@ == schema_of(*self),
    {
        match self {
            ActionType::Simple => vec![ArgType::Key],
            ActionType::Layer => vec![ArgType::Layer],
            ActionType::Overload => vec![ArgType::Layer, ArgType::Key],
            ActionType::OverloadT => vec![ArgType::Layer, ArgType::Key, ArgType::Timeout],
            ActionType::Timeout => vec![ArgType::Key, ArgType::Timeout, ArgType::Key],
            ActionType::Macro => vec![ArgType::Text],
            ActionType::Swap => vec![ArgType::Layer],
            ActionType::Command => vec![ArgType::Text],
        }
    }

    /// The function name written before the arguments, if any.
    pub fn prefix(&self) -> (r: Option<&'static str>)
        ensures
            match prefix_of(*self) {
                Some(p) => r matches Some(s) && s@ == p,
                None => r is None,
            },
    {
        match self {
            ActionType::Simple => None,
            ActionType::Layer => {
                proof {
                    reveal_strlit("layer");
                }
                Some("layer")
            },
            ActionType::Overload => {
                proof {
                    reveal_strlit("overload");
                }
                Some("overload")
            },
            ActionType::OverloadT => {
                proof {
                    reveal_strlit("overloadt");
                }
                Some("overloadt")
            },
            ActionType::Timeout => {
                proof {
                    reveal_strlit("timeout");
                }
                Some("timeout")
            },
            ActionType::Macro => {
                proof {
                    reveal_strlit("macro");
                }
                Some("macro")
            },
            ActionType::Swap => {
                proof {
                    reveal_strlit("swap");
                }
                Some("swap")
            },
            ActionType::Command => {
                proof {
                    reveal_strlit("command");
                }
                Some("command")
            },
        }
    }

    /// The name this kind of action is shown under (its variant name).
    pub fn label(&self) -> (r: &'static str)
        ensures
            r@ == label_of(*self),
    {
        match self {
            ActionType::Simple => {
                proof {
                    reveal_strlit("Simple");
                }
                "Simple"
            },
            ActionType::Layer => {
                proof {
                    reveal_strlit("Layer");
                }
                "Layer"
            },
            ActionType::Overload => {
                proof {
                    reveal_strlit("Overload");
                }
                "Overload"
            },
            ActionType::OverloadT => {
                proof {
                    reveal_strlit("OverloadT");
                }
                "OverloadT"
            },
            ActionType::Timeout => {
                proof {
                    reveal_strlit("Timeout");
                }
                "Timeout"
            },
            ActionType::Macro => {
                proof {
                    reveal_strlit("Macro");
                }
                "Macro"
            },
            ActionType::Swap => {
                proof {
                    reveal_strlit("Swap");
                }
                "Swap"
            },
            ActionType::Command => {
                proof {
                    reveal_strlit("Command");
                }
                "Command"
            },
        }
    }
}

/// The argument used where none is given.
pub fn default_arg_for(t: ArgType) -> (r: String)
    ensures
        r@ == default_arg(t),
{
    let v: Vec<char> = match t {
        ArgType::Key => vec!['v', 'o', 'i', 'd'],
        ArgType::Layer => vec!['m', 'a', 'i', 'n'],
        ArgType::Timeout => vec!['2', '0', '0'],
        ArgType::Text => vec!['t', 'y', 'p', 'e', '_', 'h', 'e', 'r', 'e'],
    };
    string_of(v.as_slice())
}

/// Split an argument list at the commas outside parentheses; each
/// argument trimmed.
pub fn split_args(s: &str) -> (r: Vec<String>)
    requires
        depth_fits(s@),
    ensures
        string_views(r@) == args_of(s@),
{
    let cs = chars_of(s);
    let n = cs.len();
    let mut result: Vec<String> = Vec::new();
    let mut current: Vec<char> = Vec::new();
    let mut depth: i32 = 0;
    for i in 0..n
        invariant
            n == cs@.len(),
            cs@ == s@,
            depth_fits(s@),
            depth == paren_depth(s@.take(i as int)),
            (string_views(result@), current@, depth as int) == args_acc(s@.take(i as int)),
    {
        assert(s@.take(i + 1).drop_last() == s@.take(i as int));
        assert(s@.take(i + 1).last() == s@[i as int]);
        assert(-2147483648 <= paren_depth(s@.take(i + 1)) <= 2147483647);
        let c = cs[i];
        if c == '(' {
            depth = depth + 1;
            current.push(c);
        } else if c == ')' {
            depth = depth - 1;
            current.push(c);
        } else if c == ',' && depth == 0 {
            let piece = trim_chars(current.as_slice());
            result.push(string_of(piece.as_slice()));
            current = Vec::new();
            assert(string_views(result@) == args_acc(s@.take(i as int)).0.push(piece@));
        } else {
            current.push(c);
        }
    }
    assert(s@.take(n as int) == s@);
    if current.len() > 0 {
        let piece = trim_chars(current.as_slice());
        let ghost before = string_views(result@);
        result.push(string_of(piece.as_slice()));
        assert(string_views(result@) == before.push(piece@));
    }
    result
}

/// Does `s` start with `p`?
fn has_prefix(s: &[char], p: &[char]) -> (r: bool)
    ensures
        r == starts_with(s@, p@),
{
    if p.len() > s.len() {
        return false;
    }
    let n = p.len();
    for i in 0..n
        invariant
            n == p@.len(),
            n <= s@.len(),
            forall|j: int| 0 <= j < i ==> s@[j] == p@[j],
    {
        if s[i] != p[i] {
            return false;
        }
    }
    assert(s@.take(n as int) == p@);
    true
}

/// `prefix(` for a kind of action (empty for a simple key).
fn opening_chars(a: ActionType) -> (r: Vec<char>)
    ensures
        r@ == opening(a),
{
    match a.prefix() {
        Some(p) => {
            let mut v = chars_of(p);
            v.push('(');
            v
        },
        None => Vec::new(),
    }
}

/// The kind of an action text, as the mapping editor shows it.
pub fn detect_action_type(value: &str) -> (a: ActionType)
    ensures
        a == kind_of(value@),
{
    let v = chars_of(value);
    if has_prefix(v.as_slice(), opening_chars(ActionType::OverloadT).as_slice()) {
        ActionType::OverloadT
    } else if has_prefix(v.as_slice(), opening_chars(ActionType::Overload).as_slice()) {
        ActionType::Overload
    } else if has_prefix(v.as_slice(), opening_chars(ActionType::Timeout).as_slice()) {
        ActionType::Timeout
    } else if has_prefix(v.as_slice(), opening_chars(ActionType::Macro).as_slice()) {
        ActionType::Macro
    } else if has_prefix(v.as_slice(), opening_chars(ActionType::Layer).as_slice()) {
        ActionType::Layer
    } else if has_prefix(v.as_slice(), opening_chars(ActionType::Swap).as_slice()) {
        ActionType::Swap
    } else if has_prefix(v.as_slice(), opening_chars(ActionType::Command).as_slice()) {
        ActionType::Command
    } else {
        ActionType::Simple
    }
}

/// The argument text of an action, as the mapping editor shows it.
pub fn raw_args(value: &str) -> (r: String)
    requires
        args_in_order(value@),
    ensures
        r@ == raw_args_of(value@),
{
    let v = chars_of(value);
    let n = v.len();
    match find_first(v.as_slice(), '(') {
        Some(start) => match find_last(v.as_slice(), ')') {
            Some(end) => string_of(slice_chars(v.as_slice(), start + 1, end).as_slice()),
            None => {
                let r = slice_chars(v.as_slice(), start + 1, n);
                assert(v@.subrange(start + 1, n as int) == v@.skip(start + 1));
                string_of(r.as_slice())
            },
        },
        None => string_of(v.as_slice()),
    }
}

/// Arguments joined by `, `.
fn join_strings(args: &Vec<String>) -> (r: String)
    ensures
        r@ == join_args(string_views(args@)),
{
    let ghost a = string_views(args@);
    let mut out = String::new();
    let n = args.len();
    for i in 0..n
        invariant
            n == args@.len(),
            a == string_views(args@),
            out@ == join_args(a.take(i as int)),
    {
        assert(a.take(i + 1).drop_last() == a.take(i as int));
        if i > 0 {
            push_char(&mut out, ',');
            push_char(&mut out, ' ');
        }
        push_str(&mut out, args[i].as_str());
        assert(a.take(i + 1).last() == args@[i as int]@);
        if i == 0 {
            assert(a.take(1)[0] == a[0]);
        }
    }
    assert(a.take(n as int) == a);
    out
}

/// The argument text a change of kind reads.
fn kind_content_of(v: &[char]) -> (r: Vec<char>)
    requires
        args_in_order(v@),
    ensures
        r@ == kind_content(v@),
{
    match find_first(v, '(') {
        Some(start) => match find_last(v, ')') {
            Some(end) => slice_chars(v, start + 1, end),
            None => Vec::new(),
        },
        None => slice_chars(v, 0, v.len()),
    }
}

/// Does the parenthesis depth of `s` stay within `i32` after every prefix?
fn depth_fits_chars(s: &[char]) -> (b: bool)
    ensures
        b == depth_fits(s@),
{
    let n = s.len();
    let mut d: i64 = 0;
    for i in 0..n
        invariant
            n == s@.len(),
            d == paren_depth(s@.take(i as int)),
            forall|j: int|
                0 <= j <= i ==> -2147483648 <= #[trigger] paren_depth(s@.take(j)) <= 2147483647,
    {
        assert(s@.take(i + 1).drop_last() == s@.take(i as int));
        assert(s@.take(i + 1).last() == s@[i as int]);
        if s[i] == '(' {
            d = d + 1;
        } else if s[i] == ')' {
            d = d - 1;
        }
        if d > 2147483647i64 || d < -2147483648i64 {
            assert(!(-2147483648 <= paren_depth(s@.take(i + 1)) <= 2147483647));
            return false;
        }
    }
    assert(s@.take(n as int) == s@);
    true
}

/// Can `split_args` count the parenthesis depth of `s` without overflow?
pub fn split_fits(s: &str) -> (b: bool)
    ensures
        b == depth_fits(s@),
{
    let v = chars_of(s);
    depth_fits_chars(v.as_slice())
}

/// Can the kind of action `value` be changed: is its argument text cut
/// out safely and counted without overflow?
pub fn kind_change_fits(value: &str) -> (b: bool)
    ensures
        b == (args_in_order(value@) && depth_fits(kind_content(value@))),
{
    if !args_in_order_check(value) {
        return false;
    }
    let v = chars_of(value);
    let content = kind_content_of(v.as_slice());
    depth_fits_chars(content.as_slice())
}

/// Can an argument of action `value` be set: is its argument list cut out
/// safely and counted without overflow?
pub fn arg_change_fits(value: &str) -> (b: bool)
    ensures
        b == (args_in_order(value@) && arg_list_fits(value@)),
{
    if !args_in_order_check(value) {
        return false;
    }
    let v = chars_of(value);
    let n = v.len();
    match find_first(v.as_slice(), '(') {
        Some(start) => {
            let end = match find_last(v.as_slice(), ')') {
                Some(e) => e,
                None => n,
            };
            let content = slice_chars(v.as_slice(), start + 1, end);
            depth_fits_chars(content.as_slice())
        },
        None => true,
    }
}

/// The text of an action after its kind is changed to `action`, keeping
/// the old arguments that fit the new kind and filling the rest with
/// defaults.
pub fn change_action_type(value: &str, action: ActionType) -> (r: String)
    requires
        args_in_order(value@),
        depth_fits(kind_content(value@)),
    ensures
        r@ == with_kind(value@, action),
{
    let v = chars_of(value);
    let content = kind_content_of(v.as_slice());
    let args = split_args(string_of(content.as_slice()).as_str());
    let ghost old_args = string_views(args@);
    let schema = action.args_schema();
    let m = schema.len();
    let mut new_args: Vec<String> = Vec::new();
    for i in 0..m
        invariant
            m == schema@.len(),
            schema@ == schema_of(action),
            old_args == string_views(args@),
            string_views(new_args@) == fill_args(schema@, old_args).take(i as int),
    {
        let arg = if i < args.len() && !args[i].as_str().is_empty() {
            assert(old_args[i as int] == args@[i as int]@);
            args[i].clone()
        } else {
            default_arg_for(schema[i])
        };
        let ghost before = string_views(new_args@);
        new_args.push(arg);
        assert(string_views(new_args@) == before.push(arg@));
        assert(fill_args(schema@, old_args).take(i + 1) == fill_args(schema@, old_args).take(
            i as int,
        ).push(fill_args(schema@, old_args)[i as int]));
    }
    assert(fill_args(schema@, old_args).take(m as int) == fill_args(schema@, old_args));
    match action.prefix() {
        Some(p) => {
            let mut out = String::new();
            push_str(&mut out, p);
            push_char(&mut out, '(');
            let joined = join_strings(&new_args);
            push_str(&mut out, joined.as_str());
            push_char(&mut out, ')');
            out
        },
        None => {
            assert(string_views(new_args@)[0] == new_args@[0]@);
            new_args[0].clone()
        },
    }
}

/// Would cutting out the argument text of `value` succeed?
pub fn args_in_order_check(value: &str) -> (b: bool)
    ensures
        b == args_in_order(value@),
{
    let v = chars_of(value);
    match find_first(v.as_slice(), '(') {
        Some(start) => match find_last(v.as_slice(), ')') {
            Some(end) => start < end,
            None => true,
        },
        None => true,
    }
}

/// The text of an action after argument `index` is set to `new_value`:
/// for `name(a, b)` the argument list is rewritten (padded with empty
/// arguments up to `index`); a text without `(` is replaced when `index`
/// is 0 and kept otherwise.
pub fn change_action_arg(value: &str, index: usize, new_value: &str) -> (r: String)
    requires
        args_in_order(value@),
        arg_list_fits(value@),
        index < usize::MAX,
    ensures
        r@ == with_arg(value@, index as nat, new_value@),
{
    let v = chars_of(value);
    let n = v.len();
    match find_first(v.as_slice(), '(') {
        Some(start) => {
            let end = match find_last(v.as_slice(), ')') {
                Some(e) => e,
                None => n,
            };
            let head = slice_chars(v.as_slice(), 0, start + 1);
            let tail = slice_chars(v.as_slice(), end, n);
            let content = slice_chars(v.as_slice(), start + 1, end);
            let mut args = split_args(string_of(content.as_slice()).as_str());
            let ghost a0 = string_views(args@);
            while args.len() <= index
                invariant
                    index < usize::MAX,
                    a0.len() <= string_views(args@).len(),
                    string_views(args@).len() <= index + 1 || string_views(args@).len() == a0.len(),
                    string_views(args@) == a0 + Seq::new(
                        (string_views(args@).len() - a0.len()) as nat,
                        |i: int| Seq::<char>::empty(),
                    ),
                decreases index + 1 - args@.len(),
            {
                let ghost before = string_views(args@);
                args.push(String::new());
                assert(string_views(args@) == before.push(Seq::<char>::empty()));
                assert(string_views(args@) == a0 + Seq::new(
                    (string_views(args@).len() - a0.len()) as nat,
                    |i: int| Seq::<char>::empty(),
                ));
            }
            let ghost padded = string_views(args@);
            proof {
                if a0.len() > index {
                    assert(padded == a0);
                } else {
                    assert(padded.len() == index + 1);
                }
            }
            args.set(index, string_of(chars_of(new_value).as_slice()));
            assert(string_views(args@) == set_arg(a0, index as nat, new_value@));
            let mut out = string_of(head.as_slice());
            let joined = join_strings(&args);
            push_str(&mut out, joined.as_str());
            push_chars(&mut out, tail.as_slice());
            assert(v@.subrange(0, start + 1) == v@.take(start + 1));
            assert(v@.subrange(end as int, n as int) == v@.skip(end as int));
            out
        },
        None => {
            if index == 0 {
                string_of(chars_of(new_value).as_slice())
            } else {
                string_of(v.as_slice())
            }
        },
    }
}

/// The text of an action written with `prefix(` followed by anything is
/// recognised as that kind.
pub proof fn lemma_kind_of_opening(a: ActionType, rest: Seq<char>)
    requires
        a != ActionType::Simple,
    ensures
        kind_of(opening(a) + rest) == a,
{
    let v = opening(a) + rest;
    let o = opening(a);
    assert(v.take(o.len() as int) == o);
    let ot = opening(ActionType::OverloadT);
    let oo = opening(ActionType::Overload);
    let oti = opening(ActionType::Timeout);
    let om = opening(ActionType::Macro);
    let ol = opening(ActionType::Layer);
    let os = opening(ActionType::Swap);
    let oc = opening(ActionType::Command);
    if a != ActionType::OverloadT {
        assert(!starts_with(v, ot)) by {
            if starts_with(v, ot) {
                assert(v[0] == ot[0]);
                assert(v[8] == ot[8]);
            }
        }
    }
    if a != ActionType::Overload {
        assert(!starts_with(v, oo)) by {
            if starts_with(v, oo) {
                assert(v[0] == oo[0]);
                assert(v[8] == oo[8]);
            }
        }
    }
    if a != ActionType::Timeout {
        assert(!starts_with(v, oti)) by {
            if starts_with(v, oti) {
                assert(v[0] == oti[0]);
            }
        }
    }
    if a != ActionType::Macro {
        assert(!starts_with(v, om)) by {
            if starts_with(v, om) {
                assert(v[0] == om[0]);
            }
        }
    }
    if a != ActionType::Layer {
        assert(!starts_with(v, ol)) by {
            if starts_with(v, ol) {
                assert(v[0] == ol[0]);
            }
        }
    }
    if a != ActionType::Swap {
        assert(!starts_with(v, os)) by {
            if starts_with(v, os) {
                assert(v[0] == os[0]);
            }
        }
    }
}

/// Changing an action to a kind with a function name gives a text the
/// editor recognises as that kind.
pub proof fn lemma_with_kind_detected(value: Seq<char>, a: ActionType)
    requires
        a != ActionType::Simple,
    ensures
        kind_of(with_kind(value, a)) == a,
{
    let content = match find_char(value, '(') {
        Some(start) => match rfind_char(value, ')') {
            Some(end) => value.subrange(start as int + 1, end as int),
            None => seq![],
        },
        None => value,
    };
    let new_args = fill_args(schema_of(a), args_of(content));
    let p = prefix_of(a).unwrap();
    let rest = join_args(new_args) + seq![')'];
    assert(with_kind(value, a) == opening(a) + rest);
    lemma_kind_of_opening(a, rest);
}

/// An argument that reads back as written: no whitespace at its ends, and
/// no `,`, `(` or `)`.
pub open spec fn plain_arg(a: Seq<char>) -> bool {
    trim(a) == a && !a.contains(',') && !a.contains('(') && !a.contains(')')
}

proof fn lemma_no_char_prefix(x: Seq<char>, c: char)
    requires
        x.len() > 0,
        !x.contains(c),
    ensures
        !x.drop_last().contains(c),
        x.len() > 0 ==> x.last() != c,
{
    if x.drop_last().contains(c) {
        let j = choose|j: int| 0 <= j < x.drop_last().len() && x.drop_last()[j] == c;
        assert(x.drop_last()[j] == x[j]);
        assert(x.contains(c));
    }
    assert(x[x.len() - 1] == x.last());
}

/// Parenthesis depth at the end of `a`: each `(` one deeper, each `)`
/// one shallower.
pub open spec fn paren_depth(a: Seq<char>) -> int
    decreases a.len(),
{
    if a.len() == 0 {
        0
    } else {
        paren_depth(a.drop_last()) + if a.last() == '(' {
            1int
        } else if a.last() == ')' {
            -1int
        } else {
            0int
        }
    }
}

/// An argument that reads back as written: no whitespace at its ends, its
/// parentheses balanced (none closed before it is opened), and every `,`
/// inside parentheses.
pub open spec fn balanced_arg(a: Seq<char>) -> bool {
    &&& trim(a) == a
    &&& paren_depth(a) == 0
    &&& forall|i: int| 0 <= i <= a.len() ==> paren_depth(#[trigger] a.take(i)) >= 0
    &&& forall|i: int| 0 <= i < a.len() && a[i] == ',' ==> paren_depth(#[trigger] a.take(i)) > 0
}

proof fn lemma_paren_depth_none(x: Seq<char>)
    requires
        !x.contains('('),
        !x.contains(')'),
    ensures
        paren_depth(x) == 0,
    decreases x.len(),
{
    if x.len() > 0 {
        lemma_no_char_prefix(x, '(');
        lemma_no_char_prefix(x, ')');
        lemma_paren_depth_none(x.drop_last());
    }
}

/// A plain argument is balanced.
proof fn lemma_plain_balanced(a: Seq<char>)
    requires
        plain_arg(a),
    ensures
        balanced_arg(a),
{
    lemma_paren_depth_none(a);
    assert forall|i: int| 0 <= i <= a.len() implies paren_depth(#[trigger] a.take(i)) >= 0 by {
        assert forall|c: char| c == '(' || c == ')' implies !a.take(i).contains(c) by {
            if a.take(i).contains(c) {
                let k = choose|k: int| 0 <= k < a.take(i).len() && a.take(i)[k] == c;
                assert(a[k] == c);
            }
        }
        lemma_paren_depth_none(a.take(i));
    }
    assert forall|i: int| 0 <= i < a.len() && a[i] == ',' implies paren_depth(
        #[trigger] a.take(i),
    ) > 0 by {
        assert(a.contains(a[i]));
    }
}

proof fn lemma_paren_depth_space(y: Seq<char>)
    ensures
        paren_depth(seq![' '] + y) == paren_depth(y),
    decreases y.len(),
{
    if y.len() == 0 {
        let sp = seq![' '];
        assert(seq![' '] + y == sp);
        assert(sp.drop_last() == Seq::<char>::empty());
        assert(sp.last() == ' ');
        assert(paren_depth(sp) == paren_depth(sp.drop_last()));
    } else {
        lemma_paren_depth_space(y.drop_last());
        assert((seq![' '] + y).drop_last() == seq![' '] + y.drop_last());
        assert((seq![' '] + y).last() == y.last());
    }
}

/// Reading text whose commas all lie inside parentheses, from depth 0,
/// only extends the argument being read.
proof fn lemma_args_acc_nested(p: Seq<char>, x: Seq<char>)
    requires
        args_acc(p).2 == 0,
        forall|i: int| 0 <= i < x.len() && x[i] == ',' ==> paren_depth(#[trigger] x.take(i)) != 0,
    ensures
        args_acc(p + x) == (args_acc(p).0, args_acc(p).1 + x, paren_depth(x)),
    decreases x.len(),
{
    if x.len() == 0 {
        assert(p + x == p);
        assert(args_acc(p).1 + x == args_acc(p).1);
    } else {
        let x0 = x.drop_last();
        assert forall|i: int| 0 <= i < x0.len() && x0[i] == ',' implies paren_depth(
            #[trigger] x0.take(i),
        ) != 0 by {
            assert(x0.take(i) == x.take(i));
            assert(x0[i] == x[i]);
        }
        lemma_args_acc_nested(p, x0);
        assert((p + x).drop_last() == p + x0);
        assert((p + x).last() == x.last());
        assert(x.take(x.len() - 1) == x0);
        assert((args_acc(p).1 + x0).push(x.last()) == args_acc(p).1 + x);
    }
}

proof fn lemma_trim_space_prefix(b: Seq<char>)
    requires
        trim(b) == b,
    ensures
        trim(seq![' '] + b) == b,
{
    crate::text::lemma_trim_ends(b);
    crate::text::lemma_trim_start_concat(seq![' '], b);
    assert(seq![' '].drop_first() == Seq::<char>::empty());
    assert(trim_start(Seq::<char>::empty()) == Seq::<char>::empty());
    assert(trim_start(seq![' ']) == Seq::<char>::empty());
    assert(trim_start(b) == b);
    assert(trim_end(b) == b);
}

proof fn lemma_args_acc_join(bs: Seq<Seq<char>>)
    requires
        bs.len() >= 1,
        forall|j: int| 0 <= j < bs.len() ==> balanced_arg(#[trigger] bs[j]),
    ensures
        args_acc(join_args(bs)).0 == bs.drop_last(),
        args_acc(join_args(bs)).2 == 0,
        trim(args_acc(join_args(bs)).1) == bs.last(),
        args_acc(join_args(bs)).1.len() > 0 <==> (bs.len() >= 2 || bs[0].len() > 0),
    decreases bs.len(),
{
    if bs.len() == 1 {
        let b = bs[0];
        assert(balanced_arg(b));
        assert(args_acc(Seq::<char>::empty()) == (Seq::<Seq<char>>::empty(), Seq::<char>::empty(), 0int));
        lemma_args_acc_nested(Seq::<char>::empty(), b);
        assert(Seq::<char>::empty() + b == b);
        assert(bs.drop_last() == Seq::<Seq<char>>::empty());
        assert(bs.last() == b);
    } else {
        let f = bs.drop_last();
        assert forall|j: int| 0 <= j < f.len() implies balanced_arg(#[trigger] f[j]) by {
            assert(f[j] == bs[j]);
        }
        lemma_args_acc_join(f);
        let j0 = join_args(f);
        let last = bs.last();
        assert(balanced_arg(last)) by {
            assert(bs[bs.len() - 1] == last);
        }
        let sp_last = seq![' '] + last;
        assert forall|i: int| 0 <= i < sp_last.len() && sp_last[i] == ',' implies paren_depth(
            #[trigger] sp_last.take(i),
        ) != 0 by {
            assert(i > 0);
            assert(sp_last[i] == last[i - 1]);
            assert(sp_last.take(i) == seq![' '] + last.take(i - 1));
            lemma_paren_depth_space(last.take(i - 1));
        }
        let jc = j0.push(',');
        assert(jc.drop_last() == j0);
        assert(jc.last() == ',');
        assert(args_acc(jc) == (f.drop_last().push(f.last()), Seq::<char>::empty(), 0int));
        assert(f.drop_last().push(f.last()) == f);
        lemma_args_acc_nested(jc, sp_last);
        lemma_paren_depth_space(last);
        assert(join_args(bs) == j0 + seq![',', ' '] + last);
        assert(j0 + seq![',', ' '] + last == jc + sp_last);
        assert(Seq::<char>::empty() + sp_last == sp_last);
        lemma_trim_space_prefix(last);
    }
}

/// Arguments with balanced parentheses and no `,` outside them, joined
/// with `, `, split back into the same arguments (a single argument must
/// not be empty).
pub proof fn lemma_args_of_join(bs: Seq<Seq<char>>)
    requires
        forall|j: int| 0 <= j < bs.len() ==> balanced_arg(#[trigger] bs[j]),
        bs.len() == 1 ==> bs[0].len() > 0,
    ensures
        args_of(join_args(bs)) == bs,
{
    if bs.len() == 0 {
        assert(join_args(bs) == Seq::<char>::empty());
        assert(args_acc(Seq::<char>::empty()) == (Seq::<Seq<char>>::empty(), Seq::<char>::empty(), 0int));
        assert(bs == Seq::<Seq<char>>::empty());
    } else {
        lemma_args_acc_join(bs);
        assert(bs.drop_last().push(bs.last()) == bs);
    }
}

/// Where the argument list of an action text ends: at its last `)`, or
/// at the end of the text.
pub open spec fn args_end(value: Seq<char>) -> int {
    match rfind_char(value, ')') {
        Some(e) => e as int,
        None => value.len() as int,
    }
}

/// The argument list after argument `index` of an action text with a `(`
/// is set to `v`.
pub open spec fn new_arg_list(value: Seq<char>, index: nat, v: Seq<char>) -> Seq<Seq<char>> {
    let start = find_char(value, '(').unwrap() as int;
    set_arg(args_of(value.subrange(start + 1, args_end(value))), index, v)
}

/// Setting an argument and reading the arguments back gives the new
/// argument list, with the new value at its place, provided the action
/// text has a `(` and an argument list that can be cut out, and every
/// argument of the new list is plain (a list of one must not be empty).
pub proof fn lemma_arg_read_back(value: Seq<char>, index: nat, v: Seq<char>)
    requires
        find_char(value, '(') is Some,
        args_in_order(value),
        forall|j: int|
            0 <= j < new_arg_list(value, index, v).len() ==> plain_arg(
                #[trigger] new_arg_list(value, index, v)[j],
            ),
        new_arg_list(value, index, v).len() == 1 ==> new_arg_list(value, index, v)[0].len() > 0,
    ensures
        args_of(raw_args_of(with_arg(value, index, v))) == new_arg_list(value, index, v),
        new_arg_list(value, index, v)[index as int] == v,
{
    let start = find_char(value, '(').unwrap() as int;
    lemma_find_char(value, '(');
    lemma_rfind_char(value, ')');
    let end = args_end(value);
    let a = args_of(value.subrange(start + 1, end));
    let b = set_arg(a, index, v);
    assert(b == new_arg_list(value, index, v));
    assert forall|q: int| 0 <= q < b.len() implies plain_arg(#[trigger] b[q]) by {
        assert(plain_arg(new_arg_list(value, index, v)[q]));
    }
    let j = join_args(b);
    let head = value.take(start + 1);
    let tail = value.skip(end);
    let nv = head + j + tail;
    assert(with_arg(value, index, v) == nv);
    assert(j.len() >= 0);
    // The first `(` is where it was.
    assert forall|q: int| 0 <= q < start implies nv[q] != '(' by {
        assert(nv[q] == value[q]);
    }
    assert(nv[start] == '(');
    crate::text::lemma_find_char_is(nv, '(', start);
    lemma_join_plain(b);
    if rfind_char(value, ')') is Some {
        // The last `)` is the one that ended the old list.
        let k = start + 1 + j.len();
        assert(nv[k] == ')') by {
            assert(nv[k] == tail[0]);
            assert(tail[0] == value[end]);
        }
        assert forall|q: int| k < q < nv.len() implies nv[q] != ')' by {
            assert(nv[q] == tail[q - k]);
            assert(tail[q - k] == value[end + q - k]);
        }
        crate::text::lemma_rfind_char_is(nv, ')', k);
        assert(nv.subrange(start + 1, k) == j);
    } else {
        assert(tail == Seq::<char>::empty());
        assert forall|q: int| 0 <= q < nv.len() implies nv[q] != ')' by {
            if q < start + 1 {
                assert(nv[q] == value[q]);
            } else {
                assert(nv[q] == j[q - start - 1]);
                assert(j.contains(j[q - start - 1]));
            }
        }
        crate::text::lemma_rfind_char_none(nv, ')');
        assert(nv.skip(start + 1) == j);
    }
    assert forall|q: int| 0 <= q < b.len() implies balanced_arg(#[trigger] b[q]) by {
        lemma_plain_balanced(b[q]);
    }
    lemma_args_of_join(b);
}

/// Setting argument `index` of a list: the list grows to hold `index`
/// (padded with empty arguments), argument `index` becomes `v`, and every
/// other argument is the one that was there.
pub proof fn lemma_set_arg_facts(args: Seq<Seq<char>>, index: nat, v: Seq<char>)
    ensures
        set_arg(args, index, v).len() == if args.len() > index {
            args.len()
        } else {
            index + 1
        },
        set_arg(args, index, v)[index as int] == v,
        forall|j: int|
            0 <= j < set_arg(args, index, v).len() && j != index ==> #[trigger] set_arg(
                args,
                index,
                v,
            )[j] == if j < args.len() {
                args[j]
            } else {
                Seq::<char>::empty()
            },
{
}

proof fn lemma_empty_plain()
    ensures
        plain_arg(Seq::<char>::empty()),
{
    let e = Seq::<char>::empty();
    assert(trim_start(e) == e);
    assert(trim_end(e) == e);
}

/// Changing one argument of an action changes only that argument: reading
/// the arguments of the new text gives the old arguments, padded with
/// empty ones up to `index`, with argument `index` replaced by `v`
/// (for plain arguments and a non-empty `v`).
pub proof fn lemma_arg_change_keeps_others(value: Seq<char>, index: nat, v: Seq<char>)
    requires
        find_char(value, '(') is Some,
        args_in_order(value),
        forall|j: int|
            0 <= j < args_of(raw_args_of(value)).len() ==> plain_arg(
                #[trigger] args_of(raw_args_of(value))[j],
            ),
        plain_arg(v),
        v.len() > 0,
    ensures
        ({
            let old_args = args_of(raw_args_of(value));
            let new_args = args_of(raw_args_of(with_arg(value, index, v)));
            &&& new_args.len() == if old_args.len() > index {
                old_args.len()
            } else {
                index + 1
            }
            &&& new_args[index as int] == v
            &&& forall|j: int|
                0 <= j < new_args.len() && j != index ==> #[trigger] new_args[j] == if j
                    < old_args.len() {
                    old_args[j]
                } else {
                    Seq::<char>::empty()
                }
        }),
{
    let start = find_char(value, '(').unwrap() as int;
    lemma_find_char(value, '(');
    lemma_rfind_char(value, ')');
    assert(raw_args_of(value) == value.subrange(start + 1, args_end(value)));
    let old_args = args_of(raw_args_of(value));
    let nl = new_arg_list(value, index, v);
    assert(nl == set_arg(old_args, index, v));
    lemma_set_arg_facts(old_args, index, v);
    lemma_empty_plain();
    assert forall|j: int| 0 <= j < nl.len() implies plain_arg(#[trigger] nl[j]) by {
        if j != index {
            assert(nl[j] == if j < old_args.len() {
                old_args[j]
            } else {
                Seq::<char>::empty()
            });
        }
    }
    lemma_arg_read_back(value, index, v);
}

/// Changing the kind of an action to one written `name(...)` carries the
/// old arguments over slot by slot: reading the arguments of the new text
/// gives one per argument the new kind takes, each the old argument in
/// that slot when there is one and it is not empty, else the new kind's
/// default for the slot (for plain old arguments).
pub proof fn lemma_kind_change_keeps_args(value: Seq<char>, a: ActionType)
    requires
        prefix_of(a) is Some,
        forall|j: int|
            0 <= j < args_of(kind_content(value)).len() ==> plain_arg(
                #[trigger] args_of(kind_content(value))[j],
            ),
    ensures
        ({
            let old_args = args_of(kind_content(value));
            let new_args = args_of(raw_args_of(with_kind(value, a)));
            &&& new_args.len() == schema_of(a).len()
            &&& forall|i: int|
                0 <= i < new_args.len() ==> #[trigger] new_args[i] == if i < old_args.len()
                    && old_args[i].len() > 0 {
                    old_args[i]
                } else {
                    default_arg(schema_of(a)[i])
                }
        }),
{
    let old_args = args_of(kind_content(value));
    let sch = schema_of(a);
    let fa = fill_args(sch, old_args);
    let p = prefix_of(a).unwrap();
    let j = join_args(fa);
    let w = p + seq!['('] + j + seq![')'];
    assert(with_kind(value, a) == w);
    // Defaults are plain and not empty.
    assert forall|t: ArgType| plain_arg(#[trigger] default_arg(t)) && default_arg(t).len() > 0 by {
        let d = default_arg(t);
        assert(d.len() > 0);
        assert(!is_ws(d[0]) && !is_ws(d.last()));
        crate::text::lemma_trim_fixed(d);
        assert forall|k: int| 0 <= k < d.len() implies d[k] != ',' && d[k] != '(' && d[k] != ')' by {
        }
    }
    assert forall|i: int| 0 <= i < fa.len() implies plain_arg(#[trigger] fa[i]) by {
        if !(i < old_args.len() && old_args[i].len() > 0) {
            assert(plain_arg(default_arg(sch[i])));
        }
    }
    assert(sch.len() >= 1);
    assert(fa[0].len() > 0) by {
        assert(plain_arg(default_arg(sch[0])) && default_arg(sch[0]).len() > 0);
    }
    lemma_join_plain(fa);
    // The first `(` ends the name, the last `)` ends the text.
    assert forall|k: int| 0 <= k < p.len() implies p[k] != '(' && p[k] != ')' by {}
    assert forall|k: int| 0 <= k < p.len() implies w[k] != '(' by {
        assert(w[k] == p[k]);
    }
    assert(w[p.len() as int] == '(');
    crate::text::lemma_find_char_is(w, '(', p.len() as int);
    crate::text::lemma_rfind_char_is(w, ')', w.len() - 1);
    assert(w.subrange(p.len() as int + 1, w.len() - 1) == j);
    assert(raw_args_of(w) == j);
    assert forall|i: int| 0 <= i < fa.len() implies balanced_arg(#[trigger] fa[i]) by {
        lemma_plain_balanced(fa[i]);
    }
    lemma_args_of_join(fa);
}

/// Changing an action to a plain key keeps its first argument when there
/// is one and it is not empty, else gives `void`.
pub proof fn lemma_simple_kind_keeps_arg(value: Seq<char>)
    ensures
        ({
            let old_args = args_of(kind_content(value));
            with_kind(value, ActionType::Simple) == if old_args.len() > 0 && old_args[0].len() > 0 {
                old_args[0]
            } else {
                seq!['v', 'o', 'i', 'd']
            }
        }),
{
}

/// Plain arguments joined with `, ` hold no `)`.
proof fn lemma_join_plain(bs: Seq<Seq<char>>)
    requires
        forall|j: int| 0 <= j < bs.len() ==> plain_arg(#[trigger] bs[j]),
    ensures
        !join_args(bs).contains(')'),
    decreases bs.len(),
{
    let j = join_args(bs);
    if bs.len() == 1 {
        assert(plain_arg(bs[0]));
    } else if bs.len() >= 2 {
        let f = bs.drop_last();
        assert forall|q: int| 0 <= q < f.len() implies plain_arg(#[trigger] f[q]) by {
            assert(f[q] == bs[q]);
        }
        lemma_join_plain(f);
        let last = bs.last();
        assert(plain_arg(last)) by {
            assert(bs[bs.len() - 1] == last);
        }
        if j.contains(')') {
            let k = choose|k: int| 0 <= k < j.len() && j[k] == ')';
            let j0 = join_args(f);
            assert(j == j0 + seq![',', ' '] + last);
            if k < j0.len() {
                assert(j[k] == j0[k]);
            } else if k >= j0.len() + 2 {
                assert(j[k] == last[k - j0.len() - 2]);
            }
        }
    }
}

} // verus!
