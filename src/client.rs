//! The command grammar of the network client: `get <key>`, `set <key>=<value>`,
//! `delete <key>` and `exit`, with verbs in any case.
use vstd::prelude::*;
use vstd::string::*;
use crate::util::{trim, trim_of};

verus! {

/// Blanks separate a verb from its argument.
pub open spec fn is_blank(c: char) -> bool {
    c == ' ' || c == '\t'
}

/// `c` is the lowercase ASCII letter `l`, or its uppercase form.
pub open spec fn same_letter(c: char, l: char) -> bool {
    c == l || c as u32 + 32 == l as u32
}

/// `s` starts with `verb`, in any case.
pub open spec fn starts_with_verb(s: Seq<char>, verb: Seq<char>) -> bool {
    &&& verb.len() <= s.len()
    &&& forall|i: int| 0 <= i < verb.len() ==> same_letter(#[trigger] s[i], verb[i])
}

/// The number of blanks that `s` starts with.
pub open spec fn leading_blanks(s: Seq<char>) -> nat
    decreases s.len(),
{
    if s.len() > 0 && is_blank(s[0]) {
        1 + leading_blanks(s.drop_first())
    } else {
        0
    }
}

/// The number of characters before the first `=` of `s` (all of them when
/// there is none).
pub open spec fn before_equals(s: Seq<char>) -> nat
    decreases s.len(),
{
    if s.len() > 0 && s[0] != '=' {
        1 + before_equals(s.drop_first())
    } else {
        0
    }
}

/// What follows `verb` and at least one blank at the start of `s`.
pub open spec fn argument_of(s: Seq<char>, verb: Seq<char>) -> Option<Seq<char>> {
    if starts_with_verb(s, verb) && leading_blanks(s.skip(verb.len() as int)) > 0 {
        Some(s.skip(verb.len() as int).skip(leading_blanks(s.skip(verb.len() as int)) as int))
    } else {
        None
    }
}

pub enum CommandView {
    Get { key: Seq<char> },
    Assign { key: Seq<char>, value: Seq<char> },
    Delete { key: Seq<char> },
    Exit,
}

/// The command that a line spells, if any.
pub open spec fn command_of(s: Seq<char>) -> Option<CommandView> {
    if argument_of(s, "get"@) is Some {
        Some(CommandView::Get { key: trim_of(argument_of(s, "get"@).unwrap()) })
    } else if argument_of(s, "set"@) is Some {
        let rest = argument_of(s, "set"@).unwrap();
        let k = before_equals(rest) as int;
        let tail = rest.skip(k + 1);
        let v = before_equals(tail) as int;
        if 0 < k < rest.len() && v > 0 {
            Some(CommandView::Assign { key: trim_of(rest.take(k)), value: trim_of(tail.take(v)) })
        } else {
            None
        }
    } else if argument_of(s, "delete"@) is Some {
        Some(CommandView::Delete { key: trim_of(argument_of(s, "delete"@).unwrap()) })
    } else if starts_with_verb(s, "exit"@) {
        Some(CommandView::Exit)
    } else {
        None
    }
}

/// A command typed at the client's prompt.
pub enum Command<'a> {
    Get { key: &'a str },
    Assign { key: &'a str, value: &'a str },
    Delete { key: &'a str },
    Exit,
}

impl<'a> View for Command<'a> {
    type V = CommandView;

    open spec fn view(&self) -> CommandView {
        match self {
            Command::Get { key } => CommandView::Get { key: key@ },
            Command::Assign { key, value } => CommandView::Assign { key: key@, value: value@ },
            Command::Delete { key } => CommandView::Delete { key: key@ },
            Command::Exit => CommandView::Exit,
        }
    }
}

pub open spec fn command_view(c: Option<Command>) -> Option<CommandView> {
    match c {
        Some(c) => Some(c@),
        None => None,
    }
}

/// Whether `s` starts with `verb` (lowercase ASCII letters), in any case.
fn starts_with(s: &str, n: usize, verb: &str) -> (r: bool)
    requires
        n == s@.len(),
    ensures
        r == starts_with_verb(s@, verb@),
{
    let m = verb.unicode_len();
    if m > n {
        return false;
    }
    let mut i: usize = 0;
    while i < m
        invariant
            m == verb@.len(),
            m <= n,
            n == s@.len(),
            i <= m,
            forall|j: int| 0 <= j < i ==> same_letter(#[trigger] s@[j], verb@[j]),
        decreases m - i,
    {
        let c = s.get_char(i);
        let l = verb.get_char(i);
        if !(c == l || c as u32 + 32 == l as u32) {
            return false;
        }
        i = i + 1;
    }
    true
}

/// The position after the run of characters from `from` on that `keep` holds
/// of: blanks, or characters other than `=`.
fn skip_run(s: &str, n: usize, from: usize, blanks: bool) -> (r: usize)
    requires
        n == s@.len(),
        from <= n,
    ensures
        from <= r <= n,
        blanks ==> r - from == leading_blanks(s@.skip(from as int)),
        !blanks ==> r - from == before_equals(s@.skip(from as int)),
{
    let mut i = from;
    while i < n
        invariant
            n == s@.len(),
            from <= i <= n,
            blanks ==> leading_blanks(s@.skip(from as int)) == (i - from) + leading_blanks(
                s@.skip(i as int),
            ),
            !blanks ==> before_equals(s@.skip(from as int)) == (i - from) + before_equals(
                s@.skip(i as int),
            ),
        decreases n - i,
    {
        let c = s.get_char(i);
        assert(s@.skip(i as int)[0] == c);
        assert(s@.skip(i as int).drop_first() =~= s@.skip(i + 1));
        if blanks {
            if !(c == ' ' || c == '\t') {
                return i;
            }
        } else {
            if c == '=' {
                return i;
            }
        }
        i = i + 1;
    }
    assert(s@.skip(i as int).len() == 0);
    i
}

/// What follows `verb` and at least one blank, as positions in `s`.
fn argument_start(s: &str, n: usize, verb: &str) -> (r: Option<usize>)
    requires
        n == s@.len(),
    ensures
        r is None <==> argument_of(s@, verb@) is None,
        r matches Some(p) ==> p <= n && argument_of(s@, verb@) == Some(s@.skip(p as int)),
{
    if !starts_with(s, n, verb) {
        return None;
    }
    let m = verb.unicode_len();
    let p = skip_run(s, n, m, true);
    if p == m {
        return None;
    }
    assert(s@.skip(m as int).skip((p - m) as int) =~= s@.skip(p as int));
    Some(p)
}

impl<'a> Command<'a> {
    /// Parses a line typed at the client's prompt; `None` when it spells no
    /// command.
    pub fn parse(input: &'a str) -> (r: Option<Command<'a>>)
        ensures
            command_view(r) == command_of(input@),
    {
        let n = input.unicode_len();
        proof {
            reveal_strlit("get");
            reveal_strlit("set");
            reveal_strlit("delete");
            reveal_strlit("exit");
        }
        if let Some(p) = argument_start(input, n, "get") {
            return Some(Command::Get { key: trim(input.substring_char(p, n)) });
        }
        if let Some(p) = argument_start(input, n, "set") {
            let ghost rest = input@.skip(p as int);
            let k = skip_run(input, n, p, false);
            if k == p || k == n {
                return None;
            }
            let v = skip_run(input, n, k + 1, false);
            proof {
                assert(rest.skip((k - p) + 1) =~= input@.skip(k + 1));
                assert(rest.take((k - p) as int) =~= input@.subrange(p as int, k as int));
                assert(input@.skip(k + 1).take((v - k - 1) as int) =~= input@.subrange(k + 1, v as int));
            }
            if v == k + 1 {
                return None;
            }
            let key = trim(input.substring_char(p, k));
            let value = trim(input.substring_char(k + 1, v));
            return Some(Command::Assign { key, value });
        }
        if let Some(p) = argument_start(input, n, "delete") {
            return Some(Command::Delete { key: trim(input.substring_char(p, n)) });
        }
        if starts_with(input, n, "exit") {
            return Some(Command::Exit);
        }
        None
    }
}

} // verus!
