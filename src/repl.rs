//! The commands of the interactive prompt.
use vstd::prelude::*;
use vstd::string::*;
use std::cmp::Ordering;
use crate::keys::compare_keys;
use crate::util::{lower_of, lowercase, trim, trim_of};

verus! {

/// The pieces of `s` between single spaces, as `str::split(' ')` gives
/// them: an empty string splits into one empty piece.
pub open spec fn split_on_space(s: Seq<char>) -> Seq<Seq<char>>
    decreases s.len(),
{
    if s.len() == 0 {
        seq![Seq::empty()]
    } else if s.last() == ' ' {
        split_on_space(s.drop_last()).push(Seq::empty())
    } else {
        let t = split_on_space(s.drop_last());
        t.update(t.len() - 1, t.last().push(s.last()))
    }
}

pub proof fn lemma_split_nonempty(s: Seq<char>)
    ensures
        split_on_space(s).len() >= 1,
    decreases s.len(),
{
    if s.len() > 0 {
        lemma_split_nonempty(s.drop_last());
    }
}

/// A command typed at the prompt.
#[derive(Debug, PartialEq, Eq)]
pub enum Command {
    Assign { key: String, value: String },
    Get { key: String },
    Delete { key: String },
    SegmentList,
    SegmentInspect { segment_file: String },
    Exit,
}

pub enum CommandView {
    Assign { key: Seq<char>, value: Seq<char> },
    Get { key: Seq<char> },
    Delete { key: Seq<char> },
    SegmentList,
    SegmentInspect { segment_file: Seq<char> },
    Exit,
}

impl View for Command {
    type V = CommandView;

    open spec fn view(&self) -> CommandView {
        match self {
            Command::Assign { key, value } => CommandView::Assign { key: key@, value: value@ },
            Command::Get { key } => CommandView::Get { key: key@ },
            Command::Delete { key } => CommandView::Delete { key: key@ },
            Command::SegmentList => CommandView::SegmentList,
            Command::SegmentInspect { segment_file } => CommandView::SegmentInspect {
                segment_file: segment_file@,
            },
            Command::Exit => CommandView::Exit,
        }
    }
}

/// The command that the words `t` spell: a verb, then as many arguments as
/// it takes.
pub open spec fn command_of(t: Seq<Seq<char>>) -> Option<CommandView> {
    if t.len() == 3 && t[0] == "set"@ {
        Some(CommandView::Assign { key: t[1], value: t[2] })
    } else if t.len() == 2 && t[0] == "get"@ {
        Some(CommandView::Get { key: t[1] })
    } else if t.len() == 2 && t[0] == "del"@ {
        Some(CommandView::Delete { key: t[1] })
    } else if t.len() == 1 && t[0] == "segment-list"@ {
        Some(CommandView::SegmentList)
    } else if t.len() == 2 && t[0] == "segment-inspect"@ {
        Some(CommandView::SegmentInspect { segment_file: t[1] })
    } else if t.len() == 1 && t[0] == "exit"@ {
        Some(CommandView::Exit)
    } else {
        None
    }
}

pub open spec fn command_view(c: Option<Command>) -> Option<CommandView> {
    match c {
        Some(c) => Some(c@),
        None => None,
    }
}

/// Splits `s` at each space.
fn split_spaces(s: &str) -> (r: Vec<String>)
    ensures
        r@.map_values(|w: String| w@) == split_on_space(s@),
{
    let n = s.unicode_len();
    let mut words: Vec<String> = Vec::new();
    let mut start: usize = 0;
    let mut i: usize = 0;
    assert(s@.take(0) =~= Seq::<char>::empty());
    assert(s@.subrange(0, 0) =~= Seq::<char>::empty());
    while i < n
        invariant
            n == s@.len(),
            start <= i <= n,
            words@.map_values(|w: String| w@).push(s@.subrange(start as int, i as int))
                == split_on_space(s@.take(i as int)),
        decreases n - i,
    {
        let ghost before = words@.map_values(|w: String| w@);
        assert(s@.take(i + 1).drop_last() =~= s@.take(i as int));
        assert(s@.take(i + 1).last() == s@[i as int]);
        if s.get_char(i) == ' ' {
            let word = s.substring_char(start, i).to_owned();
            words.push(word);
            assert(words@.map_values(|w: String| w@) =~= before.push(s@.subrange(start as int, i as int)));
            start = i + 1;
            assert(s@.subrange(start as int, i + 1) =~= Seq::<char>::empty());
        } else {
            assert(s@.subrange(start as int, i + 1) =~= s@.subrange(start as int, i as int).push(
                s@[i as int],
            ));
            assert(before.push(s@.subrange(start as int, i + 1)) =~= before.push(
                s@.subrange(start as int, i as int),
            ).update(before.len() as int, s@.subrange(start as int, i as int).push(s@[i as int])));
        }
        i = i + 1;
    }
    let last = s.substring_char(start, n).to_owned();
    let ghost before = words@.map_values(|w: String| w@);
    words.push(last);
    assert(s@.take(n as int) =~= s@);
    assert(words@.map_values(|w: String| w@) =~= before.push(s@.subrange(start as int, n as int)));
    words
}

fn is_word(w: &String, lit: &str) -> (r: bool)
    ensures
        r == (w@ == lit@),
{
    matches!(compare_keys(w.as_str(), lit), Ordering::Equal)
}

impl Command {
    /// Parses a line typed at the prompt: trimmed, lowercased, and split at
    /// single spaces into a verb and its arguments.
    pub fn parse(input: &str) -> (r: Option<Command>)
        ensures
            command_view(r) == command_of(split_on_space(lower_of(trim_of(input@)))),
    {
        let lowered = lowercase(trim(input));
        let mut words = split_spaces(lowered.as_str());
        let ghost t = split_on_space(lower_of(trim_of(input@)));
        proof {
            lemma_split_nonempty(lower_of(trim_of(input@)));
        }
        assert(words@.len() == t.len());
        assert(forall|i: int| 0 <= i < t.len() ==> words@[i]@ == #[trigger] t[i]);
        let count = words.len();
        if count == 3 && is_word(&words[0], "set") {
            let value = words.pop().unwrap();
            let key = words.pop().unwrap();
            return Some(Command::Assign { key, value });
        }
        if count == 2 && is_word(&words[0], "get") {
            let key = words.pop().unwrap();
            return Some(Command::Get { key });
        }
        if count == 2 && is_word(&words[0], "del") {
            let key = words.pop().unwrap();
            return Some(Command::Delete { key });
        }
        if count == 1 && is_word(&words[0], "segment-list") {
            return Some(Command::SegmentList);
        }
        if count == 2 && is_word(&words[0], "segment-inspect") {
            let segment_file = words.pop().unwrap();
            return Some(Command::SegmentInspect { segment_file });
        }
        if count == 1 && is_word(&words[0], "exit") {
            return Some(Command::Exit);
        }
        None
    }
}

} // verus!
