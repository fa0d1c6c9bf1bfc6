//! Parsing of `key=value` assignments and of configuration values.
use vstd::prelude::*;
use vstd::string::*;
use std::cmp::Ordering;
use crate::keys::compare_keys;
use crate::memtable::{MemtableArgs, DEFAULT_CAPACITY};
use crate::segment::{parse_uint_of, parse_uint_range};
use crate::store::{StoreArgs, DEFAULT_COMPACTION_INTERVAL_SECONDS};
use crate::engine::EngineArgs;

verus! {

/// The characters with the Unicode White_Space property, those that
/// `char::is_whitespace` accepts.
pub open spec fn is_white_space(c: char) -> bool {
    ||| '\u{9}' <= c <= '\u{d}'
    ||| c == ' '
    ||| c == '\u{85}'
    ||| c == '\u{a0}'
    ||| c == '\u{1680}'
    ||| '\u{2000}' <= c <= '\u{200a}'
    ||| c == '\u{2028}'
    ||| c == '\u{2029}'
    ||| c == '\u{202f}'
    ||| c == '\u{205f}'
    ||| c == '\u{3000}'
}

/// The number of white space characters that `s` starts with.
pub open spec fn leading_white_space(s: Seq<char>) -> nat
    decreases s.len(),
{
    if s.len() > 0 && is_white_space(s[0]) {
        1 + leading_white_space(s.drop_first())
    } else {
        0
    }
}

/// The number of white space characters that `s` ends with.
pub open spec fn trailing_white_space(s: Seq<char>) -> nat
    decreases s.len(),
{
    if s.len() > 0 && is_white_space(s.last()) {
        1 + trailing_white_space(s.drop_last())
    } else {
        0
    }
}

/// What `str::trim` leaves of a string: the string without its leading and
/// trailing white space.
pub open spec fn trim_of(s: Seq<char>) -> Seq<char> {
    let t = s.skip(leading_white_space(s) as int);
    t.take(t.len() - trailing_white_space(t))
}

/// What `str::to_lowercase` makes of a string.
pub uninterp spec fn lower_of(s: Seq<char>) -> Seq<char>;

/// Relies on `str::trim`: it removes the leading and trailing characters with
/// the Unicode White_Space property.
#[verifier::external_body]
pub(crate) fn trim<'a>(s: &'a str) -> (r: &'a str)
    ensures
        r@ == trim_of(s@),
{
    s.trim()
}

/// Relies on `str::to_lowercase`: the result depends on the characters alone.
#[verifier::external_body]
pub(crate) fn lowercase(s: &str) -> (r: String)
    ensures
        r@ == lower_of(s@),
{
    s.to_lowercase()
}

/// A `key=value` pair, as typed at a prompt.
pub struct Assignment<'a> {
    pub key: &'a str,
    pub value: &'a str,
}

/// `i` is the position of the first `=` of `s`.
pub open spec fn first_equals(s: Seq<char>, i: int) -> bool {
    &&& 0 <= i < s.len()
    &&& s[i] == '='
    &&& forall|j: int| 0 <= j < i ==> s[j] != '='
}

impl<'a> Assignment<'a> {
    /// Splits `string` at its first `=`, and trims both sides; `None` when
    /// there is no `=`.
    pub fn parse(string: &'a str) -> (r: Option<Assignment<'a>>)
        ensures
            r is None <==> forall|i: int| 0 <= i < string@.len() ==> string@[i] != '=',
            r matches Some(a) ==> exists|i: int|
                first_equals(string@, i) && a.key@ == trim_of(string@.subrange(0, i))
                    && a.value@ == trim_of(string@.subrange(i + 1, string@.len() as int)),
    {
        let n = string.unicode_len();
        let mut i: usize = 0;
        while i < n
            invariant
                n == string@.len(),
                i <= n,
                forall|j: int| 0 <= j < i ==> string@[j] != '=',
            decreases n - i,
        {
            if string.get_char(i) == '=' {
                let key = trim(string.substring_char(0, i));
                let value = trim(string.substring_char(i + 1, n));
                assert(first_equals(string@, i as int));
                return Some(Assignment { key, value });
            }
            i = i + 1;
        }
        None
    }
}

/// A configuration value parsed from the text of an environment variable.
pub trait FromEnv: Sized {
    /// `None` when the text does not spell a value of the type.
    fn from_env(value: &str) -> Option<Self>;
}

/// Whether a setting's text turns a flag on: `true` in any case, or `1`.
pub fn flag_from_env(value: &str) -> (r: bool)
    ensures
        r == (lower_of(value@) == "true"@ || value@ == "1"@),
{
    let lowered = lowercase(value);
    matches!(compare_keys(lowered.as_str(), "true"), Ordering::Equal) || matches!(
        compare_keys(value, "1"),
        Ordering::Equal,
    )
}

/// Parses a setting's text as a number no greater than `max`, as `str::parse`
/// does for an unsigned integer type.
pub fn number_from_env(value: &str, max: u64) -> (r: Option<u64>)
    ensures
        match r {
            Some(v) => parse_uint_of(value@, max as nat) == Some(v as nat),
            None => parse_uint_of(value@, max as nat) is None,
        },
{
    let n = value.unicode_len();
    proof {
        assert(value@.subrange(0, n as int) =~= value@);
    }
    parse_uint_range(value, 0, n, max)
}

impl FromEnv for bool {
    fn from_env(value: &str) -> Option<bool> {
        Some(flag_from_env(value))
    }
}

impl FromEnv for u16 {
    fn from_env(value: &str) -> Option<u16> {
        match number_from_env(value, u16::MAX as u64) {
            Some(v) => Some(v as u16),
            None => None,
        }
    }
}

impl FromEnv for u64 {
    fn from_env(value: &str) -> Option<u64> {
        number_from_env(value, u64::MAX)
    }
}

impl FromEnv for usize {
    fn from_env(value: &str) -> Option<usize> {
        match number_from_env(value, usize::MAX as u64) {
            Some(v) => Some(v as usize),
            None => None,
        }
    }
}

impl MemtableArgs {
    /// The memtable's settings from the text of its capacity variable, if set:
    /// the default capacity where it is not; `None` where it is not a number.
    pub fn from_env(capacity: Option<&str>) -> (r: Option<MemtableArgs>)
        ensures
            capacity is None ==> (r matches Some(a) && a.capacity == DEFAULT_CAPACITY),
            capacity matches Some(c) ==> match r {
                Some(a) => parse_uint_of(c@, usize::MAX as nat) == Some(a.capacity as nat),
                None => parse_uint_of(c@, usize::MAX as nat) is None,
            },
    {
        match capacity {
            None => Some(MemtableArgs { capacity: DEFAULT_CAPACITY }),
            Some(c) => match number_from_env(c, usize::MAX as u64) {
                Some(v) => Some(MemtableArgs { capacity: v as usize }),
                None => None,
            },
        }
    }
}

impl StoreArgs {
    /// The store's settings from the texts of its variables, if set: whether
    /// compaction runs, and its interval in seconds. Unset ones take their
    /// defaults; `None` where the interval is not a number.
    pub fn from_env(compaction_enabled: Option<&str>, compaction_interval_seconds: Option<&str>) -> (r:
        Option<StoreArgs>)
        ensures
            r matches Some(a) ==> match compaction_enabled {
                None => a.compaction_enabled,
                Some(e) => a.compaction_enabled == (lower_of(e@) == "true"@ || e@ == "1"@),
            },
            compaction_interval_seconds is None ==> (r matches Some(a)
                && a.compaction_interval_seconds == DEFAULT_COMPACTION_INTERVAL_SECONDS),
            compaction_interval_seconds matches Some(s) ==> match r {
                Some(a) => parse_uint_of(s@, u64::MAX as nat) == Some(
                    a.compaction_interval_seconds as nat,
                ),
                None => parse_uint_of(s@, u64::MAX as nat) is None,
            },
    {
        let enabled = match compaction_enabled {
            None => true,
            Some(e) => flag_from_env(e),
        };
        let interval = match compaction_interval_seconds {
            None => DEFAULT_COMPACTION_INTERVAL_SECONDS,
            Some(s) => match number_from_env(s, u64::MAX) {
                Some(v) => v,
                None => {
                    return None;
                },
            },
        };
        Some(StoreArgs { compaction_enabled: enabled, compaction_interval_seconds: interval })
    }
}

impl EngineArgs {
    /// The engine's settings from the texts of the memtable's and the store's
    /// variables; `None` where a number does not parse.
    pub fn from_env(
        memtable_capacity: Option<&str>,
        compaction_enabled: Option<&str>,
        compaction_interval_seconds: Option<&str>,
    ) -> (r: Option<EngineArgs>)
        ensures
            r is None <==> (memtable_capacity matches Some(c) && parse_uint_of(c@, usize::MAX as nat) is None)
                || (compaction_interval_seconds matches Some(s) && parse_uint_of(s@, u64::MAX as nat) is None),
            r matches Some(a) ==> {
                &&& memtable_capacity is None ==> a.memtable.capacity == DEFAULT_CAPACITY
                &&& memtable_capacity matches Some(c) ==> parse_uint_of(c@, usize::MAX as nat) == Some(
                    a.memtable.capacity as nat,
                )
                &&& compaction_enabled is None ==> a.store.compaction_enabled
                &&& compaction_enabled matches Some(e) ==> a.store.compaction_enabled == (lower_of(e@)
                    == "true"@ || e@ == "1"@)
                &&& compaction_interval_seconds is None ==> a.store.compaction_interval_seconds
                    == DEFAULT_COMPACTION_INTERVAL_SECONDS
                &&& compaction_interval_seconds matches Some(s) ==> parse_uint_of(s@, u64::MAX as nat)
                    == Some(a.store.compaction_interval_seconds as nat)
            },
    {
        let memtable = match MemtableArgs::from_env(memtable_capacity) {
            Some(m) => m,
            None => {
                return None;
            },
        };
        let store = match StoreArgs::from_env(compaction_enabled, compaction_interval_seconds) {
            Some(s) => s,
            None => {
                return None;
            },
        };
        Some(EngineArgs { memtable, store })
    }
}

} // verus!
