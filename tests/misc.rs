use crunch::client::Command as Request;
use crunch::compaction::{compaction_tick, Tick};
use crunch::engine::EngineArgs;
use crunch::repl::Command as Prompt;
use crunch::error::{Error, PairComponent};
use crunch::memtable::MemtableArgs;
use crunch::protocol::{write_data, Command};
use crunch::store::StoreArgs;
use crunch::util::{flag_from_env, number_from_env, Assignment, FromEnv};

#[test]
fn assignment_parse() {
    let a = Assignment::parse(" key = some value ").unwrap();
    assert_eq!(a.key, "key");
    assert_eq!(a.value, "some value");
    let b = Assignment::parse("a=b=c").unwrap();
    assert_eq!(b.key, "a");
    assert_eq!(b.value, "b=c");
    assert!(Assignment::parse("no equals sign").is_none());
    let c = Assignment::parse("\u{3000}k\u{a0}=\tv\u{2028}").unwrap();
    assert_eq!(c.key, "k");
    assert_eq!(c.value, "v");
}

#[test]
fn settings_from_text() {
    assert!(flag_from_env("TRUE"));
    assert!(flag_from_env("true"));
    assert!(flag_from_env("1"));
    assert!(!flag_from_env("yes"));
    assert!(!flag_from_env("0"));
    assert_eq!(number_from_env("600", u64::MAX), Some(600));
    assert_eq!(number_from_env("+7", u64::MAX), Some(7));
    assert_eq!(number_from_env("70000", u16::MAX as u64), None);
    assert_eq!(number_from_env("18446744073709551615", u64::MAX), Some(u64::MAX));
    assert_eq!(number_from_env("18446744073709551616", u64::MAX), None);
    assert_eq!(number_from_env("", u64::MAX), None);
    assert_eq!(number_from_env("-1", u64::MAX), None);
    assert_eq!(<u16 as FromEnv>::from_env("6210"), Some(6210));
    assert_eq!(<usize as FromEnv>::from_env("12x"), None);
    assert_eq!(<bool as FromEnv>::from_env("True"), Some(true));
}

#[test]
fn args_from_env() {
    assert_eq!(MemtableArgs::from_env(None).unwrap().capacity, 1024);
    assert_eq!(MemtableArgs::from_env(Some("10")).unwrap().capacity, 10);
    assert!(MemtableArgs::from_env(Some("ten")).is_none());
    let store = StoreArgs::from_env(Some("false"), Some("0")).unwrap();
    assert!(!store.compaction_enabled);
    assert_eq!(store.compaction_interval_seconds, 0);
    let defaults = StoreArgs::from_env(None, None).unwrap();
    assert!(defaults.compaction_enabled);
    assert_eq!(defaults.compaction_interval_seconds, 600);
    assert!(StoreArgs::from_env(None, Some("soon")).is_none());
    let engine = EngineArgs::from_env(Some("3"), None, None).unwrap();
    assert_eq!(engine.memtable.capacity, 3);
    assert!(EngineArgs::from_env(Some("x"), None, None).is_none());
    let default_args = EngineArgs::default();
    assert_eq!(default_args.memtable.capacity, 1024);
    assert_eq!(default_args.store.compaction_interval_seconds, 600);
}

#[test]
fn compactor_ticks() {
    assert_eq!(compaction_tick(true, 1000, 0), Tick::Stop);
    assert_eq!(compaction_tick(false, 600, 600), Tick::Compact);
    assert_eq!(compaction_tick(false, 0, 0), Tick::Compact);
    assert_eq!(compaction_tick(false, 599, 600), Tick::Wait);
}

#[test]
fn protocol_commands() {
    assert_eq!(Command::from_u8_opt(1), Some(Command::Get));
    assert_eq!(Command::from_u8_opt(2), Some(Command::Put));
    assert_eq!(Command::from_u8_opt(3), Some(Command::Delete));
    assert_eq!(Command::from_u8_opt(0), None);
    assert_eq!(Command::from_u8_opt(4), None);
}

#[test]
fn protocol_fields() {
    let mut out = vec![1u8];
    write_data(&mut out, b"hi").unwrap();
    assert_eq!(out, vec![1, 0, 0, 0, 2, b'h', b'i']);
    let _ = Error::TooLarge(PairComponent::Value, 1, 0);
}

#[test]
fn prompt_commands() {
    assert_eq!(
        Prompt::parse("SET Name Value\n"),
        Some(Prompt::Assign { key: "name".to_string(), value: "value".to_string() })
    );
    assert_eq!(Prompt::parse("get k"), Some(Prompt::Get { key: "k".to_string() }));
    assert_eq!(Prompt::parse("del k"), Some(Prompt::Delete { key: "k".to_string() }));
    assert_eq!(Prompt::parse("segment-list"), Some(Prompt::SegmentList));
    assert_eq!(
        Prompt::parse("segment-inspect segment-1.dat"),
        Some(Prompt::SegmentInspect { segment_file: "segment-1.dat".to_string() })
    );
    assert_eq!(Prompt::parse("  exit  "), Some(Prompt::Exit));
    assert_eq!(Prompt::parse("get  k"), None);
    assert_eq!(Prompt::parse("set k"), None);
    assert_eq!(Prompt::parse("list"), None);
    assert_eq!(Prompt::parse(""), None);
}

#[test]
fn client_commands() {
    assert!(matches!(Request::parse("get  key \n"), Some(Request::Get { key: "key" })));
    assert!(matches!(Request::parse("GET\tkey"), Some(Request::Get { key: "key" })));
    assert!(matches!(
        Request::parse("set a = b\n"),
        Some(Request::Assign { key: "a", value: "b" })
    ));
    assert!(matches!(
        Request::parse("Set a=b=c"),
        Some(Request::Assign { key: "a", value: "b" })
    ));
    assert!(Request::parse("set =b").is_none());
    assert!(Request::parse("set a=").is_none());
    assert!(Request::parse("set ab").is_none());
    assert!(matches!(Request::parse("delete k"), Some(Request::Delete { key: "k" })));
    assert!(matches!(Request::parse("EXIT\n"), Some(Request::Exit)));
    assert!(matches!(Request::parse("exitnow"), Some(Request::Exit)));
    assert!(Request::parse("getkey").is_none());
    assert!(Request::parse("fetch k").is_none());
}
