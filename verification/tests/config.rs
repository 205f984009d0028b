use layered_config::config::{Config, LoadedFile};
use layered_config::error::Error;
use layered_config::level::ConfigLevel;
use layered_config::source::Source;
use layered_config::table::EntryTable;

fn table(pairs: &[(&str, &str)]) -> EntryTable {
    let mut t = EntryTable::new();
    for (name, value) in pairs {
        t.push(name.as_bytes(), value.as_bytes());
    }
    t
}

fn listed(cfg: &Config, glob: Option<&str>) -> Vec<(String, String, ConfigLevel)> {
    let mut out = Vec::new();
    let mut pass = cfg.entries(glob).unwrap();
    while let Some(entry) = pass.next() {
        out.push((
            entry.name().unwrap().to_string(),
            entry.value().unwrap().to_string(),
            entry.level(),
        ));
    }
    out
}

#[test]
fn smoke() {
    let _cfg = Config::new().unwrap();
    let _ = Config::find_global(None);
    let _ = Config::find_system();
    let _ = Config::find_xdg(None, None);
}

#[test]
fn persisted() {
    let path = "test/foo";

    let mut cfg = Config::open(path, Some(EntryTable::new())).unwrap();
    assert!(cfg.get_bool("foo.bar").is_err());
    cfg.set_bool("foo.k1", true).unwrap();
    cfg.set_i32("foo.k2", 1).unwrap();
    cfg.set_i64("foo.k3", 2).unwrap();
    cfg.set_str("foo.k4", "bar").unwrap();
    cfg.snapshot().unwrap();
    let stored = cfg.source(0).entries().clone();
    drop(cfg);

    let cfg = Config::open(path, Some(stored)).unwrap();
    assert_eq!(cfg.get_bool("foo.k1").unwrap(), true);
    assert_eq!(cfg.get_i32("foo.k2").unwrap(), 1);
    assert_eq!(cfg.get_i64("foo.k3").unwrap(), 2);
    assert_eq!(cfg.get_str("foo.k4").unwrap(), "bar");

    let mut pass = cfg.entries(None).unwrap();
    while let Some(entry) = pass.next() {
        entry.name();
        entry.value();
        entry.level();
    }
}

#[test]
fn new_store_is_empty_and_takes_no_writes() {
    let mut cfg = Config::new().unwrap();
    assert_eq!(cfg.len(), 0);
    assert_eq!(cfg.get_bool("a.b"), Err(Error::NotFound));
    assert_eq!(cfg.set_bool("a.b", true), Err(Error::NoWritableSource));
    assert_eq!(cfg.set_i32("a.b", 1), Err(Error::NoWritableSource));
    assert_eq!(cfg.set_i64("a.b", 1), Err(Error::NoWritableSource));
    assert_eq!(cfg.set_str("a.b", "x"), Err(Error::NoWritableSource));
    assert_eq!(cfg.remove("a.b"), Err(Error::NoWritableSource));
    assert!(listed(&cfg, None).is_empty());
}

#[test]
fn open_without_content_is_an_io_error() {
    assert!(matches!(Config::open("missing", None), Err(Error::IoError)));
}

#[test]
fn open_makes_one_local_source() {
    let cfg = Config::open("repo/config", Some(table(&[("core.bare", "false")]))).unwrap();
    assert_eq!(cfg.len(), 1);
    assert_eq!(cfg.source(0).level(), ConfigLevel::Local);
    assert_eq!(cfg.source(0).path().as_deref(), Some("repo/config"));
    assert!(!cfg.source(0).force());
    assert_eq!(cfg.get_entry("core.bare").unwrap().level(), ConfigLevel::Local);
}

#[test]
fn get_of_unset_name_then_set_then_get() {
    let mut cfg = Config::open("f", Some(table(&[("other.name", "1")]))).unwrap();
    assert_eq!(cfg.get_str("k.v"), Err(Error::NotFound));
    assert_eq!(cfg.get_bytes("k.v"), Err(Error::NotFound));
    assert!(matches!(cfg.get_entry("k.v"), Err(Error::NotFound)));
    cfg.set_str("k.v", "value").unwrap();
    assert_eq!(cfg.get_str("k.v"), Ok("value"));
    assert_eq!(cfg.get_bytes("k.v"), Ok(&b"value"[..]));
    assert_eq!(cfg.get_str("other.name"), Ok("1"));
}

#[test]
fn higher_level_shadows_lower_level() {
    for low_first in [true, false] {
        let mut cfg = Config::new().unwrap();
        let low = Some(table(&[("user.name", "system")]));
        let high = Some(table(&[("user.name", "local")]));
        if low_first {
            cfg.add_file("low", ConfigLevel::SystemWide, false, low).unwrap();
            cfg.add_file("high", ConfigLevel::Local, false, high).unwrap();
        } else {
            cfg.add_file("high", ConfigLevel::Local, false, high).unwrap();
            cfg.add_file("low", ConfigLevel::SystemWide, false, low).unwrap();
        }
        assert_eq!(cfg.get_str("user.name"), Ok("local"));
        let entry = cfg.get_entry("user.name").unwrap();
        assert_eq!(entry.level(), ConfigLevel::Local);
        assert_eq!(entry.name(), Some("user.name"));
        assert_eq!(entry.name_bytes(), b"user.name");
        assert_eq!(entry.value(), Some("local"));
        assert_eq!(entry.value_bytes(), b"local");
        assert_eq!(cfg.source(0).level(), ConfigLevel::Local);
        assert_eq!(cfg.source(1).level(), ConfigLevel::SystemWide);
    }
}

#[test]
fn later_source_of_the_same_level_wins() {
    let mut cfg = Config::new().unwrap();
    cfg.add_file("first", ConfigLevel::Global, false, Some(table(&[("a.b", "1")]))).unwrap();
    cfg.add_file("second", ConfigLevel::Global, false, Some(table(&[("a.b", "2")]))).unwrap();
    assert_eq!(cfg.len(), 2);
    assert_eq!(cfg.get_i32("a.b"), Ok(2));
    assert_eq!(cfg.source(0).path().as_deref(), Some("second"));
}

#[test]
fn add_file_without_force_skips_a_source_that_is_there() {
    let mut cfg = Config::new().unwrap();
    cfg.add_file("f", ConfigLevel::Global, false, Some(table(&[("a.b", "1")]))).unwrap();
    assert_eq!(cfg.add_file("f", ConfigLevel::Global, false, Some(table(&[("a.b", "2")]))), Ok(()));
    assert_eq!(cfg.len(), 1);
    assert_eq!(cfg.get_i32("a.b"), Ok(1));
    // Not even a file that cannot be loaded is an error then.
    assert_eq!(cfg.add_file("f", ConfigLevel::Global, false, None), Ok(()));
    assert_eq!(cfg.len(), 1);
    // The same path at another level is another source.
    assert_eq!(cfg.add_file("f", ConfigLevel::Local, false, Some(table(&[("a.b", "3")]))), Ok(()));
    assert_eq!(cfg.len(), 2);
    assert_eq!(cfg.get_i32("a.b"), Ok(3));
}

#[test]
fn add_file_with_force_shadows_a_source_that_is_there() {
    let mut cfg = Config::new().unwrap();
    cfg.add_file("f", ConfigLevel::Global, false, Some(table(&[("a.b", "1")]))).unwrap();
    cfg.add_file("f", ConfigLevel::Global, true, Some(table(&[("a.b", "2")]))).unwrap();
    assert_eq!(cfg.len(), 2);
    assert_eq!(cfg.get_i32("a.b"), Ok(2));
    assert!(cfg.source(0).force());
}

#[test]
fn add_file_that_cannot_be_loaded_leaves_the_store_usable() {
    let mut cfg = Config::new().unwrap();
    cfg.add_file("good", ConfigLevel::Global, false, Some(table(&[("a.b", "1")]))).unwrap();
    assert_eq!(cfg.add_file("bad", ConfigLevel::Local, false, None), Err(Error::IoError));
    assert_eq!(cfg.add_file("bad", ConfigLevel::Local, true, None), Err(Error::IoError));
    assert_eq!(cfg.len(), 1);
    assert_eq!(cfg.get_i32("a.b"), Ok(1));
}

#[test]
fn add_source_tells_whether_it_added() {
    let mut cfg = Config::new().unwrap();
    assert!(cfg.add_source(Source::new(None, ConfigLevel::App, false, table(&[("a.b", "1")]))));
    assert!(!cfg.add_source(Source::new(None, ConfigLevel::App, false, table(&[("a.b", "2")]))));
    assert!(cfg.add_source(Source::new(None, ConfigLevel::App, true, table(&[("a.b", "3")]))));
    assert!(cfg.contains_source(&None, ConfigLevel::App));
    assert!(!cfg.contains_source(&None, ConfigLevel::Local));
    assert!(!cfg.contains_source(&Some("x".to_string()), ConfigLevel::App));
    assert_eq!(cfg.len(), 2);
    assert_eq!(cfg.get_i32("a.b"), Ok(3));
}

#[test]
fn sources_stand_in_order_of_authority() {
    let levels = [
        ConfigLevel::Xdg,
        ConfigLevel::Override,
        ConfigLevel::SystemWide,
        ConfigLevel::App,
        ConfigLevel::ProgramData,
        ConfigLevel::Local,
        ConfigLevel::Global,
    ];
    let mut cfg = Config::new().unwrap();
    for (i, level) in levels.iter().enumerate() {
        let value = format!("{}", i);
        cfg.add_file(&value, *level, false, Some(table(&[("a.b", &value)]))).unwrap();
    }
    let order: Vec<ConfigLevel> = (0..cfg.len()).map(|i| cfg.source(i).level()).collect();
    assert_eq!(
        order,
        vec![
            ConfigLevel::Override,
            ConfigLevel::App,
            ConfigLevel::Local,
            ConfigLevel::Global,
            ConfigLevel::Xdg,
            ConfigLevel::ProgramData,
            ConfigLevel::SystemWide,
        ]
    );
    assert_eq!(cfg.get_i32("a.b"), Ok(1));
}

#[test]
fn set_replaces_the_last_entry_of_the_name() {
    let mut cfg =
        Config::open("f", Some(table(&[("a.b", "1"), ("c.d", "x"), ("a.b", "2")]))).unwrap();
    assert_eq!(cfg.get_i32("a.b"), Ok(2));
    cfg.set_i32("a.b", 3).unwrap();
    assert_eq!(
        listed(&cfg, None),
        vec![
            ("a.b".to_string(), "1".to_string(), ConfigLevel::Local),
            ("c.d".to_string(), "x".to_string(), ConfigLevel::Local),
            ("a.b".to_string(), "3".to_string(), ConfigLevel::Local),
        ]
    );
    cfg.set_i32("e.f", 4).unwrap();
    assert_eq!(cfg.source(0).entries().len(), 4);
    assert_eq!(cfg.source(0).entries().name_at(3), b"e.f");
    assert_eq!(cfg.source(0).entries().value_at(3), b"4");
}

#[test]
fn set_lands_in_the_most_authoritative_source() {
    let mut cfg = Config::new().unwrap();
    cfg.add_file("low", ConfigLevel::Global, false, Some(table(&[("a.b", "1")]))).unwrap();
    cfg.add_file("high", ConfigLevel::Local, false, Some(table(&[]))).unwrap();
    cfg.set_i32("a.b", 2).unwrap();
    assert_eq!(cfg.get_i32("a.b"), Ok(2));
    assert_eq!(cfg.source(0).entries().len(), 1);
    assert_eq!(cfg.source(1).entries().value_at(0), b"1");
}

#[test]
fn names_are_compared_without_case() {
    let mut cfg = Config::open("f", Some(table(&[("Core.AutoCRLF", "true")]))).unwrap();
    assert_eq!(cfg.get_bool("core.autocrlf"), Ok(true));
    assert_eq!(cfg.get_bool("CORE.AUTOCRLF"), Ok(true));
    assert_eq!(cfg.get_entry("CORE.autocrlf").unwrap().name(), Some("core.autocrlf"));
    cfg.set_bool("CORE.autocrlf", false).unwrap();
    assert_eq!(cfg.source(0).entries().len(), 1);
    assert_eq!(cfg.get_bool("core.autocrlf"), Ok(false));
    cfg.remove("Core.Autocrlf").unwrap();
    assert_eq!(cfg.get_bool("core.autocrlf"), Err(Error::NotFound));
}

#[test]
fn remove_then_get_is_not_found() {
    let mut cfg = Config::open("f", Some(table(&[("a.b", "1"), ("c.d", "2"), ("a.b", "3")]))).unwrap();
    assert_eq!(cfg.remove("a.b"), Ok(()));
    assert_eq!(cfg.get_i32("a.b"), Err(Error::NotFound));
    assert_eq!(cfg.get_i32("c.d"), Ok(2));
    assert_eq!(cfg.source(0).entries().len(), 1);
    assert_eq!(cfg.remove("a.b"), Err(Error::NotFound));
}

#[test]
fn remove_touches_the_most_authoritative_source_only() {
    let mut cfg = Config::new().unwrap();
    cfg.add_file("low", ConfigLevel::Global, false, Some(table(&[("a.b", "1")]))).unwrap();
    cfg.add_file("high", ConfigLevel::Local, false, Some(table(&[("a.b", "2")]))).unwrap();
    assert_eq!(cfg.remove("a.b"), Ok(()));
    // The lower source still defines the name, so it shows again.
    assert_eq!(cfg.get_i32("a.b"), Ok(1));
    assert_eq!(cfg.open_level(ConfigLevel::Global).unwrap().get_i32("a.b"), Ok(1));
    assert_eq!(cfg.open_level(ConfigLevel::Local).unwrap().get_i32("a.b"), Err(Error::NotFound));
    // The name is gone from the first source, and a removal looks no further.
    assert_eq!(cfg.remove("a.b"), Err(Error::NotFound));
    assert_eq!(cfg.get_i32("a.b"), Ok(1));
}

#[test]
fn open_level_confines_reads_and_writes() {
    let mut cfg = Config::new().unwrap();
    cfg.add_file("g", ConfigLevel::Global, false, Some(table(&[("a.b", "1"), ("g.only", "g")]))).unwrap();
    cfg.add_file("l", ConfigLevel::Local, false, Some(table(&[("a.b", "2")]))).unwrap();
    let mut global = cfg.open_level(ConfigLevel::Global).unwrap();
    assert_eq!(global.len(), 1);
    assert_eq!(global.get_i32("a.b"), Ok(1));
    global.set_i32("a.b", 5).unwrap();
    assert_eq!(global.get_entry("a.b").unwrap().level(), ConfigLevel::Global);
    assert_eq!(global.get_i32("a.b"), Ok(5));
    let local = cfg.open_level(ConfigLevel::Local).unwrap();
    assert_eq!(local.get_str("g.only"), Err(Error::NotFound));
    let none = cfg.open_level(ConfigLevel::App).unwrap();
    assert_eq!(none.len(), 0);
}

#[test]
fn open_global_prefers_the_xdg_file() {
    let mut cfg = Config::new().unwrap();
    cfg.add_file("g", ConfigLevel::Global, false, Some(table(&[("a.b", "1")]))).unwrap();
    assert_eq!(cfg.open_global().unwrap().get_i32("a.b"), Ok(1));
    cfg.add_file("x", ConfigLevel::Xdg, false, Some(table(&[("a.b", "2")]))).unwrap();
    let view = cfg.open_global().unwrap();
    assert_eq!(view.len(), 1);
    assert_eq!(view.get_i32("a.b"), Ok(2));
    assert_eq!(cfg.len(), 2);
}

#[test]
fn open_default_orders_the_conventional_files() {
    let file = |path: &str, value: &str| {
        Some(LoadedFile { path: path.to_string(), entries: table(&[("a.b", value)]) })
    };
    let cfg =
        Config::open_default(file("g", "1"), file("x", "2"), file("s", "3")).unwrap();
    assert_eq!(
        listed(&cfg, None),
        vec![
            ("a.b".to_string(), "1".to_string(), ConfigLevel::Global),
            ("a.b".to_string(), "2".to_string(), ConfigLevel::Xdg),
            ("a.b".to_string(), "3".to_string(), ConfigLevel::SystemWide),
        ]
    );
    let cfg = Config::open_default(None, file("x", "2"), None).unwrap();
    assert_eq!(cfg.len(), 1);
    assert_eq!(cfg.get_entry("a.b").unwrap().level(), ConfigLevel::Xdg);
    assert_eq!(Config::open_default(None, None, None).unwrap().len(), 0);
}

#[test]
fn snapshot_is_unaffected_by_a_later_set() {
    let mut cfg = Config::new().unwrap();
    cfg.add_file("g", ConfigLevel::Global, false, Some(table(&[("a.b", "1"), ("c.d", "x")]))).unwrap();
    cfg.add_file("l", ConfigLevel::Local, false, Some(table(&[("a.b", "2"), ("a.b", "3")]))).unwrap();
    let snap = cfg.snapshot().unwrap();
    cfg.set_i32("a.b", 4).unwrap();
    cfg.set_str("c.d", "y").unwrap();
    cfg.remove("a.b").unwrap();
    assert_eq!(snap.get_i32("a.b"), Ok(3));
    assert_eq!(snap.get_i64("a.b"), Ok(3));
    assert_eq!(snap.get_str("c.d"), Ok("x"));
    assert_eq!(snap.get_bytes("c.d"), Ok(&b"x"[..]));
    assert_eq!(snap.get_bool("c.d"), Err(Error::TypeMismatch));
    assert_eq!(snap.get_entry("a.b").unwrap().level(), ConfigLevel::Local);
    assert_eq!(snap.get_entry("c.d").unwrap().level(), ConfigLevel::Global);
    assert!(matches!(snap.get_entry("e.f"), Err(Error::NotFound)));
    assert_eq!(cfg.get_i32("a.b"), Ok(1));
    assert_eq!(cfg.get_str("c.d"), Ok("y"));
}

#[test]
fn snapshot_holds_each_name_once() {
    let mut cfg = Config::new().unwrap();
    cfg.add_file("g", ConfigLevel::Global, false, Some(table(&[("a.b", "1"), ("c.d", "x")]))).unwrap();
    cfg.add_file("l", ConfigLevel::Local, false, Some(table(&[("a.b", "2"), ("e.f", "z"), ("a.b", "3")]))).unwrap();
    let snap = cfg.snapshot().unwrap();
    let mut seen = Vec::new();
    let mut pass = snap.entries(None).unwrap();
    while let Some(entry) = pass.next() {
        seen.push((
            entry.name().unwrap().to_string(),
            entry.value().unwrap().to_string(),
            entry.level(),
        ));
    }
    assert_eq!(
        seen,
        vec![
            ("e.f".to_string(), "z".to_string(), ConfigLevel::Local),
            ("a.b".to_string(), "3".to_string(), ConfigLevel::Local),
            ("c.d".to_string(), "x".to_string(), ConfigLevel::Global),
        ]
    );
    let mut only = snap.entries(Some("c.*")).unwrap();
    assert_eq!(only.next().unwrap().name(), Some("c.d"));
    assert!(only.next().is_none());
}

#[test]
fn entries_come_in_order_of_authority_then_of_writing() {
    let mut cfg = Config::new().unwrap();
    cfg.add_file("g", ConfigLevel::Global, false, Some(table(&[("a.b", "1"), ("c.d", "x")]))).unwrap();
    cfg.add_file("l", ConfigLevel::Local, false, Some(table(&[("c.e", "2"), ("a.b", "3")]))).unwrap();
    assert_eq!(
        listed(&cfg, None),
        vec![
            ("c.e".to_string(), "2".to_string(), ConfigLevel::Local),
            ("a.b".to_string(), "3".to_string(), ConfigLevel::Local),
            ("a.b".to_string(), "1".to_string(), ConfigLevel::Global),
            ("c.d".to_string(), "x".to_string(), ConfigLevel::Global),
        ]
    );
}

#[test]
fn entries_with_a_glob_yield_the_matching_names_only() {
    let mut cfg = Config::new().unwrap();
    cfg.add_file("g", ConfigLevel::Global, false, Some(table(&[("a.b", "1"), ("c.d", "x")]))).unwrap();
    cfg.add_file("l", ConfigLevel::Local, false, Some(table(&[("c.e", "2"), ("a.b", "3")]))).unwrap();
    assert_eq!(
        listed(&cfg, Some("c.*")),
        vec![
            ("c.e".to_string(), "2".to_string(), ConfigLevel::Local),
            ("c.d".to_string(), "x".to_string(), ConfigLevel::Global),
        ]
    );
    assert_eq!(
        listed(&cfg, Some("?.b")),
        vec![
            ("a.b".to_string(), "3".to_string(), ConfigLevel::Local),
            ("a.b".to_string(), "1".to_string(), ConfigLevel::Global),
        ]
    );
    assert!(listed(&cfg, Some("z*")).is_empty());
    assert_eq!(listed(&cfg, Some("*")).len(), 4);
}

#[test]
fn a_pass_ends_once() {
    let cfg = Config::open("f", Some(table(&[("a.b", "1")]))).unwrap();
    let mut pass = cfg.entries(None).unwrap();
    assert!(pass.next().is_some());
    assert!(pass.next().is_none());
    assert!(pass.next().is_none());
    // A new pass starts from the beginning.
    assert!(cfg.entries(None).unwrap().next().is_some());
}

#[test]
fn typed_round_trips() {
    let mut cfg = Config::open("f", Some(EntryTable::new())).unwrap();
    cfg.set_bool("a.b", true).unwrap();
    assert_eq!(cfg.get_bool("a.b"), Ok(true));
    cfg.set_i64("a.c", 42).unwrap();
    assert_eq!(cfg.get_i64("a.c"), Ok(42));
    cfg.set_str("a.d", "x").unwrap();
    assert_eq!(cfg.get_str("a.d"), Ok("x"));
    cfg.set_bool("a.b", false).unwrap();
    assert_eq!(cfg.get_bool("a.b"), Ok(false));
    cfg.set_i32("a.e", -7).unwrap();
    assert_eq!(cfg.get_i32("a.e"), Ok(-7));
    cfg.set_i64("a.f", i64::MIN).unwrap();
    assert_eq!(cfg.get_i64("a.f"), Ok(i64::MIN));
    assert_eq!(cfg.get_bytes("a.f"), Ok(&b"-9223372036854775808"[..]));
    cfg.set_i64("a.g", i64::MAX).unwrap();
    assert_eq!(cfg.get_i64("a.g"), Ok(i64::MAX));
    cfg.set_i32("a.h", i32::MIN).unwrap();
    assert_eq!(cfg.get_i32("a.h"), Ok(i32::MIN));
    cfg.set_str("a.i", "gr\u{fc}n \u{2603}").unwrap();
    assert_eq!(cfg.get_str("a.i"), Ok("gr\u{fc}n \u{2603}"));
    assert_eq!(cfg.get_bytes("a.b"), Ok(&b"false"[..]));
    assert_eq!(cfg.get_bytes("a.c"), Ok(&b"42"[..]));
}

#[test]
fn number_beyond_32_bits_is_a_type_mismatch() {
    let mut cfg = Config::open("f", Some(table(&[("a.b", "99999999999")]))).unwrap();
    assert_eq!(cfg.get_i32("a.b"), Err(Error::TypeMismatch));
    assert_eq!(cfg.get_i64("a.b"), Ok(99999999999));
    cfg.set_i64("a.c", 2147483648).unwrap();
    assert_eq!(cfg.get_i32("a.c"), Err(Error::TypeMismatch));
    cfg.set_i64("a.c", 2147483647).unwrap();
    assert_eq!(cfg.get_i32("a.c"), Ok(2147483647));
    cfg.set_i64("a.c", -2147483649).unwrap();
    assert_eq!(cfg.get_i32("a.c"), Err(Error::TypeMismatch));
}

#[test]
fn wrong_types_are_told_apart_from_missing_names() {
    let mut t = table(&[("a.text", "hello"), ("a.num", "12"), ("a.flag", "yes")]);
    t.push(b"a.raw", &[0xff, 0xfe]);
    let cfg = Config::open("f", Some(t)).unwrap();
    assert_eq!(cfg.get_bool("a.text"), Err(Error::TypeMismatch));
    assert_eq!(cfg.get_i32("a.text"), Err(Error::TypeMismatch));
    assert_eq!(cfg.get_i64("a.flag"), Err(Error::TypeMismatch));
    assert_eq!(cfg.get_bool("a.num"), Err(Error::TypeMismatch));
    assert_eq!(cfg.get_str("a.raw"), Err(Error::InvalidEncoding));
    assert_eq!(cfg.get_bytes("a.raw"), Ok(&[0xffu8, 0xfe][..]));
    assert_eq!(cfg.get_entry("a.raw").unwrap().value(), None);
    assert_eq!(cfg.get_bool("a.none"), Err(Error::NotFound));
    assert_eq!(cfg.get_i32("a.none"), Err(Error::NotFound));
    assert_eq!(cfg.get_i64("a.none"), Err(Error::NotFound));
    assert_eq!(cfg.get_str("a.none"), Err(Error::NotFound));
}

#[test]
fn entry_name_that_is_no_text_has_no_textual_name() {
    let mut t = EntryTable::new();
    t.push(&[0x61, 0xff], b"v");
    let cfg = Config::open("f", Some(t)).unwrap();
    let mut pass = cfg.entries(None).unwrap();
    let entry = pass.next().unwrap();
    assert_eq!(entry.name(), None);
    assert_eq!(entry.name_bytes(), &[0x61, 0xff]);
    assert_eq!(entry.value(), Some("v"));
}

#[test]
fn conventional_places() {
    assert_eq!(Config::find_global(Some("/home/u")), Ok("/home/u/.gitconfig".to_string()));
    assert_eq!(Config::find_global(None), Err(Error::NotFound));
    assert_eq!(
        Config::find_xdg(Some("/cfg"), Some("/home/u")),
        Ok("/cfg/git/config".to_string())
    );
    assert_eq!(
        Config::find_xdg(None, Some("/home/u")),
        Ok("/home/u/.config/git/config".to_string())
    );
    assert_eq!(Config::find_xdg(None, None), Err(Error::NotFound));
    assert_eq!(Config::find_system(), Ok("/etc/gitconfig".to_string()));
}

#[test]
fn copies_are_equal_and_independent() {
    let source = Source::new(Some("p".to_string()), ConfigLevel::App, true, table(&[("a.b", "1")]));
    let copy = source.clone();
    assert_eq!(copy.entries().value_at(0), b"1");
    assert_eq!(copy.level(), ConfigLevel::App);
    assert!(copy.force());
    assert!(copy.is_from(&Some("p".to_string()), ConfigLevel::App));
    assert!(!copy.is_from(&None, ConfigLevel::App));
    assert!(!copy.is_from(&Some("p".to_string()), ConfigLevel::Local));

    let mut cfg = Config::new().unwrap();
    assert!(cfg.add_source(source));
    let before = cfg.clone();
    cfg.set_i32("a.b", 2).unwrap();
    assert_eq!(cfg.get_i32("a.b"), Ok(2));
    assert_eq!(before.get_i32("a.b"), Ok(1));
    assert_eq!(before.len(), 1);
    assert_eq!(before.source(0).path().as_deref(), Some("p"));

    let snap = before.clone().snapshot().unwrap();
    let again = snap.clone();
    assert_eq!(again.get_i32("a.b"), Ok(1));
}

#[test]
fn collect_runs_a_pass_to_its_end() {
    let mut cfg = Config::new().unwrap();
    cfg.add_file("g", ConfigLevel::Global, false, Some(table(&[("a.b", "1"), ("c.d", "x")]))).unwrap();
    cfg.add_file("l", ConfigLevel::Local, false, Some(table(&[("c.e", "2")]))).unwrap();
    let all = cfg.entries(None).unwrap().collect();
    let names: Vec<&[u8]> = all.iter().map(|e| e.name_bytes()).collect();
    assert_eq!(names, vec![&b"c.e"[..], &b"a.b"[..], &b"c.d"[..]]);
    let mut pass = cfg.entries(Some("c.*")).unwrap();
    assert_eq!(pass.next().unwrap().name(), Some("c.e"));
    let rest = pass.collect();
    assert_eq!(rest.len(), 1);
    assert_eq!(rest[0].name(), Some("c.d"));
    assert_eq!(rest[0].level(), ConfigLevel::Global);
    assert!(cfg.entries(Some("zzz")).unwrap().collect().is_empty());
}

#[test]
fn error_messages_differ() {
    let all = [
        Error::NotFound,
        Error::TypeMismatch,
        Error::InvalidEncoding,
        Error::IoError,
        Error::NoWritableSource,
    ];
    for (i, a) in all.iter().enumerate() {
        assert!(!a.message().is_empty());
        for b in all.iter().skip(i + 1) {
            assert_ne!(a.message(), b.message());
        }
    }
    assert_eq!(Error::InvalidEncoding.message(), "configuration value is not valid utf8");
}
