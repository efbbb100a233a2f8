use usysconf::depgraph::{dependency_order, GraphError};
use usysconf::engine::{handler_failures, launched_count, process_trigger, select_outdated, HandlerFailure, HandlerOutcome};
use usysconf::format::{read_u64, trimmed_length, DbError};
use usysconf::order::insert_text;
use usysconf::paths::{diff, file_set, insert_file, File};
use usysconf::pathtimes::{PathTime, PathTimes};
use usysconf::store::{is_stale, PathDb};
use usysconf::trigger::{compile_handlers, matches_path, select_triggers, substitute, EnvRule, OsEnv, PathHandler, Trigger};

fn f(path: &str, mtime: u64) -> File {
    File::new(path.to_string(), mtime)
}

fn trigger(name: &str, deps: &[&str]) -> Trigger {
    Trigger {
        name: name.to_string(),
        patterns: vec![],
        deps: deps.iter().map(|d| d.to_string()).collect(),
        concurrent: false,
        rule: EnvRule::ForceIn(vec![]),
    }
}

fn fonts_trigger() -> Trigger {
    Trigger {
        name: "fonts".to_string(),
        patterns: vec![PathHandler {
            pattern: "/usr/share/fonts/*".to_string(),
            command: "fc-cache $(path)".to_string(),
        }],
        deps: vec![],
        concurrent: false,
        rule: EnvRule::ForceIn(vec![]),
    }
}

fn lines(text: &str) -> Vec<String> {
    text.split_inclusive('\n').map(|l| l.to_string()).collect()
}

#[test]
fn diff_classifies_each_path_once() {
    let old = vec![f("/a", 1), f("/b", 2), f("/c", 3)];
    let new = vec![f("/a", 1), f("/b", 5), f("/d", 7)];
    let d = diff(old, new);
    let got: Vec<(String, u64, bool, bool)> = d
        .iter()
        .map(|r| (r.value().path.clone(), r.value().mtime, r.is_modified(), r.is_removed()))
        .collect();
    assert_eq!(
        got,
        vec![
            ("/a".to_string(), 1, false, false),
            ("/b".to_string(), 5, true, false),
            ("/d".to_string(), 7, true, false),
            ("/c".to_string(), 3, true, true),
        ]
    );
}

#[test]
fn diff_of_two_empty_sets_is_empty() {
    assert!(diff(vec![], vec![]).is_empty());
}

#[test]
fn diff_removed_paths_come_in_ascending_order() {
    let d = diff(vec![f("/x", 1), f("/y", 2)], vec![]);
    assert_eq!(d.len(), 2);
    assert_eq!(d[0].value().path, "/x");
    assert_eq!(d[1].value().path, "/y");
    assert!(d.iter().all(|r| r.is_modified() && r.is_removed()));
}

#[test]
fn file_set_orders_and_keeps_first() {
    let s = file_set(vec![f("/b", 1), f("/a", 2), f("/b", 3)]);
    assert_eq!(s.len(), 2);
    assert_eq!((s[0].path.as_str(), s[0].mtime), ("/a", 2));
    assert_eq!((s[1].path.as_str(), s[1].mtime), ("/b", 1));
}

#[test]
fn insert_file_keeps_existing_path() {
    let mut s = vec![f("/a", 1)];
    insert_file(&mut s, f("/a", 9));
    insert_file(&mut s, f("/0", 4));
    assert_eq!(s.len(), 2);
    assert_eq!(s[0].path, "/0");
    assert_eq!(s[1].mtime, 1);
}

#[test]
fn insert_text_sorts_and_dedups() {
    let mut s: Vec<String> = vec![];
    for t in ["b", "a", "b", "c"] {
        insert_text(&mut s, t.to_string());
    }
    assert_eq!(s, vec!["a", "b", "c"]);
}

#[test]
fn first_run_then_unchanged_run() {
    let mut db = PathDb::new();
    let t = fonts_trigger();
    let found = vec![f("/usr/share/fonts/a.ttf", 100)];
    let d = db.extract_diff(&"fonts".to_string(), found.clone());
    assert_eq!(d.len(), 1);
    assert!(d[0].is_modified());
    assert!(!d[0].is_removed());
    db.insert("fonts".to_string(), found.clone());

    let mut db = PathDb::new();
    let handlers = process_trigger(&mut db, &t, found.clone(), false);
    assert_eq!(handlers.len(), 1);
    assert_eq!(handlers[0].command, "fc-cache /usr/share/fonts/a.ttf");
    let text = db.save();
    let mut db = PathDb::open(&lines(&text)).unwrap();
    let handlers = process_trigger(&mut db, &t, found, false);
    assert!(handlers.is_empty());
}

#[test]
fn force_selects_unchanged_paths() {
    let mut db = PathDb::new();
    let t = fonts_trigger();
    let found = vec![f("/usr/share/fonts/a.ttf", 100)];
    process_trigger(&mut db, &t, found.clone(), false);
    let handlers = process_trigger(&mut db, &t, found, true);
    assert_eq!(handlers.len(), 1);
}

#[test]
fn removed_path_is_outdated_and_forgotten() {
    let mut db = PathDb::new();
    let t = fonts_trigger();
    process_trigger(&mut db, &t, vec![f("/usr/share/fonts/a.ttf", 100)], false);
    let handlers = process_trigger(&mut db, &t, vec![], false);
    assert_eq!(handlers.len(), 1);
    assert_eq!(db.save(), "");
}

#[test]
fn select_outdated_uses_modified_flag() {
    let d = diff(vec![f("/a", 1), f("/b", 1)], vec![f("/a", 1), f("/b", 2)]);
    assert_eq!(select_outdated(&d, false), vec!["/b".to_string()]);
    assert_eq!(select_outdated(&d, true), vec!["/a".to_string(), "/b".to_string()]);
}

#[test]
fn concurrent_handlers_one_fails() {
    let outcomes = vec![HandlerOutcome::Exited(0), HandlerOutcome::Exited(1)];
    assert_eq!(launched_count(&outcomes), 2);
    assert_eq!(handler_failures(&outcomes), vec![HandlerFailure::ExitedWith(1, 1)]);
}

#[test]
fn launch_failure_is_reported_apart() {
    let outcomes = vec![HandlerOutcome::NotLaunched, HandlerOutcome::Killed, HandlerOutcome::Exited(0)];
    assert_eq!(launched_count(&outcomes), 2);
    assert_eq!(
        handler_failures(&outcomes),
        vec![HandlerFailure::NotLaunched(0), HandlerFailure::Killed(1)]
    );
    assert!(handler_failures(&vec![]).is_empty());
}

#[test]
fn inhibited_in_container() {
    let mut t = fonts_trigger();
    t.rule = EnvRule::SkipIn(vec![OsEnv::Container]);
    assert!(t.is_inhibited(Some(OsEnv::Container)));
    assert!(!t.is_inhibited(Some(OsEnv::Live)));
    assert!(!t.is_inhibited(None));
    t.rule = EnvRule::ForceIn(vec![OsEnv::Live]);
    assert!(t.is_inhibited(Some(OsEnv::Container)));
    assert!(!t.is_inhibited(Some(OsEnv::Live)));
    assert!(!t.is_inhibited(None));
}

#[test]
fn environment_from_probe() {
    assert_eq!(OsEnv::from_probe(1, 2, 1, 3, true), Some(OsEnv::Container));
    assert_eq!(OsEnv::from_probe(1, 2, 4, 2, false), Some(OsEnv::Container));
    assert_eq!(OsEnv::from_probe(1, 2, 1, 2, true), Some(OsEnv::Live));
    assert_eq!(OsEnv::from_probe(1, 2, 1, 2, false), None);
}

#[test]
fn dependencies_come_first() {
    let ts = vec![trigger("a", &["b", "c"]), trigger("b", &["c"]), trigger("c", &[]), trigger("d", &[])];
    assert_eq!(dependency_order(&ts), Ok(vec![2, 1, 0, 3]));
}

#[test]
fn mutual_dependency_is_cyclic() {
    let ts = vec![trigger("a", &["b"]), trigger("b", &["a"])];
    assert_eq!(dependency_order(&ts), Err(GraphError::CyclicDependency));
    let ts = vec![trigger("a", &["a"])];
    assert_eq!(dependency_order(&ts), Err(GraphError::CyclicDependency));
}

#[test]
fn unknown_dependency_is_named() {
    let ts = vec![trigger("a", &["zz"])];
    assert_eq!(dependency_order(&ts), Err(GraphError::UnknownDependency("zz".to_string())));
    assert_eq!(dependency_order(&vec![]), Ok(vec![]));
}

#[test]
fn substitute_fills_every_placeholder() {
    assert_eq!(substitute("cmd $(path) --x=$(path)", "/p"), "cmd /p --x=/p");
    assert_eq!(substitute("$(pat) $(path", "/p"), "$(pat) $(path");
    assert_eq!(substitute("", "/p"), "");
}

#[test]
fn glob_matching_through_the_library() {
    assert!(matches_path(&"/usr/share/fonts/*".to_string(), &"/usr/share/fonts/a.ttf".to_string()));
    assert!(!matches_path(&"/usr/share/fonts/*.otf".to_string(), &"/usr/share/fonts/a.ttf".to_string()));
    assert!(!matches_path(&"[".to_string(), &"[".to_string()));
}

#[test]
fn compiled_handlers_are_deduplicated_and_ordered() {
    let t = Trigger {
        name: "icons".to_string(),
        patterns: vec![
            PathHandler { pattern: "/icons/*".to_string(), command: "update $(path)".to_string() },
            PathHandler { pattern: "/icons/b*".to_string(), command: "update $(path)".to_string() },
            PathHandler { pattern: "/icons/*".to_string(), command: "all".to_string() },
        ],
        deps: vec![],
        concurrent: true,
        rule: EnvRule::ForceIn(vec![]),
    };
    let hs = compile_handlers(&t, &vec!["/icons/b".to_string(), "/icons/a".to_string(), "/other".to_string()]);
    let cmds: Vec<&str> = hs.iter().map(|h| h.command.as_str()).collect();
    assert_eq!(cmds, vec!["all", "update /icons/a", "update /icons/b"]);
    assert!(compile_handlers(&t, &vec![]).is_empty());
}

#[test]
fn store_text_round_trip() {
    let mut db = PathDb::new();
    db.insert("fonts".to_string(), vec![f("/a:b", 1), f("/c", 18446744073709551615)]);
    db.insert("empty".to_string(), vec![]);
    db.insert("man".to_string(), vec![f("/m", 0)]);
    let text = db.save();
    assert_eq!(text, "fonts\n\t/a:b:1\n\t/c:18446744073709551615\nman\n\t/m:0\n");
    let back = PathDb::open(&lines("fonts\n\t/b:1\n\t/a:2\nman\n\t/m:0\n")).unwrap();
    assert_eq!(back.save(), "fonts\n\t/a:2\n\t/b:1\nman\n\t/m:0\n");
    assert_eq!(back.find_mtime(&"/m".to_string()), Some(0));
    assert_eq!(back.find_mtime(&"/zz".to_string()), None);
    assert_eq!(back.files().len(), 3);
}

#[test]
fn store_text_errors() {
    assert_eq!(PathDb::open(&lines("\t/a:1\n")).unwrap_err(), DbError::MissingTrigger);
    assert_eq!(PathDb::open(&lines("t\n\t/a1\n")).unwrap_err(), DbError::MissingColon);
    assert_eq!(PathDb::open(&lines("t\n\t/a:x\n")).unwrap_err(), DbError::InvalidMtime);
    assert!(PathDb::open(&lines("")).unwrap().save().is_empty());
    let db = PathDb::open(&lines("t  \r\n\t\t/a:+7  \n\t/a:9\nt\n")).unwrap();
    assert_eq!(db.save(), "t\n\t/a:7\n");
}

#[test]
fn file_line_parts() {
    let g = File::deserialize("/x/y:42").unwrap();
    assert_eq!((g.path.as_str(), g.mtime), ("/x/y", 42));
    let g = File::deserialize("\t/x:5").unwrap();
    assert_eq!((g.path.as_str(), g.mtime), ("\t/x", 5));
    assert_eq!(File::deserialize("/x:5\n").unwrap_err(), DbError::InvalidMtime);
    assert_eq!(File::deserialize("/a:b:3").unwrap_err(), DbError::InvalidMtime);
    assert_eq!(File::deserialize("\t/x").unwrap_err(), DbError::MissingColon);
    let mut buf = String::from(">");
    f("/p", 120).serialize(&mut buf);
    assert_eq!(buf, ">/p:120");
    let mut buf = String::new();
    f("\tx", 5).serialize(&mut buf);
    let back = File::deserialize(&buf).unwrap();
    assert_eq!((back.path.as_str(), back.mtime), ("\tx", 5));
    assert_eq!(trimmed_length("ab \t\n"), 2);
}

#[test]
fn decimal_reading() {
    assert_eq!(read_u64("18446744073709551615"), Some(u64::MAX));
    assert_eq!(read_u64("18446744073709551616"), None);
    assert_eq!(read_u64("+5"), Some(5));
    assert_eq!(read_u64("+"), None);
    assert_eq!(read_u64(""), None);
    assert_eq!(read_u64("-1"), None);
    assert_eq!(read_u64("99999999999999999999x"), None);
}

#[test]
fn stale_paths() {
    assert!(is_stale(None, 5));
    assert!(is_stale(Some(4), 5));
    assert!(!is_stale(Some(5), 5));
}

#[test]
fn path_times_update_and_get() {
    let mut pt = PathTimes::empty();
    pt.update("/a".to_string(), 5);
    pt.update("/a".to_string(), -3);
    pt.update("/b".to_string(), 1);
    assert_eq!(pt.get(&"/a".to_string()), Some(-3));
    assert_eq!(pt.get(&"/c".to_string()), None);
    assert_eq!(pt.entries().len(), 2);
    let back = PathTimes::from_entries(vec![PathTime { path: "/x".to_string(), mtime: 1 }, PathTime { path: "/x".to_string(), mtime: 2 }]);
    assert_eq!(back.get(&"/x".to_string()), Some(2));
}

#[test]
fn path_times_binary_form() {
    let mut map = std::collections::HashMap::new();
    map.insert("/a".to_string(), 7i64);
    let bytes = bincode::serialize(&map).unwrap();
    let pt = PathTimes::new(&bytes).unwrap();
    assert_eq!(pt.get(&"/a".to_string()), Some(7));
    let mut pt = pt;
    pt.update("/b".to_string(), -2);
    let saved = pt.save();
    let back: std::collections::HashMap<String, i64> = bincode::deserialize(&saved).unwrap();
    assert_eq!(back.len(), 2);
    assert_eq!(back["/b"], -2);
    assert!(PathTimes::new(&[1, 2]).is_none());
}

#[test]
fn files_lists_each_stored_file_per_trigger() {
    let mut db = PathDb::new();
    db.insert("one".to_string(), vec![f("/a", 1)]);
    db.insert("two".to_string(), vec![f("/a", 1), f("/b", 2)]);
    let all: Vec<(String, u64)> = db.files().into_iter().map(|x| (x.path, x.mtime)).collect();
    assert_eq!(all, vec![("/a".to_string(), 1), ("/a".to_string(), 1), ("/b".to_string(), 2)]);
}

#[test]
fn trigger_selection_and_path_handling() {
    let mut skipped = fonts_trigger();
    skipped.name = "skipped".to_string();
    skipped.rule = EnvRule::SkipIn(vec![OsEnv::Container]);
    let mut forced = fonts_trigger();
    forced.rule = EnvRule::ForceIn(vec![OsEnv::Container]);
    let ts = vec![forced, skipped, trigger("man", &[])];
    assert_eq!(select_triggers(&ts, &vec![], None), vec![0, 1, 2]);
    assert_eq!(select_triggers(&ts, &vec![], Some(OsEnv::Container)), vec![0]);
    assert_eq!(select_triggers(&ts, &vec![], Some(OsEnv::Live)), vec![1]);
    assert_eq!(select_triggers(&ts, &vec!["man".to_string(), "skipped".to_string()], None), vec![1, 2]);
    assert!(ts[0].handles(&"/usr/share/fonts/a.ttf".to_string()));
    assert!(!ts[0].handles(&"/usr/lib/a.so".to_string()));
    assert!(!ts[2].handles(&"/x".to_string()));
}
