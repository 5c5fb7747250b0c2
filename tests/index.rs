use file_index::entry::{extension, WalkEntry};
use file_index::index::{parse_query, FileCache, Query};
use file_index::persist::{decode, encode, needs_rebuild};

fn file(path: &str, name: &str) -> WalkEntry {
    WalkEntry { path: path.to_string(), name: name.to_string(), is_file: true }
}

fn dir(path: &str, name: &str) -> WalkEntry {
    WalkEntry { path: path.to_string(), name: name.to_string(), is_file: false }
}

fn strings(v: &[&str]) -> Vec<String> {
    v.iter().map(|s| s.to_string()).collect()
}

fn sample() -> Vec<WalkEntry> {
    vec![
        dir("/a", "a"),
        file("/a/report.pdf", "report.pdf"),
        dir("/a/b", "b"),
        file("/a/b/report.pdf", "report.pdf"),
        file("/a/notes.txt", "notes.txt"),
    ]
}

fn sorted(v: &Vec<String>) -> Vec<String> {
    let mut w = v.clone();
    w.sort();
    w
}

#[test]
fn scenario_shared_names_and_extensions() {
    let c = FileCache::build(&sample());
    assert_eq!(c.lookup_by_name("report.pdf"), Some(&strings(&["/a/report.pdf", "/a/b/report.pdf"])));
    assert_eq!(c.lookup_by_name("notes.txt"), Some(&strings(&["/a/notes.txt"])));
    assert_eq!(c.lookup_by_extension("pdf"), Some(&strings(&["/a/report.pdf", "/a/b/report.pdf"])));
    assert_eq!(c.lookup_by_extension("txt"), Some(&strings(&["/a/notes.txt"])));
}

#[test]
fn directories_are_not_indexed() {
    let c = FileCache::build(&sample());
    assert_eq!(c.lookup_by_name("a"), None);
    assert_eq!(c.lookup_by_name("b"), None);
}

#[test]
fn scenario_file_without_extension() {
    let c = FileCache::build(&vec![file("/a/Makefile", "Makefile"), file("/a/x.rs", "x.rs")]);
    assert_eq!(c.lookup_by_name("Makefile"), Some(&strings(&["/a/Makefile"])));
    assert_eq!(c.lookup_by_extension("Makefile"), None);
    assert_eq!(c.lookup_by_extension(""), None);
    assert_eq!(c.lookup_by_extension("rs"), Some(&strings(&["/a/x.rs"])));
    for ext in c.extension_records() {
        assert!(!ext.1.contains(&"/a/Makefile".to_string()));
    }
}

#[test]
fn scenario_empty_root_round_trips() {
    let c = FileCache::build(&vec![]);
    assert!(c.is_empty());
    assert!(c.name_records().is_empty());
    assert!(c.extension_records().is_empty());
    let text = encode(&c);
    let back = decode(&text);
    assert!(back.is_some());
    let back = back.unwrap();
    assert!(back.is_empty());
    assert!(back.extension_records().is_empty());
}

#[test]
fn save_then_load_keeps_the_index() {
    let c = FileCache::build(&sample());
    let text = encode(&c);
    let back = decode(&text).unwrap();
    assert_eq!(back.name_records(), c.name_records());
    assert_eq!(back.extension_records(), c.extension_records());
    assert_eq!(back.lookup_by_name("report.pdf"), Some(&strings(&["/a/report.pdf", "/a/b/report.pdf"])));
}

#[test]
fn building_twice_gives_the_same_index() {
    let a = FileCache::build(&sample());
    let b = FileCache::build(&sample());
    assert_eq!(a.name_records(), b.name_records());
    assert_eq!(a.extension_records(), b.extension_records());
}

#[test]
fn every_file_is_covered() {
    let es = sample();
    let c = FileCache::build(&es);
    for e in es.iter().filter(|e| e.is_file) {
        assert!(c.lookup_by_name(&e.name).unwrap().contains(&e.path));
        let ext = extension(&e.name).unwrap();
        assert!(c.lookup_by_extension(&ext).unwrap().contains(&e.path));
    }
}

#[test]
fn no_path_under_a_foreign_key() {
    let c = FileCache::build(&sample());
    for (name, paths) in c.name_records() {
        for p in paths {
            assert!(p.ends_with(&format!("/{}", name)));
        }
    }
    for (ext, paths) in c.extension_records() {
        for p in paths {
            assert!(p.ends_with(&format!(".{}", ext)));
        }
    }
}

#[test]
fn corrupt_text_loads_as_absent() {
    assert!(decode("").is_none());
    assert!(decode("{").is_none());
    assert!(decode("not json at all").is_none());
    assert!(decode("{\"file_hashmap\": {}}").is_none());
    assert!(decode("[[[\"a\", [1, 2]]], []]").is_none());
}

#[test]
fn duplicate_or_empty_buckets_load_as_absent() {
    assert!(decode("[[[\"a\", [\"/x/a\"]], [\"a\", [\"/y/a\"]]], []]").is_none());
    assert!(decode("[[[\"a\", []]], []]").is_none());
    assert!(decode("[[], [[\"rs\", [\"/x.rs\"]], [\"rs\", [\"/y.rs\"]]]]").is_none());
    let ok = decode("[[[\"a\", [\"/x/a\", \"/y/a\"]]], []]").unwrap();
    assert_eq!(ok.lookup_by_name("a"), Some(&strings(&["/x/a", "/y/a"])));
}

#[test]
fn encode_writes_paths() {
    let c = FileCache::build(&vec![file("/q/z.md", "z.md")]);
    let text = encode(&c);
    assert!(text.contains("/q/z.md"));
    assert!(text.contains("\"md\""));
    assert_ne!(text, "");
}

#[test]
fn extension_rule() {
    assert_eq!(extension("report.pdf"), Some("pdf".to_string()));
    assert_eq!(extension("archive.tar.gz"), Some("gz".to_string()));
    assert_eq!(extension("Makefile"), None);
    assert_eq!(extension("trailing."), None);
    assert_eq!(extension(".bashrc"), Some("bashrc".to_string()));
    assert_eq!(extension(""), None);
    assert_eq!(extension("naïve.tëxt"), Some("tëxt".to_string()));
}

#[test]
fn update_appends_in_walk_order() {
    let mut c = FileCache::new();
    c.update_cache(&vec![file("/1/x.c", "x.c")]);
    c.update_cache(&vec![file("/2/x.c", "x.c"), file("/2/y.c", "y.c")]);
    assert_eq!(c.lookup_by_name("x.c"), Some(&strings(&["/1/x.c", "/2/x.c"])));
    assert_eq!(c.lookup_by_extension("c"), Some(&strings(&["/1/x.c", "/2/x.c", "/2/y.c"])));
    assert_eq!(sorted(c.lookup_by_extension("c").unwrap()), strings(&["/1/x.c", "/2/x.c", "/2/y.c"]));
}

#[test]
fn lookups_match_exactly() {
    let c = FileCache::build(&sample());
    assert_eq!(c.lookup_by_name("Report.pdf"), None);
    assert_eq!(c.lookup_by_name("report"), None);
    assert_eq!(c.lookup_by_extension(".pdf"), None);
    assert_eq!(c.lookup_by_extension("PDF"), None);
}

#[test]
fn queries_and_search() {
    let c = FileCache::build(&sample());
    match parse_query(".pdf") {
        Query::Extension(e) => assert_eq!(e, "pdf"),
        Query::Name(_) => panic!("expected an extension query"),
    }
    match parse_query("notes.txt") {
        Query::Name(n) => assert_eq!(n, "notes.txt"),
        Query::Extension(_) => panic!("expected a name query"),
    }
    assert_eq!(c.search(&parse_query(".txt")), Some(&strings(&["/a/notes.txt"])));
    assert_eq!(c.search(&parse_query("report.pdf")).map(|v| v.len()), Some(2));
    assert_eq!(c.search(&parse_query(".md")), None);
    assert_eq!(c.search(&parse_query("missing")), None);
    assert_eq!(c.search(&parse_query("")), None);
}

#[test]
fn rebuild_only_when_absent_or_empty() {
    assert!(needs_rebuild(&None));
    assert!(needs_rebuild(&Some(FileCache::new())));
    assert!(!needs_rebuild(&Some(FileCache::build(&sample()))));
}

#[test]
fn from_records_checks_buckets() {
    let names = vec![("a".to_string(), strings(&["/a"]))];
    assert!(FileCache::from_records(names.clone(), vec![]).is_some());
    let dup = vec![("a".to_string(), strings(&["/a"])), ("a".to_string(), strings(&["/b/a"]))];
    assert!(FileCache::from_records(dup, vec![]).is_none());
    let empty = vec![("a".to_string(), vec![])];
    assert!(FileCache::from_records(names, empty).is_none());
}

#[test]
fn round_trip_keeps_escaped_characters() {
    let c = FileCache::build(&vec![
        file("C:\\dir \"q\"\\a\tb.txt", "a\tb.txt"),
        file("/ü/ñ\n.md", "ñ\n.md"),
    ]);
    let back = decode(&encode(&c)).unwrap();
    assert_eq!(back.name_records(), c.name_records());
    assert_eq!(back.extension_records(), c.extension_records());
    assert_eq!(back.lookup_by_extension("txt"), Some(&strings(&["C:\\dir \"q\"\\a\tb.txt"])));
}
