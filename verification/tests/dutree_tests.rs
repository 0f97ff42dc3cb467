use dutree::bar::fmt_bar;
use dutree::color::{color_from_path, dict_get, DictEntry};
use dutree::entry::{get_bytes, Entry, FsNode, PathMeta};
use dutree::size_fmt::fmt_size_str;
use dutree::{parse_aggr, run, Config, XResult};

fn file_meta(extension: Option<&str>) -> PathMeta {
    PathMeta {
        is_symlink: false,
        target_exists: false,
        has_metadata: true,
        mode: 0o644,
        is_dir: false,
        is_file: true,
        extension: extension.map(|e| e.to_string()),
    }
}

fn dir_meta() -> PathMeta {
    PathMeta {
        is_symlink: false,
        target_exists: false,
        has_metadata: true,
        mode: 0o755,
        is_dir: true,
        is_file: false,
        extension: None,
    }
}

fn file_node(name: &str, bytes: u64) -> FsNode {
    FsNode { name: name.to_string(), bytes, meta: file_meta(None), children: None }
}

fn dir_node(name: &str, bytes: u64, children: Vec<FsNode>) -> FsNode {
    FsNode { name: name.to_string(), bytes, meta: dir_meta(), children: Some(children) }
}

fn plain_config() -> Config {
    Config {
        color_dict: Vec::new(),
        depth: 0,
        depth_flag: false,
        bytes_flag: false,
        usage_flag: false,
        hiddn_flag: false,
        ascii_flag: true,
        aggr: 0,
        exclude: Vec::new(),
    }
}

#[test]
fn parse_ls_colors() {
    let mut dict = Vec::new();
    dict.push(DictEntry { key: "di".to_string(), val: "dircode".to_string() });
    dict.push(DictEntry { key: "li".to_string(), val: "linkcod".to_string() });
    dict.push(DictEntry { key: "*.mp3".to_string(), val: "mp3code".to_string() });
    dict.push(DictEntry { key: "*.tar".to_string(), val: "tarcode".to_string() });
    assert_eq!("dircode", color_from_path(&dir_meta(), &dict).unwrap());
    assert_eq!("mp3code", color_from_path(&file_meta(Some("mp3")), &dict).unwrap());
    assert_eq!("tarcode", color_from_path(&file_meta(Some("tar")), &dict).unwrap());
}

#[test]
fn color_precedence() {
    let mut dict = Vec::new();
    dict.push(DictEntry { key: "ln".to_string(), val: "lncode".to_string() });
    dict.push(DictEntry { key: "or".to_string(), val: "orcode".to_string() });
    dict.push(DictEntry { key: "ex".to_string(), val: "excode".to_string() });
    dict.push(DictEntry { key: "fi".to_string(), val: "ficode".to_string() });
    let live_link = PathMeta {
        is_symlink: true,
        target_exists: true,
        has_metadata: true,
        mode: 0o777,
        is_dir: false,
        is_file: false,
        extension: None,
    };
    assert_eq!("lncode", color_from_path(&live_link, &dict).unwrap());
    let orphan = PathMeta { target_exists: false, ..live_link };
    assert_eq!("orcode", color_from_path(&orphan, &dict).unwrap());
    let exe = PathMeta {
        is_symlink: false,
        target_exists: false,
        has_metadata: true,
        mode: 0o755,
        is_dir: false,
        is_file: true,
        extension: None,
    };
    assert_eq!("excode", color_from_path(&exe, &dict).unwrap());
    assert_eq!("ficode", color_from_path(&file_meta(None), &dict).unwrap());
    let empty: Vec<DictEntry> = Vec::new();
    assert_eq!(None, color_from_path(&file_meta(None), &empty));
}

#[test]
fn dict_get_first_match() {
    let mut dict = Vec::new();
    dict.push(DictEntry { key: "di".to_string(), val: "first".to_string() });
    dict.push(DictEntry { key: "di".to_string(), val: "second".to_string() });
    assert_eq!(Some("first".to_string()), dict_get(&dict, "di"));
    assert_eq!(None, dict_get(&dict, "ln"));
}

#[test]
fn size_format_boundaries() {
    assert_eq!("1023.00 B", fmt_size_str(1023, false));
    assert_eq!("1.00 KiB", fmt_size_str(1024, false));
    assert_eq!("1024.00 KiB", fmt_size_str(1024 * 1024 - 1, false));
    assert_eq!("1.00 MiB", fmt_size_str(1024 * 1024, false));
    assert_eq!("1.00 GiB", fmt_size_str(1024 * 1024 * 1024, false));
    assert_eq!("1.00 TiB", fmt_size_str(1024u64.pow(4), false));
    assert_eq!("1.50 KiB", fmt_size_str(1536, false));
    assert_eq!("2048.00 B", fmt_size_str(2048, true));
    assert_eq!("0.00 B", fmt_size_str(0, false));
}

#[test]
fn bar_half_filled() {
    let bar = fmt_bar(&vec![100, 50], 17, false);
    assert_eq!("│     █████│  50%", bar);
    let bar_ascii = fmt_bar(&vec![100, 50], 17, true);
    assert_eq!("│     #####│  50%", bar_ascii);
}

#[test]
fn bar_empty_on_zero() {
    let bar = fmt_bar(&vec![100, 0], 17, true);
    assert_eq!("│          │   0%", bar);
}

#[test]
fn bar_zero_parent_no_panic() {
    let bar = fmt_bar(&vec![0, 0], 17, true);
    assert_eq!("│          │   0%", bar);
}

#[test]
fn exclusion_and_hidden() {
    let root = dir_node(
        "root",
        0,
        vec![file_node("a", 10), file_node("b", 20), file_node(".git", 30)],
    );
    let cfg = Config {
        hiddn_flag: true,
        exclude: vec!["b".to_string()],
        ..plain_config()
    };
    let entry = Entry::new(&root, &cfg, 1);
    let children = entry.entries.as_ref().unwrap();
    assert_eq!(1, children.len());
    assert_eq!("a", children[0].name);
    assert_eq!(10, entry.bytes);
}

#[test]
fn aggregation_scenario() {
    let root = dir_node(
        "root",
        0,
        vec![file_node("big", 2000), file_node("s1", 10), file_node("s2", 10)],
    );
    let cfg = Config { aggr: 1024, ..plain_config() };
    let entry = Entry::new(&root, &cfg, 1);
    assert_eq!(2020, entry.bytes);
    let children = entry.entries.as_ref().unwrap();
    assert_eq!(2, children.len());
    assert_eq!("big", children[0].name);
    assert_eq!(2000, children[0].bytes);
    assert!(!children[0].last);
    assert_eq!("<aggregated>", children[1].name);
    assert_eq!(20, children[1].bytes);
    assert!(children[1].last);
    assert!(children[1].entries.is_none());
}

#[test]
fn children_sorted_descending() {
    let root = dir_node(
        "root",
        0,
        vec![file_node("small", 5), file_node("huge", 100), file_node("mid", 50)],
    );
    let entry = Entry::new(&root, &plain_config(), 1);
    let children = entry.entries.as_ref().unwrap();
    let names: Vec<&str> = children.iter().map(|c| c.name.as_str()).collect();
    assert_eq!(vec!["huge", "mid", "small"], names);
    assert!(children[2].last);
    assert!(!children[0].last && !children[1].last);
}

#[test]
fn stable_sort_keeps_tie_order() {
    let root = dir_node(
        "root",
        0,
        vec![file_node("first", 7), file_node("second", 7), file_node("third", 7)],
    );
    let entry = Entry::new(&root, &plain_config(), 1);
    let children = entry.entries.as_ref().unwrap();
    let names: Vec<&str> = children.iter().map(|c| c.name.as_str()).collect();
    assert_eq!(vec!["first", "second", "third"], names);
}

#[test]
fn depth_limit_measures_fully() {
    let inner = dir_node("inner", 0, vec![file_node("deep", 500)]);
    let root = dir_node("root", 0, vec![inner]);
    let cfg = Config { depth_flag: true, depth: 1, ..plain_config() };
    let entry = Entry::new(&root, &cfg, cfg.depth + 1);
    let children = entry.entries.as_ref().unwrap();
    assert_eq!(1, children.len());
    assert!(children[0].entries.is_none());
    assert_eq!(500, children[0].bytes);
    assert_eq!(500, entry.bytes);
}

#[test]
fn get_bytes_sums_whole_subtree() {
    let inner = dir_node("inner", 3, vec![file_node("deep", 500)]);
    let root = dir_node("root", 1, vec![inner, file_node("top", 20)]);
    assert_eq!(524, get_bytes(&root));
}

#[test]
fn parse_aggr_values() {
    assert!(matches!(parse_aggr("10"), XResult::XOk(10)));
    assert!(matches!(parse_aggr("1M"), XResult::XOk(1048576)));
    assert!(matches!(parse_aggr("2k"), XResult::XOk(2048)));
    assert!(matches!(parse_aggr("3G"), XResult::XOk(3221225472)));
    assert!(matches!(parse_aggr("1T"), XResult::XOk(1099511627776)));
    assert!(matches!(parse_aggr("10%"), XResult::XOk(10)));
    assert!(matches!(parse_aggr("7X"), XResult::XOk(7)));
}

#[test]
fn parse_aggr_errors() {
    match parse_aggr("abc") {
        XResult::XErr(m) => assert_eq!("invalid argument 'abc'", m),
        _ => panic!("expected an error"),
    }
    assert!(matches!(parse_aggr(""), XResult::XErr(_)));
    assert!(matches!(parse_aggr("K"), XResult::XErr(_)));
    assert!(matches!(parse_aggr("1a2"), XResult::XErr(_)));
    assert!(matches!(parse_aggr("99999999999999999999999"), XResult::XErr(_)));
    assert!(matches!(parse_aggr("99999999999999999999M"), XResult::XErr(_)));
}

#[test]
fn run_single_root() {
    let root = dir_node("root", 0, vec![file_node("a", 100), file_node("b", 50)]);
    let cfg = plain_config();
    let lines = run(&cfg, &vec![root], 80);
    assert_eq!(3, lines.len());
    assert_eq!("[ root 150.00 B ]", lines[0]);
    assert!(lines[1].starts_with("├─ a"));
    assert!(lines[2].starts_with("└─ b"));
    assert!(lines[1].ends_with("100.00 B"));
}

#[test]
fn run_collection_of_roots() {
    let r1 = file_node("r1", 5);
    let r2 = file_node("r2", 10);
    let cfg = plain_config();
    let lines = run(&cfg, &vec![r1, r2], 80);
    assert_eq!(3, lines.len());
    assert_eq!("[ <collection> 15.00 B ]", lines[0]);
    assert!(lines[1].starts_with("├─ r2"));
    assert!(lines[2].starts_with("└─ r1"));
}

#[test]
fn narrow_terminal_skips_deep_names() {
    let inner = dir_node("inner", 0, vec![file_node("deep", 5)]);
    let root = dir_node("root", 0, vec![inner]);
    let cfg = plain_config();
    let lines = run(&cfg, &vec![root], 25);
    assert_eq!("[ root 5.00 B ]", lines[0]);
    for line in &lines[1..] {
        assert!(!line.contains("deep"));
    }
}
