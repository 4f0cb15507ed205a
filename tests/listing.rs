use rtree::config::{Args, Sort, Tree};
use rtree::entry::{Entry, EntryKind};
use rtree::order::{name_less, sort_indices, Order};
use rtree::text::{contains, human_size, to_decimal};
use rtree::walk::Step;

fn args() -> Args {
    Args {
        path: ".".to_string(),
        all: false,
        directories: false,
        follow_links: false,
        full_path: false,
        stay_on_fs: false,
        level: None,
        rerun: false,
        pattern: None,
        ignore: None,
        ignore_case: false,
        matchdirs: false,
        noreport: false,
        charset: None,
        filelimit: None,
        timefmt: None,
        output: None,
        question: false,
        n: false,
        quote: false,
        protections: false,
        user: false,
        group: false,
        size: false,
        human_size: false,
        si: false,
        date: false,
        file_type: false,
        inodes: false,
        device: false,
        version: false,
        time: false,
        change: false,
        unsorted: false,
        reverse: false,
        dirsfirst: false,
        sort: Some(Sort::Name),
        indentation: false,
        ansi: false,
        cp437: false,
        no_color: false,
        color: false,
        xml: false,
        json: false,
        html: None,
        title: None,
        nolinks: false,
        fromfile: None,
    }
}

fn entry(name: &str, kind: EntryKind) -> Entry {
    Entry {
        name: name.to_string(),
        path: format!("./{}", name),
        kind,
        executable: false,
        size: Some(0),
        modified: 0,
        changed: 0,
        link_target: None,
    }
}

fn file(name: &str) -> Entry {
    entry(name, EntryKind::File)
}

fn dir(name: &str) -> Entry {
    entry(name, EntryKind::Dir)
}

fn lines(steps: &[Step]) -> Vec<String> {
    steps.iter().map(|s| s.line.clone().unwrap()).collect()
}

fn names(es: &[Entry], steps: &[Step]) -> Vec<String> {
    steps.iter().map(|s| es[s.entry].name.clone()).collect()
}

#[test]
fn human_size_examples() {
    assert_eq!(human_size(0), "   0.00B");
    assert_eq!(human_size(1024), "   1.00K");
    assert_eq!(human_size(1536), "   1.50K");
    assert_eq!(human_size(1_048_576), "   1.00M");
    assert_eq!(human_size(1023), "1023.00B");
    assert_eq!(human_size(1025), "   1.00K");
    assert_eq!(human_size(u64::MAX), "  16.00E");
}

#[test]
fn size_field_raw_and_scaled() {
    let mut a = args();
    a.size = true;
    let t = Tree::new(a);
    assert_eq!(t.size_to_string(1536), "1536");
    assert_eq!(to_decimal(0), "0");
    let mut a = args();
    a.human_size = true;
    let t = Tree::new(a);
    assert_eq!(t.size_to_string(1536), "   1.50K");
}

#[test]
fn size_prefix_on_line() {
    let mut a = args();
    a.size = true;
    let t = Tree::new(a);
    let mut e = file("a.txt");
    e.size = Some(42);
    assert_eq!(t.filename(&e), Some("[42] a.txt".to_string()));
    e.size = None;
    assert_eq!(t.filename(&e), None);
}

#[test]
fn hidden_files_filtered() {
    let es = vec![dir(".git"), file("readme.txt")];
    let t = Tree::new(args());
    let r = t.visit(&es, 0, "");
    assert_eq!(lines(&r), vec!["└── readme.txt".to_string()]);
    let mut a = args();
    a.all = true;
    let t = Tree::new(a);
    let r = t.visit(&es, 0, "");
    assert_eq!(lines(&r), vec!["├── .git".to_string(), "└── readme.txt".to_string()]);
}

#[test]
fn directories_only() {
    let es = vec![file("b.txt"), dir("sub"), file("a.txt")];
    for key in [None, Some(Sort::Name), Some(Sort::Size), Some(Sort::Mtime), Some(Sort::Ctime)] {
        let mut a = args();
        a.directories = true;
        a.sort = key;
        let t = Tree::new(a);
        let r = t.visit(&es, 0, "");
        assert_eq!(lines(&r), vec!["└── sub".to_string()]);
        assert!(r[0].descend);
    }
}

#[test]
fn depth_limit() {
    let es = vec![dir("a"), dir("b")];
    let mut a = args();
    a.level = Some(1);
    let t = Tree::new(a);
    let top = t.visit(&es, 0, "");
    assert_eq!(top.len(), 2);
    assert!(top[0].descend && top[1].descend);
    let nested = vec![dir("c"), file("d")];
    assert!(t.visit(&nested, 1, &top[0].child_prefix).is_empty());
}

#[test]
fn include_pattern() {
    let es = vec![file("app.log"), file("notes.txt"), dir("logs2"), dir("src"), file("LOG.txt")];
    let mut a = args();
    a.pattern = Some("log".to_string());
    let t = Tree::new(a);
    let r = t.visit(&es, 0, "");
    assert_eq!(names(&es, &r), vec!["app.log", "logs2", "src"]);
    let mut a = args();
    a.pattern = Some("log".to_string());
    a.ignore_case = true;
    let t = Tree::new(a);
    let r = t.visit(&es, 0, "");
    assert_eq!(names(&es, &r), vec!["LOG.txt", "app.log", "logs2", "src"]);
}

#[test]
fn include_pattern_on_directories() {
    let es = vec![file("app.log"), dir("logs"), dir("src")];
    let mut a = args();
    a.pattern = Some("log".to_string());
    a.matchdirs = true;
    let t = Tree::new(a);
    let r = t.visit(&es, 0, "");
    assert_eq!(names(&es, &r), vec!["app.log", "logs"]);
}

#[test]
fn exclude_pattern() {
    let es = vec![file("app.log"), file("notes.txt"), dir("logs")];
    let mut a = args();
    a.ignore = Some("LOG".to_string());
    a.ignore_case = true;
    let t = Tree::new(a);
    let r = t.visit(&es, 0, "");
    assert_eq!(names(&es, &r), vec!["logs", "notes.txt"]);
}

#[test]
fn each_survivor_listed_once() {
    let es = vec![file("c"), file(".h"), dir("a"), file("b"), dir(".d")];
    let t = Tree::new(args());
    let r = t.visit(&es, 0, "");
    assert_eq!(r.len(), 3);
    let mut idx: Vec<usize> = r.iter().map(|s| s.entry).collect();
    idx.sort();
    assert_eq!(idx, vec![0, 2, 3]);
}

#[test]
fn corner_glyph_on_last_only() {
    let es = vec![file("c"), dir("a"), file("b")];
    let t = Tree::new(args());
    let r = t.visit(&es, 0, "│   ");
    assert_eq!(
        lines(&r),
        vec!["│   ├── a".to_string(), "│   ├── b".to_string(), "│   └── c".to_string()]
    );
    assert_eq!(r[0].child_prefix, "│   │   ");
    assert_eq!(r[2].child_prefix, "│       ");
}

#[test]
fn last_survivor_gets_corner_when_last_entry_is_filtered() {
    let es = vec![file("a.log"), file("b.txt")];
    let mut a = args();
    a.pattern = Some("log".to_string());
    let t = Tree::new(a);
    assert_eq!(lines(&t.visit(&es, 0, "")), vec!["└── a.log".to_string()]);
}

#[test]
fn reverse_flips_order() {
    let mut es = vec![dir("m"), file("z"), file("a"), dir("b")];
    es[1].size = Some(5);
    es[2].size = Some(5);
    es[3].size = Some(1);
    for key in [Sort::Name, Sort::Size, Sort::Mtime, Sort::Ctime] {
        for dirsfirst in [false, true] {
            let fwd = Order { dirsfirst, key: Some(key), reverse: false };
            let rev = Order { dirsfirst, key: Some(key), reverse: true };
            let c = vec![0, 1, 2, 3];
            let mut f = sort_indices(&es, fwd, &c);
            let r = sort_indices(&es, rev, &c);
            f.reverse();
            assert_eq!(f, r);
        }
    }
}

#[test]
fn reverse_flag_reverses_listing() {
    let es = vec![file("b"), dir("c"), file(".x"), file("a"), dir("d")];
    let mut a = args();
    a.dirsfirst = true;
    let fwd = Tree::new(a.clone()).visit(&es, 0, "");
    a.reverse = true;
    let rev = Tree::new(a).visit(&es, 0, "");
    assert_eq!(names(&es, &fwd), vec!["c", "d", "a", "b"]);
    assert_eq!(names(&es, &rev), vec!["b", "a", "d", "c"]);
    assert_eq!(lines(&rev)[3], "└── c");
}

#[test]
fn sort_keys() {
    let mut es = vec![file("b"), dir("c"), file("a")];
    es[0].size = Some(10);
    es[1].size = Some(3);
    es[2].size = None;
    es[0].modified = 3;
    es[1].modified = 1;
    es[2].modified = 2;
    es[0].changed = -1;
    es[1].changed = 7;
    es[2].changed = 0;
    let c = vec![0, 1, 2];
    let o = |key, dirsfirst| Order { dirsfirst, key, reverse: false };
    assert_eq!(sort_indices(&es, o(Some(Sort::Name), false), &c), vec![2, 0, 1]);
    assert_eq!(sort_indices(&es, o(Some(Sort::Size), false), &c), vec![2, 1, 0]);
    assert_eq!(sort_indices(&es, o(Some(Sort::Mtime), false), &c), vec![1, 2, 0]);
    assert_eq!(sort_indices(&es, o(Some(Sort::Ctime), false), &c), vec![0, 2, 1]);
    assert_eq!(sort_indices(&es, o(None, false), &c), vec![0, 1, 2]);
    assert_eq!(sort_indices(&es, o(None, true), &c), vec![1, 0, 2]);
    assert_eq!(sort_indices(&es, o(Some(Sort::Name), true), &c), vec![1, 2, 0]);
    let rev_none = Order { dirsfirst: false, key: None, reverse: true };
    assert_eq!(sort_indices(&es, rev_none, &c), vec![0, 1, 2]);
    let rev_dirs = Order { dirsfirst: true, key: Some(Sort::Name), reverse: true };
    assert_eq!(sort_indices(&es, rev_dirs, &c), vec![0, 2, 1]);
}

#[test]
fn name_order_is_bytewise() {
    assert!(name_less("B", "a"));
    assert!(name_less("ab", "abc"));
    assert!(!name_less("abc", "abc"));
    assert!(name_less("z", "é"));
    assert!(!name_less("b", "a"));
}

#[test]
fn substring_search() {
    assert!(contains("app.log", "log"));
    assert!(contains("abc", ""));
    assert!(!contains("lo", "log"));
    assert!(!contains("app.LOG", "log"));
}

#[test]
fn validate_sort_flags() {
    let mut a = args();
    a.time = true;
    let mut t = Tree::new(a);
    assert!(t.validate().is_ok());
    assert_eq!(t.config.sort, Some(Sort::Mtime));
    let mut a = args();
    a.time = true;
    a.change = true;
    let mut t = Tree::new(a);
    assert!(t.validate().is_ok());
    assert_eq!(t.config.sort, Some(Sort::Ctime));
    let mut a = args();
    a.change = true;
    a.unsorted = true;
    let mut t = Tree::new(a);
    assert!(t.validate().is_ok());
    assert_eq!(t.config.sort, None);
}

#[test]
fn validate_refuses_version_sort() {
    let mut a = args();
    a.version = true;
    let mut t = Tree::new(a);
    assert_eq!(t.validate(), Err("Sorting by version is not supported yet.".to_string()));
    let mut a = args();
    a.sort = Some(Sort::Version);
    let mut t = Tree::new(a);
    assert!(t.validate().is_err());
}

#[test]
fn symlink_and_quotes() {
    let mut a = args();
    a.quote = true;
    let t = Tree::new(a);
    let mut e = entry("ln", EntryKind::Symlink);
    e.link_target = Some("../target".to_string());
    assert_eq!(t.filename(&e), Some("\"ln\" -> ../target".to_string()));
    e.link_target = None;
    assert_eq!(t.filename(&e), None);
    let mut a = args();
    a.full_path = true;
    let t = Tree::new(a);
    assert_eq!(t.filename(&file("x")), Some("./x".to_string()));
}

#[test]
fn follow_links_descends_into_links() {
    let mut l = entry("ln", EntryKind::Symlink);
    l.link_target = Some("d".to_string());
    let es = vec![l, file("f")];
    let t = Tree::new(args());
    assert!(t.visit(&es, 0, "").iter().all(|s| !s.descend));
    let mut a = args();
    a.follow_links = true;
    let t = Tree::new(a);
    let r = t.visit(&es, 0, "");
    assert_eq!(r.len(), 2);
    for s in &r {
        assert_eq!(s.descend, s.entry == 0);
    }
}

#[test]
fn colors_keep_the_name() {
    colored::control::set_override(true);
    let mut a = args();
    a.color = true;
    let t = Tree::new(a);
    let d = t.filename(&dir("src")).unwrap();
    assert!(d.contains("src") && d.contains('\u{1b}'));
    let mut x = file("run.sh");
    x.executable = true;
    let s = t.filename(&x).unwrap();
    assert!(s.contains("run.sh") && s.contains('\u{1b}'));
    assert_eq!(t.filename(&file("plain")), Some("plain".to_string()));
    let mut l = entry("ln", EntryKind::Symlink);
    l.link_target = Some("tgt".to_string());
    let s = t.filename(&l).unwrap();
    assert!(s.contains("ln") && s.contains(" -> ") && s.contains("tgt") && s.contains('\u{1b}'));
    colored::control::unset_override();
}

#[test]
fn heading_line() {
    let t = Tree::new(args());
    assert_eq!(t.heading(&dir("."), false), Some(".".to_string()));
    assert_eq!(t.heading(&dir("proj"), true), Some("proj".to_string()));
    let mut a = args();
    a.path = "/".to_string();
    let t = Tree::new(a);
    assert_eq!(t.heading(&dir("/"), false), None);
}
