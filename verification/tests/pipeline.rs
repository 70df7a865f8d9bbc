use treedeco::crawler::{compute, list_files, DirTree, IOEvent, RenderItem, RenderType, Subdir};
use treedeco::settings::{
    Args, ColorSet, Config, DirectoryColorSet, DirectoryIconSet, FileColorSet, FileIconSet,
    IconSet, Settings,
};
use treedeco::strmap::StringMap;

fn glyph_table() -> StringMap {
    let mut g = StringMap::new();
    g.set("pipe-v".to_string(), "|".to_string());
    g.set("pipe-h".to_string(), "-".to_string());
    g.set("pipe-t".to_string(), "+".to_string());
    g.set("pipe-e".to_string(), "`".to_string());
    g.set("file-icon".to_string(), "f".to_string());
    g.set("dir-icon".to_string(), "d".to_string());
    g
}

fn test_config(ignored: Vec<Vec<String>>, fold: usize, unfold: bool, filter: Option<String>) -> Config {
    Config {
        settings: Settings { ignored_dirs: ignored, extensions_fold_count: fold },
        glyphs: glyph_table(),
        icons: IconSet {
            directories: DirectoryIconSet {
                default: "dir-icon".to_string(),
                symlink: "dir-icon".to_string(),
                junction: "dir-icon".to_string(),
                wellknown: StringMap::new(),
            },
            files: FileIconSet {
                default: "file-icon".to_string(),
                symlink: "file-icon".to_string(),
                junction: "file-icon".to_string(),
                wellknown: StringMap::new(),
                extensions: StringMap::new(),
            },
        },
        colors: ColorSet {
            directories: DirectoryColorSet {
                default: "00ff00".to_string(),
                ignored: "808080".to_string(),
                symlink: "00ff00".to_string(),
                junction: "00ff00".to_string(),
                wellknown: StringMap::new(),
            },
            files: FileColorSet {
                default: "ff0000".to_string(),
                symlink: "ff0000".to_string(),
                junction: "ff0000".to_string(),
                wellknown: StringMap::new(),
                extensions: StringMap::new(),
            },
        },
        args: Args { path: None, unfold, filter },
    }
}

fn leaf_dir(files: Vec<&str>) -> DirTree {
    DirTree { files: files.into_iter().map(|s| s.to_string()).collect(), subdirs: Vec::new() }
}

fn run_orderer(config: &Config, tree: &DirTree) -> Vec<RenderItem> {
    let mut events: Vec<IOEvent> = Vec::new();
    let root: Vec<String> = vec!["root".to_string()];
    list_files(&root, tree, config, 0, &mut events);
    compute(config, events)
}

#[test]
fn directive_order_example() {
    // Root with a.txt, b.txt, an ignored node_modules and src/main.rs.
    let config = test_config(vec![vec!["node_modules".to_string()]], 100, false, None);
    let tree = DirTree {
        files: vec!["a.txt".to_string(), "b.txt".to_string()],
        subdirs: vec![
            Subdir { name: "node_modules".to_string(), tree: leaf_dir(vec![]) },
            Subdir { name: "src".to_string(), tree: leaf_dir(vec!["main.rs"]) },
        ],
    };
    let items = run_orderer(&config, &tree);
    assert_eq!(items.len(), 5);

    match &items[0].item {
        RenderType::File(f) => assert_eq!(f.name, "a.txt"),
        _ => panic!("expected a file directive"),
    }
    assert_eq!(items[0].depth, 0);
    assert!(!items[0].is_last);
    assert!(items[0].is_leaf);

    match &items[1].item {
        RenderType::File(f) => assert_eq!(f.name, "b.txt"),
        _ => panic!("expected a file directive"),
    }
    assert!(!items[1].is_last);

    match &items[2].item {
        RenderType::Dir(d) => assert_eq!(d.name, "node_modules"),
        _ => panic!("expected a directory directive"),
    }
    assert_eq!(items[2].depth, 0);
    assert!(items[2].is_leaf);
    assert!(!items[2].is_last);

    match &items[3].item {
        RenderType::Dir(d) => assert_eq!(d.name, "src"),
        _ => panic!("expected a directory directive"),
    }
    assert_eq!(items[3].depth, 0);
    assert!(!items[3].is_leaf);
    assert!(items[3].is_last);

    match &items[4].item {
        RenderType::File(f) => assert_eq!(f.name, "main.rs"),
        _ => panic!("expected a file directive"),
    }
    assert_eq!(items[4].depth, 1);
    assert!(items[4].is_leaf);
    assert!(items[4].is_last);
}

#[test]
fn folding_reaches_threshold() {
    // 150 log files against a threshold of 100: one folded group, no
    // individual log files.
    let config = test_config(vec![], 100, false, None);
    let mut files: Vec<String> = Vec::new();
    for i in 0..150 {
        files.push(format!("trace{}.log", i));
    }
    let tree = DirTree { files, subdirs: Vec::new() };
    let items = run_orderer(&config, &tree);
    assert_eq!(items.len(), 1);
    match &items[0].item {
        RenderType::Folded(s) => {
            assert_eq!(s.ext, "log");
            assert_eq!(s.count, 150);
        },
        _ => panic!("expected a folded group"),
    }
}

#[test]
fn folding_below_threshold() {
    let config = test_config(vec![], 5, false, None);
    let tree = leaf_dir(vec!["a.txt", "b.txt", "c.txt"]);
    let items = run_orderer(&config, &tree);
    assert_eq!(items.len(), 3);
    for item in &items {
        match &item.item {
            RenderType::File(_) => {},
            _ => panic!("expected only file directives"),
        }
    }
    // Exactly the child enumerated last carries the last-sibling flag.
    assert!(!items[0].is_last);
    assert!(!items[1].is_last);
    assert!(items[2].is_last);
}

#[test]
fn nested_pending_directories_flush_in_fifo_order() {
    // outer and inner are both pending when the deep file confirms them;
    // they flush oldest first, before the file, with the right depths.
    let config = test_config(vec![], 100, false, None);
    let tree = DirTree {
        files: Vec::new(),
        subdirs: vec![Subdir {
            name: "outer".to_string(),
            tree: DirTree {
                files: Vec::new(),
                subdirs: vec![Subdir {
                    name: "inner".to_string(),
                    tree: leaf_dir(vec!["deep.txt"]),
                }],
            },
        }],
    };
    let items = run_orderer(&config, &tree);
    assert_eq!(items.len(), 3);
    match &items[0].item {
        RenderType::Dir(d) => assert_eq!(d.name, "outer"),
        _ => panic!("expected outer first"),
    }
    assert_eq!(items[0].depth, 0);
    assert!(!items[0].is_leaf);
    match &items[1].item {
        RenderType::Dir(d) => assert_eq!(d.name, "inner"),
        _ => panic!("expected inner second"),
    }
    assert_eq!(items[1].depth, 1);
    match &items[2].item {
        RenderType::File(f) => assert_eq!(f.name, "deep.txt"),
        _ => panic!("expected the confirming file last"),
    }
    assert_eq!(items[2].depth, 2);
    assert!(items[2].is_last);
}

#[test]
fn unfold_disables_folding() {
    let config = test_config(vec![], 2, true, None);
    let tree = leaf_dir(vec!["a.txt", "b.txt", "c.txt"]);
    let items = run_orderer(&config, &tree);
    assert_eq!(items.len(), 3);
    for item in &items {
        match &item.item {
            RenderType::File(_) => {},
            _ => panic!("expected only file directives"),
        }
    }
}

#[test]
fn empty_directory_is_evicted() {
    // A directory with no filter-passing descendant yields no directive;
    // its sibling with content is flushed before that content.
    let config = test_config(vec![], 100, false, Some("*.txt".to_string()));
    let tree = DirTree {
        files: Vec::new(),
        subdirs: vec![
            Subdir { name: "logs".to_string(), tree: leaf_dir(vec!["x.log", "y.log"]) },
            Subdir { name: "docs".to_string(), tree: leaf_dir(vec!["note.txt"]) },
        ],
    };
    let items = run_orderer(&config, &tree);
    assert_eq!(items.len(), 2);
    match &items[0].item {
        RenderType::Dir(d) => assert_eq!(d.name, "docs"),
        _ => panic!("expected the docs directory"),
    }
    match &items[1].item {
        RenderType::File(f) => assert_eq!(f.name, "note.txt"),
        _ => panic!("expected the matching file"),
    }
}

#[test]
fn ignored_directory_is_leaf_directive() {
    // An ignored directory is emitted at once as a leaf, even though it
    // has descendants that would otherwise qualify.
    let config = test_config(vec![vec!["target".to_string()]], 100, false, None);
    let tree = DirTree {
        files: Vec::new(),
        subdirs: vec![
            Subdir { name: "target".to_string(), tree: leaf_dir(vec!["artifact.bin"]) },
        ],
    };
    let items = run_orderer(&config, &tree);
    assert_eq!(items.len(), 1);
    match &items[0].item {
        RenderType::Dir(d) => assert_eq!(d.name, "target"),
        _ => panic!("expected the ignored directory"),
    }
    assert!(items[0].is_leaf);
    assert!(items[0].is_last);
}

#[test]
fn pipeline_is_idempotent() {
    let config = test_config(vec![vec!["node_modules".to_string()]], 3, false, None);
    let tree = DirTree {
        files: vec!["a.txt".to_string(), "b.txt".to_string(), "c.txt".to_string()],
        subdirs: vec![
            Subdir { name: "node_modules".to_string(), tree: leaf_dir(vec![]) },
            Subdir { name: "src".to_string(), tree: leaf_dir(vec!["main.rs", "lib.rs"]) },
        ],
    };
    let root: Vec<String> = vec!["root".to_string()];
    let first = treedeco::run_pipeline(&root, &tree, &config);
    let second = treedeco::run_pipeline(&root, &tree, &config);
    assert_eq!(first, second);
    assert!(!first.is_empty());
}
