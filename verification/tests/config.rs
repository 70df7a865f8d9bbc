use treedeco::color::hex_to_color;
use treedeco::settings::{
    find_item_from_extension, Args, ColorSet, Config, DirectoryColorSet, DirectoryIconSet,
    FileColorSet, FileIconSet, IconSet, Settings,
};
use treedeco::strmap::StringMap;
use treedeco::text::{decimal_string, extension_of, str_eq};

fn plain_config(ignored: Vec<Vec<String>>, filter: Option<String>) -> Config {
    Config {
        settings: Settings { ignored_dirs: ignored, extensions_fold_count: 0 },
        glyphs: StringMap::new(),
        icons: IconSet {
            directories: DirectoryIconSet {
                default: "d".to_string(),
                symlink: "d".to_string(),
                junction: "d".to_string(),
                wellknown: StringMap::new(),
            },
            files: FileIconSet {
                default: "f".to_string(),
                symlink: "f".to_string(),
                junction: "f".to_string(),
                wellknown: StringMap::new(),
                extensions: StringMap::new(),
            },
        },
        colors: ColorSet {
            directories: DirectoryColorSet {
                default: "00ff00".to_string(),
                ignored: "808080".to_string(),
                symlink: "00ff00".to_string(),
                junction: "00ff00".to_string(),
                wellknown: StringMap::new(),
            },
            files: FileColorSet {
                default: "ff0000".to_string(),
                symlink: "ff0000".to_string(),
                junction: "ff0000".to_string(),
                wellknown: StringMap::new(),
                extensions: StringMap::new(),
            },
        },
        args: Args { path: None, unfold: false, filter },
    }
}

#[test]
fn longest_extension_wins() {
    let mut map = StringMap::new();
    map.set("tar.gz".to_string(), "archive".to_string());
    map.set("gz".to_string(), "zip".to_string());
    let hit = find_item_from_extension(&map, "backup.tar.gz").expect("a match");
    assert_eq!(hit, "archive");
    let hit = find_item_from_extension(&map, "data.gz").expect("a match");
    assert_eq!(hit, "zip");
    assert!(find_item_from_extension(&map, "plain.txt").is_none());
}

#[test]
fn exact_name_beats_extension() {
    let mut map = StringMap::new();
    map.set("makefile".to_string(), "special".to_string());
    map.set("file".to_string(), "by-ext".to_string());
    let hit = find_item_from_extension(&map, "makefile").expect("a match");
    assert_eq!(hit, "special");
}

#[test]
fn string_map_replaces_bindings() {
    let mut map = StringMap::new();
    map.set("k".to_string(), "one".to_string());
    map.set("k".to_string(), "two".to_string());
    assert_eq!(map.get("k").expect("present"), "two");
    assert!(map.get("missing").is_none());
}

#[test]
fn dir_ignore_matches_path_suffix() {
    let config = plain_config(
        vec![vec!["node_modules".to_string()], vec!["a".to_string(), "b".to_string()]],
        None,
    );
    let path1: Vec<String> = vec!["home".to_string(), "node_modules".to_string()];
    assert!(config.is_dir_ignored(&path1));
    let path2: Vec<String> = vec!["home".to_string(), "node_modulesx".to_string()];
    assert!(!config.is_dir_ignored(&path2));
    let path3: Vec<String> = vec!["x".to_string(), "a".to_string(), "b".to_string()];
    assert!(config.is_dir_ignored(&path3));
    let path4: Vec<String> = vec!["a".to_string()];
    assert!(!config.is_dir_ignored(&path4));
}

#[test]
fn filter_glob_decides_validity() {
    let config = plain_config(vec![], Some("*.txt".to_string()));
    assert!(config.is_file_valid("note.txt"));
    assert!(!config.is_file_valid("note.log"));
    assert!(config.is_filtered());
    let open = plain_config(vec![], None);
    assert!(open.is_file_valid("anything.bin"));
    assert!(!open.is_filtered());
}

#[test]
fn hex_colors_parse() {
    let c = hex_to_color("ff8000");
    assert_eq!(c.red, 255);
    assert_eq!(c.green, 128);
    assert_eq!(c.blue, 0);
    let c = hex_to_color("0A0b0C");
    assert_eq!(c.red, 10);
    assert_eq!(c.green, 11);
    assert_eq!(c.blue, 12);
}

#[test]
fn decimal_rendering() {
    assert_eq!(decimal_string(0), "0");
    assert_eq!(decimal_string(7), "7");
    assert_eq!(decimal_string(150), "150");
    assert_eq!(decimal_string(4294967295), "4294967295");
}

#[test]
fn extensions_follow_the_last_dot() {
    assert_eq!(extension_of("archive.tar.gz").expect("extension"), "gz");
    assert_eq!(extension_of("main.rs").expect("extension"), "rs");
    assert!(extension_of(".bashrc").is_none());
    assert!(extension_of("README").is_none());
    assert_eq!(extension_of("odd.").expect("extension"), "");
}

#[test]
fn str_eq_compares_characters() {
    assert!(str_eq("abc", "abc"));
    assert!(!str_eq("abc", "abd"));
    assert!(!str_eq("abc", "ab"));
    assert!(str_eq("", ""));
}
