use treedeco::renderer::Renderer;
use treedeco::settings::{
    Args, ColorSet, Config, DirectoryColorSet, DirectoryIconSet, FileColorSet, FileIconSet,
    IconSet, Settings,
};
use treedeco::strmap::StringMap;

fn render_config() -> Config {
    let mut glyphs = StringMap::new();
    glyphs.set("pipe-v".to_string(), "|".to_string());
    glyphs.set("pipe-h".to_string(), "-".to_string());
    glyphs.set("pipe-t".to_string(), "+".to_string());
    glyphs.set("pipe-e".to_string(), "`".to_string());
    glyphs.set("file-icon".to_string(), "F".to_string());
    glyphs.set("dir-icon".to_string(), "D".to_string());
    glyphs.set("rust-icon".to_string(), "R".to_string());
    let mut file_ext_icons = StringMap::new();
    file_ext_icons.set("rs".to_string(), "rust-icon".to_string());
    let mut dir_known = StringMap::new();
    dir_known.set("src".to_string(), "dir-icon".to_string());
    let mut file_ext_colors = StringMap::new();
    file_ext_colors.set("rs".to_string(), "010203".to_string());
    Config {
        settings: Settings { ignored_dirs: Vec::new(), extensions_fold_count: 100 },
        glyphs,
        icons: IconSet {
            directories: DirectoryIconSet {
                default: "dir-icon".to_string(),
                symlink: "dir-icon".to_string(),
                junction: "dir-icon".to_string(),
                wellknown: dir_known,
            },
            files: FileIconSet {
                default: "file-icon".to_string(),
                symlink: "file-icon".to_string(),
                junction: "file-icon".to_string(),
                wellknown: StringMap::new(),
                extensions: file_ext_icons,
            },
        },
        colors: ColorSet {
            directories: DirectoryColorSet {
                default: "00ff00".to_string(),
                ignored: "808080".to_string(),
                symlink: "00ff00".to_string(),
                junction: "00ff00".to_string(),
                wellknown: StringMap::new(),
            },
            files: FileColorSet {
                default: "ff0000".to_string(),
                symlink: "ff0000".to_string(),
                junction: "ff0000".to_string(),
                wellknown: StringMap::new(),
                extensions: file_ext_colors,
            },
        },
        args: Args { path: None, unfold: false, filter: None },
    }
}

fn painted(rgb: (u8, u8, u8), text: &str) -> String {
    format!("\u{1b}[38;2;{};{};{}m{}\u{1b}[0m", rgb.0, rgb.1, rgb.2, text)
}

#[test]
fn file_line_is_painted() {
    let config = render_config();
    let mut renderer = Renderer::new(&config);
    renderer.render_file("main.rs");
    let expected = format!(
        "{} {}\n",
        painted((1, 2, 3), "R"),
        painted((1, 2, 3), "main.rs"),
    );
    assert_eq!(renderer.out, expected);
}

#[test]
fn default_file_color_applies() {
    let config = render_config();
    let mut renderer = Renderer::new(&config);
    renderer.render_file("notes.txt");
    let expected = format!(
        "{} {}\n",
        painted((255, 0, 0), "F"),
        painted((255, 0, 0), "notes.txt"),
    );
    assert_eq!(renderer.out, expected);
}

#[test]
fn ignored_dir_line_has_continuation_mark() {
    let config = render_config();
    let mut renderer = Renderer::new(&config);
    renderer.render_dir("vendor", true);
    let expected = format!(
        "{} {}{}\n",
        painted((128, 128, 128), "D"),
        painted((128, 128, 128), "vendor"),
        painted((128, 128, 128), "/..."),
    );
    assert_eq!(renderer.out, expected);
}

#[test]
fn plain_dir_line() {
    let config = render_config();
    let mut renderer = Renderer::new(&config);
    renderer.render_dir("src", false);
    let expected = format!(
        "{} {}\n",
        painted((0, 255, 0), "D"),
        painted((0, 255, 0), "src"),
    );
    assert_eq!(renderer.out, expected);
}

#[test]
fn directory_defaults_are_per_category() {
    // A directory in no table takes the directory category's default icon
    // and colour, not the file category's.
    let config = render_config();
    let mut renderer = Renderer::new(&config);
    renderer.render_dir("plain", false);
    let expected = format!(
        "{} {}\n",
        painted((0, 255, 0), "D"),
        painted((0, 255, 0), "plain"),
    );
    assert_eq!(renderer.out, expected);
}

#[test]
fn skipped_files_line() {
    let config = render_config();
    let mut renderer = Renderer::new(&config);
    renderer.render_skippedfiles(&"rs".to_string(), 150);
    let expected = format!(
        "{} {}\n",
        painted((1, 2, 3), "R"),
        painted((1, 2, 3), "150 rs files..."),
    );
    assert_eq!(renderer.out, expected);
}

#[test]
fn pipes_compose_a_line_prefix() {
    let config = render_config();
    let mut renderer = Renderer::new(&config);
    renderer.render_pipe_v();
    renderer.render_pipe_v();
    renderer.render_pipe_t();
    renderer.render_pipe_h();
    assert_eq!(renderer.out, "| | +-");
    let mut renderer = Renderer::new(&config);
    renderer.render_pipe_e();
    assert_eq!(renderer.out, "` ");
}
