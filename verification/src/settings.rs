//! Run configuration: the ignore list, the fold threshold, the optional name
//! filter, and the icon / colour / glyph lookup tables with their fallback
//! rules.
use vstd::prelude::*;
use crate::color::valid_hex6;
use crate::strmap::{lemma_str_lookup_is_value, str_lookup, StringMap};
use crate::text::str_eq;

verus! {

/// Icons for directories, by well-known name, with a default.
pub struct DirectoryIconSet {
    pub default: String,
    pub symlink: String,
    pub junction: String,
    pub wellknown: StringMap,
}

/// Icons for files, by well-known name or extension, with a default.
pub struct FileIconSet {
    pub default: String,
    pub symlink: String,
    pub junction: String,
    pub wellknown: StringMap,
    pub extensions: StringMap,
}

/// The icon tables.
pub struct IconSet {
    pub directories: DirectoryIconSet,
    pub files: FileIconSet,
}

/// Colours for directories, by well-known name, with a default and a colour
/// for ignored directories.
pub struct DirectoryColorSet {
    pub default: String,
    pub ignored: String,
    pub symlink: String,
    pub junction: String,
    pub wellknown: StringMap,
}

/// Colours for files, by well-known name or extension, with a default.
pub struct FileColorSet {
    pub default: String,
    pub symlink: String,
    pub junction: String,
    pub wellknown: StringMap,
    pub extensions: StringMap,
}

/// The colour tables.
pub struct ColorSet {
    pub directories: DirectoryColorSet,
    pub files: FileColorSet,
}

/// The command-line choices: an optional root path, whether folding is
/// switched off, and an optional file-name filter glob.
pub struct Args {
    pub path: Option<String>,
    pub unfold: bool,
    pub filter: Option<String>,
}

/// Behavioural settings: ignored directory path suffixes (as path
/// components) and the extension folding threshold.
pub struct Settings {
    pub ignored_dirs: Vec<Vec<String>>,
    pub extensions_fold_count: usize,
}

/// Everything a run needs, loaded once and immutable thereafter.
pub struct Config {
    pub settings: Settings,
    pub glyphs: StringMap,
    pub icons: IconSet,
    pub colors: ColorSet,
    pub args: Args,
}

/// Whether a glob pattern matches a file name; the result depends on the
/// pattern and the name alone — and, through the compile target's
/// path-separator convention, on the target, so it is one fixed function
/// within any build.
pub uninterp spec fn glob_matches(pattern: Seq<char>, text: Seq<char>) -> bool;

/// Relies on `glob_match::glob_match`, which decides whether a glob pattern
/// matches a path; it returns without panicking on every input.
pub assume_specification [ glob_match::glob_match ](glob: &str, path: &str) -> (r: bool)
    ensures
        r == glob_matches(glob@, path@),
;

/// Whether `suffix` is a suffix of `path`, component for component.
pub open spec fn is_component_suffix(suffix: Seq<Seq<char>>, path: Seq<Seq<char>>) -> bool {
    suffix.len() <= path.len() && suffix == path.skip(path.len() - suffix.len())
}

/// The value found for a file name by scanning its dots from the left and
/// looking each dotted suffix up, starting at position `i`.
pub open spec fn spec_find_from_pos(
    m: Seq<(Seq<char>, Seq<char>)>,
    name: Seq<char>,
    i: int,
) -> Option<Seq<char>>
    decreases name.len() - i,
{
    if i < 0 || i >= name.len() {
        None
    } else if name[i] == '.' && i + 1 < name.len() && str_lookup(
        m,
        name.subrange(i + 1, name.len() as int),
    ) is Some {
        str_lookup(m, name.subrange(i + 1, name.len() as int))
    } else {
        spec_find_from_pos(m, name, i + 1)
    }
}

/// The value found for a file name: an exact-name binding first, then the
/// longest dotted suffix with a binding.
pub open spec fn spec_find_item(m: Seq<(Seq<char>, Seq<char>)>, name: Seq<char>) -> Option<
    Seq<char>,
> {
    if str_lookup(m, name) is Some {
        str_lookup(m, name)
    } else {
        spec_find_from_pos(m, name, 0)
    }
}

/// Finds the table entry for the longest extension matching the file name:
/// the whole name first, then every dotted suffix from the longest down.
pub fn find_item_from_extension<'a>(map: &'a StringMap, filename: &str) -> (r: Option<
    &'a String,
>)
    ensures
        match r {
            Some(v) => spec_find_item(map@, filename@) == Some(v@),
            None => spec_find_item(map@, filename@) is None,
        },
{
    if let Some(v) = map.get(filename) {
        return Some(v);
    }
    let n: usize = filename.unicode_len();
    let mut i: usize = 0;
    while i < n
        invariant
            n == filename@.len(),
            0 <= i <= n,
            str_lookup(map@, filename@) is None,
            spec_find_from_pos(map@, filename@, 0) == spec_find_from_pos(map@, filename@, i as int),
        decreases n - i,
    {
        if filename.get_char(i) == '.' && i + 1 < n {
            let suffix: &str = filename.substring_char(i + 1, n);
            proof {
                assert(suffix@ == filename@.subrange(i + 1, n as int));
            }
            if let Some(v) = map.get(suffix) {
                return Some(v);
            }
        }
        i += 1;
    }
    None
}

/// A value produced by `spec_find_item` is one of the table's values.
proof fn lemma_find_from_pos_is_value(
    m: Seq<(Seq<char>, Seq<char>)>,
    name: Seq<char>,
    i: int,
    value: Seq<char>,
)
    requires
        spec_find_from_pos(m, name, i) == Some(value),
    ensures
        exists|j: int| 0 <= j < m.len() && (#[trigger] m[j]).1 == value,
    decreases name.len() - i,
{
    if !(i < 0 || i >= name.len()) {
        if name[i] == '.' && i + 1 < name.len() && str_lookup(
            m,
            name.subrange(i + 1, name.len() as int),
        ) is Some {
            lemma_str_lookup_is_value(m, name.subrange(i + 1, name.len() as int), value);
        } else {
            lemma_find_from_pos_is_value(m, name, i + 1, value);
        }
    }
}

/// A value produced by `spec_find_item` is one of the table's values.
pub proof fn lemma_find_item_is_value(
    m: Seq<(Seq<char>, Seq<char>)>,
    name: Seq<char>,
    value: Seq<char>,
)
    requires
        spec_find_item(m, name) == Some(value),
    ensures
        exists|j: int| 0 <= j < m.len() && (#[trigger] m[j]).1 == value,
{
    if str_lookup(m, name) is Some {
        lemma_str_lookup_is_value(m, name, value);
    } else {
        lemma_find_from_pos_is_value(m, name, 0, value);
    }
}

/// Under a well-formed configuration, the colour chosen for a file name is a
/// valid hexadecimal colour.
pub proof fn lemma_file_color_valid(c: &Config, name: Seq<char>)
    requires
        c.wf(),
    ensures
        valid_hex6(c.spec_file_color(name)),
{
    match str_lookup(c.colors.files.wellknown@, name) {
        Some(v) => {
            lemma_str_lookup_is_value(c.colors.files.wellknown@, name, v);
        },
        None => {
            match spec_find_item(c.colors.files.extensions@, name) {
                Some(v) => {
                    lemma_find_item_is_value(c.colors.files.extensions@, name, v);
                },
                None => {},
            }
        },
    }
}

/// Under a well-formed configuration, the colour chosen for an extension is
/// a valid hexadecimal colour.
pub proof fn lemma_ext_color_valid(c: &Config, ext: Seq<char>)
    requires
        c.wf(),
    ensures
        valid_hex6(c.spec_ext_color(ext)),
{
    match str_lookup(c.colors.files.extensions@, ext) {
        Some(v) => {
            lemma_str_lookup_is_value(c.colors.files.extensions@, ext, v);
        },
        None => {},
    }
}

/// Under a well-formed configuration, the colour chosen for a directory name
/// is a valid hexadecimal colour.
pub proof fn lemma_dir_color_valid(c: &Config, name: Seq<char>)
    requires
        c.wf(),
    ensures
        valid_hex6(c.spec_dir_color(name)),
{
    match str_lookup(c.colors.directories.wellknown@, name) {
        Some(v) => {
            lemma_str_lookup_is_value(c.colors.directories.wellknown@, name, v);
        },
        None => {},
    }
}

/// Whether a suffix entry matches the tail of a path, component for
/// component.
fn suffix_matches(entry: &Vec<String>, path: &Vec<String>) -> (r: bool)
    ensures
        r == is_component_suffix(entry.deep_view(), path.deep_view()),
{
    let m: usize = entry.len();
    let n: usize = path.len();
    if m > n {
        return false;
    }
    let off: usize = n - m;
    let mut j: usize = 0;
    while j < m
        invariant
            m == entry@.len(),
            n == path@.len(),
            m <= n,
            off == n - m,
            0 <= j <= m,
            forall|l: int| 0 <= l < j ==> entry.deep_view()[l] == path.deep_view()[off + l],
        decreases m - j,
    {
        if !str_eq(path[off + j].as_str(), entry[j].as_str()) {
            proof {
                assert(entry.deep_view()[j as int] != path.deep_view()[off + j as int]);
                assert(path.deep_view().skip(off as int)[j as int] == path.deep_view()[off
                    + j as int]);
            }
            return false;
        }
        j += 1;
    }
    proof {
        assert(entry.deep_view() =~= path.deep_view().skip(off as int));
    }
    true
}

impl Config {
    /// The ignore list, as sequences of path components.
    pub open spec fn ignored_list(&self) -> Seq<Seq<Seq<char>>> {
        self.settings.ignored_dirs.deep_view()
    }

    /// The configured file-name filter, if any.
    pub open spec fn filter_pattern(&self) -> Option<Seq<char>> {
        match self.args.filter {
            Some(f) => Some(f@),
            None => None,
        }
    }

    /// Whether extension folding is switched off.
    pub open spec fn spec_unfold(&self) -> bool {
        self.args.unfold
    }

    /// The extension folding threshold.
    pub open spec fn spec_fold_threshold(&self) -> int {
        self.settings.extensions_fold_count as int
    }

    /// Whether a file name passes the configured filter: with no filter every
    /// name passes, with one the glob decides.
    pub open spec fn spec_file_valid(&self, name: Seq<char>) -> bool {
        match self.filter_pattern() {
            Some(p) => glob_matches(p, name),
            None => true,
        }
    }

    /// Whether a directory path matches an entry of the ignore list.
    pub open spec fn spec_dir_ignored(&self, path: Seq<Seq<char>>) -> bool {
        exists|i: int|
            0 <= i < self.ignored_list().len() && is_component_suffix(
                #[trigger] self.ignored_list()[i],
                path,
            )
    }

    /// Every icon the icon tables can produce has a glyph, and the four tree
    /// connector glyphs are present.
    pub open spec fn glyph_wf(&self) -> bool {
        &&& str_lookup(self.glyphs@, "pipe-v"@) is Some
        &&& str_lookup(self.glyphs@, "pipe-h"@) is Some
        &&& str_lookup(self.glyphs@, "pipe-t"@) is Some
        &&& str_lookup(self.glyphs@, "pipe-e"@) is Some
        &&& str_lookup(self.glyphs@, self.icons.files.default@) is Some
        &&& str_lookup(self.glyphs@, self.icons.directories.default@) is Some
        &&& forall|j: int|
            0 <= j < self.icons.files.wellknown@.len() ==> str_lookup(
                self.glyphs@,
                (#[trigger] self.icons.files.wellknown@[j]).1,
            ) is Some
        &&& forall|j: int|
            0 <= j < self.icons.files.extensions@.len() ==> str_lookup(
                self.glyphs@,
                (#[trigger] self.icons.files.extensions@[j]).1,
            ) is Some
        &&& forall|j: int|
            0 <= j < self.icons.directories.wellknown@.len() ==> str_lookup(
                self.glyphs@,
                (#[trigger] self.icons.directories.wellknown@[j]).1,
            ) is Some
    }

    /// Every colour the colour tables can produce is a six-digit
    /// hexadecimal string.
    pub open spec fn color_wf(&self) -> bool {
        &&& valid_hex6(self.colors.files.default@)
        &&& valid_hex6(self.colors.directories.default@)
        &&& valid_hex6(self.colors.directories.ignored@)
        &&& forall|j: int|
            0 <= j < self.colors.files.wellknown@.len() ==> valid_hex6(
                (#[trigger] self.colors.files.wellknown@[j]).1,
            )
        &&& forall|j: int|
            0 <= j < self.colors.files.extensions@.len() ==> valid_hex6(
                (#[trigger] self.colors.files.extensions@[j]).1,
            )
        &&& forall|j: int|
            0 <= j < self.colors.directories.wellknown@.len() ==> valid_hex6(
                (#[trigger] self.colors.directories.wellknown@[j]).1,
            )
    }

    /// A configuration the lookup functions can rely on.
    pub open spec fn wf(&self) -> bool {
        self.glyph_wf() && self.color_wf()
    }

    /// The icon chosen for a file extension.
    pub open spec fn spec_ext_icon(&self, ext: Seq<char>) -> Seq<char> {
        match str_lookup(self.icons.files.extensions@, ext) {
            Some(icon) => icon,
            None => self.icons.files.default@,
        }
    }

    /// The glyph printed for a file extension.
    pub open spec fn spec_ext_glyph(&self, ext: Seq<char>) -> Seq<char> {
        match str_lookup(self.glyphs@, self.spec_ext_icon(ext)) {
            Some(g) => g,
            None => Seq::empty(),
        }
    }

    /// The colour chosen for a file extension.
    pub open spec fn spec_ext_color(&self, ext: Seq<char>) -> Seq<char> {
        match str_lookup(self.colors.files.extensions@, ext) {
            Some(c) => c,
            None => self.colors.files.default@,
        }
    }

    /// The icon chosen for a file name: a well-known name first, then the
    /// longest matching dotted extension, then the default.
    pub open spec fn spec_file_icon(&self, name: Seq<char>) -> Seq<char> {
        match str_lookup(self.icons.files.wellknown@, name) {
            Some(icon) => icon,
            None => match spec_find_item(self.icons.files.extensions@, name) {
                Some(icon) => icon,
                None => self.icons.files.default@,
            },
        }
    }

    /// The glyph printed for a file name.
    pub open spec fn spec_file_glyph(&self, name: Seq<char>) -> Seq<char> {
        match str_lookup(self.glyphs@, self.spec_file_icon(name)) {
            Some(g) => g,
            None => Seq::empty(),
        }
    }

    /// The colour chosen for a file name.
    pub open spec fn spec_file_color(&self, name: Seq<char>) -> Seq<char> {
        match str_lookup(self.colors.files.wellknown@, name) {
            Some(c) => c,
            None => match spec_find_item(self.colors.files.extensions@, name) {
                Some(c) => c,
                None => self.colors.files.default@,
            },
        }
    }

    /// The icon chosen for a directory name: a well-known name, or the
    /// directory category's default icon.
    pub open spec fn spec_dir_icon(&self, name: Seq<char>) -> Seq<char> {
        match str_lookup(self.icons.directories.wellknown@, name) {
            Some(icon) => icon,
            None => self.icons.directories.default@,
        }
    }

    /// The glyph printed for a directory name.
    pub open spec fn spec_dir_glyph(&self, name: Seq<char>) -> Seq<char> {
        match str_lookup(self.glyphs@, self.spec_dir_icon(name)) {
            Some(g) => g,
            None => Seq::empty(),
        }
    }

    /// The colour chosen for a directory name: a well-known name, or the
    /// directory category's default colour.
    pub open spec fn spec_dir_color(&self, name: Seq<char>) -> Seq<char> {
        match str_lookup(self.colors.directories.wellknown@, name) {
            Some(c) => c,
            None => self.colors.directories.default@,
        }
    }

    /// The glyph for a folded extension group.
    pub fn get_associated_ext_glyph(&self, ext: &str) -> (r: &String)
        requires
            self.wf(),
        ensures
            r@ == self.spec_ext_glyph(ext@),
    {
        let icon: &String;
        if let Some(ic) = self.icons.files.extensions.get(ext) {
            icon = ic;
            proof {
                lemma_str_lookup_is_value(self.icons.files.extensions@, ext@, ic@);
            }
        } else {
            icon = &self.icons.files.default;
        }
        self.glyphs.get(icon.as_str()).unwrap()
    }

    /// The colour for a folded extension group.
    pub fn get_associated_ext_color(&self, ext: &str) -> (r: &String)
        ensures
            r@ == self.spec_ext_color(ext@),
    {
        if let Some(color) = self.colors.files.extensions.get(ext) {
            color
        } else {
            &self.colors.files.default
        }
    }

    /// The glyph for a file name.
    pub fn get_associated_file_glyph(&self, filename: &str) -> (r: &String)
        requires
            self.wf(),
        ensures
            r@ == self.spec_file_glyph(filename@),
    {
        let icon: &String;
        if let Some(ic) = self.icons.files.wellknown.get(filename) {
            icon = ic;
            proof {
                lemma_str_lookup_is_value(self.icons.files.wellknown@, filename@, ic@);
            }
        } else if let Some(ic) = find_item_from_extension(&self.icons.files.extensions, filename) {
            icon = ic;
            proof {
                lemma_find_item_is_value(self.icons.files.extensions@, filename@, ic@);
            }
        } else {
            icon = &self.icons.files.default;
        }
        self.glyphs.get(icon.as_str()).unwrap()
    }

    /// The colour for a file name.
    pub fn get_associated_file_color(&self, filename: &str) -> (r: &String)
        ensures
            r@ == self.spec_file_color(filename@),
    {
        if let Some(color) = self.colors.files.wellknown.get(filename) {
            color
        } else if let Some(color) = find_item_from_extension(
            &self.colors.files.extensions,
            filename,
        ) {
            color
        } else {
            &self.colors.files.default
        }
    }

    /// The glyph for a directory name.
    pub fn get_associated_dir_glyph(&self, filename: &str) -> (r: &String)
        requires
            self.wf(),
        ensures
            r@ == self.spec_dir_glyph(filename@),
    {
        let icon: &String;
        if let Some(ic) = self.icons.directories.wellknown.get(filename) {
            icon = ic;
            proof {
                lemma_str_lookup_is_value(self.icons.directories.wellknown@, filename@, ic@);
            }
        } else {
            icon = &self.icons.directories.default;
        }
        self.glyphs.get(icon.as_str()).unwrap()
    }

    /// The colour for a directory name.
    pub fn get_associated_dir_color(&self, filename: &str) -> (r: &String)
        ensures
            r@ == self.spec_dir_color(filename@),
    {
        if let Some(color) = self.colors.directories.wellknown.get(filename) {
            color
        } else {
            &self.colors.directories.default
        }
    }

    /// Whether a filter is configured at all.
    pub fn is_filtered(&self) -> (r: bool)
        ensures
            r == (self.filter_pattern() is Some),
    {
        self.args.filter.is_some()
    }

    /// Applies the configured filter to a file name.
    pub fn is_file_valid(&self, name: &str) -> (r: bool)
        ensures
            r == self.spec_file_valid(name@),
    {
        match &self.args.filter {
            Some(gm) => glob_match::glob_match(gm.as_str(), name),
            _ => true,
        }
    }

    /// Whether a directory path ends with an entry of the ignore list.
    pub fn is_dir_ignored(&self, path: &Vec<String>) -> (r: bool)
        ensures
            r == self.spec_dir_ignored(path.deep_view()),
    {
        let n: usize = self.settings.ignored_dirs.len();
        let mut i: usize = 0;
        while i < n
            invariant
                n == self.ignored_list().len(),
                0 <= i <= n,
                forall|j: int|
                    0 <= j < i ==> !is_component_suffix(
                        #[trigger] self.ignored_list()[j],
                        path.deep_view(),
                    ),
            decreases n - i,
        {
            if suffix_matches(&self.settings.ignored_dirs[i], path) {
                proof {
                    assert(self.ignored_list()[i as int]
                        == self.settings.ignored_dirs@[i as int].deep_view());
                }
                return true;
            }
            proof {
                assert(self.ignored_list()[i as int]
                    == self.settings.ignored_dirs@[i as int].deep_view());
            }
            i += 1;
        }
        false
    }
}

} // verus!
