//! The pipeline's two compute stages: the crawler, which turns a directory
//! tree into a stream of discovery events (files first, then subdirectories,
//! each with its sibling position), and the orderer, which turns discovery
//! events into render directives, deferring each non-ignored directory until
//! a filter-passing file confirms it has visible content.
use vstd::prelude::*;
use crate::counter::{cnt_lookup, cnt_update, lemma_cnt_update_bounds, lemma_cnt_update_lookup, Counter};
use crate::settings::Config;
use crate::text::{ext_of, extension_of, str_eq};

verus! {

/// One discovered file, by name.
pub struct FileInfo {
    pub name: String,
}

/// The file batch of one directory listing: the file names, the listing's
/// depth, and how many subdirectories follow the files in the listing.
pub struct FilesInfo {
    pub files: Vec<FileInfo>,
    pub depth: usize,
    pub dir_count: usize,
}

/// One discovered directory with its structural flags.
pub struct DirectoryInfo {
    pub depth: usize,
    pub is_last: bool,
    pub is_ignored: bool,
    pub name: String,
}

/// A discovery event: a directory's file batch, or a subdirectory.
pub enum IOEvent {
    FilesListed(FilesInfo),
    DirectoryStarted(DirectoryInfo),
}

/// The mathematical shadow of `DirectoryInfo`.
pub struct GDirInfo {
    pub depth: int,
    pub is_last: bool,
    pub is_ignored: bool,
    pub name: Seq<char>,
}

/// The mathematical shadow of `IOEvent`.
pub enum GEvent {
    Files { names: Seq<Seq<char>>, depth: int, dir_count: int },
    Dir { info: GDirInfo },
}

impl View for FileInfo {
    type V = Seq<char>;

    open spec fn view(&self) -> Seq<char> {
        self.name@
    }
}

impl DeepView for FileInfo {
    type V = Seq<char>;

    open spec fn deep_view(&self) -> Seq<char> {
        self.name@
    }
}

impl View for DirectoryInfo {
    type V = GDirInfo;

    open spec fn view(&self) -> GDirInfo {
        GDirInfo {
            depth: self.depth as int,
            is_last: self.is_last,
            is_ignored: self.is_ignored,
            name: self.name@,
        }
    }
}

impl DeepView for DirectoryInfo {
    type V = GDirInfo;

    open spec fn deep_view(&self) -> GDirInfo {
        self@
    }
}

impl View for IOEvent {
    type V = GEvent;

    open spec fn view(&self) -> GEvent {
        match self {
            IOEvent::FilesListed(f) => GEvent::Files {
                names: f.files.deep_view(),
                depth: f.depth as int,
                dir_count: f.dir_count as int,
            },
            IOEvent::DirectoryStarted(d) => GEvent::Dir { info: d@ },
        }
    }
}

impl DeepView for IOEvent {
    type V = GEvent;

    open spec fn deep_view(&self) -> GEvent {
        self@
    }
}

/// A directory of the in-memory tree the crawler walks: file names and named
/// subdirectories, in enumeration order.
pub struct DirTree {
    pub files: Vec<String>,
    pub subdirs: Vec<Subdir>,
}

/// A named subdirectory.
pub struct Subdir {
    pub name: String,
    pub tree: DirTree,
}

/// The height of a tree: one more than the tallest subdirectory.
pub open spec fn tree_height(t: DirTree) -> nat
    decreases t, t.subdirs@.len() + 1,
{
    1 + subdirs_height(t, 0)
}

/// The tallest height among the subdirectories from index `i` on.
pub open spec fn subdirs_height(t: DirTree, i: int) -> nat
    decreases t, t.subdirs@.len() - i,
{
    if i < 0 || i >= t.subdirs@.len() {
        0
    } else {
        let h = tree_height(t.subdirs@[i].tree);
        let rest = subdirs_height(t, i + 1);
        if h > rest {
            h
        } else {
            rest
        }
    }
}

/// Every subdirectory is strictly lower than its parent.
proof fn lemma_subdir_height(t: DirTree, i: int)
    requires
        0 <= i < t.subdirs@.len(),
    ensures
        tree_height(t.subdirs@[i].tree) < tree_height(t),
{
    lemma_subdirs_height_ge(t, 0, i);
}

proof fn lemma_subdirs_height_ge(t: DirTree, j: int, i: int)
    requires
        0 <= j <= i < t.subdirs@.len(),
    ensures
        subdirs_height(t, j) >= tree_height(t.subdirs@[i].tree),
    decreases i - j,
{
    if j < i {
        lemma_subdirs_height_ge(t, j + 1, i);
    }
}

/// The events a depth-first walk of `t` produces: the file batch of `t`
/// first, then, for each subdirectory in order, its discovery event followed
/// — when it is not ignored — by the events of its own subtree.
pub open spec fn crawl_spec(t: DirTree, path: Seq<Seq<char>>, depth: int, c: Config) -> Seq<
    GEvent,
>
    decreases t, t.subdirs@.len() + 1,
{
    seq![
        GEvent::Files {
            names: t.files.deep_view(),
            depth: depth,
            dir_count: t.subdirs@.len() as int,
        },
    ] + crawl_dirs_spec(t, path, depth, c, 0)
}

/// The events produced for the subdirectories of `t` from index `i` on.
pub open spec fn crawl_dirs_spec(
    t: DirTree,
    path: Seq<Seq<char>>,
    depth: int,
    c: Config,
    i: int,
) -> Seq<GEvent>
    decreases t, t.subdirs@.len() - i,
{
    if i < 0 || i >= t.subdirs@.len() {
        Seq::empty()
    } else {
        let sd = t.subdirs@[i];
        let child_path = path.push(sd.name@);
        let ig = c.spec_dir_ignored(child_path);
        seq![
            GEvent::Dir {
                info: GDirInfo {
                    depth: depth,
                    is_last: i == t.subdirs@.len() - 1,
                    is_ignored: ig,
                    name: sd.name@,
                },
            },
        ] + (if ig {
            Seq::empty()
        } else {
            crawl_spec(sd.tree, child_path, depth + 1, c)
        }) + crawl_dirs_spec(t, path, depth, c, i + 1)
    }
}

/// Whether every directory listing in the tree is small enough for its
/// files to be counted in an `i32`.
pub open spec fn tree_batches_small(t: DirTree) -> bool
    decreases t, t.subdirs@.len() + 1,
{
    t.files@.len() <= i32::MAX && subdirs_batches_small(t, 0)
}

/// Whether the subtrees from index `i` on have small listings throughout.
pub open spec fn subdirs_batches_small(t: DirTree, i: int) -> bool
    decreases t, t.subdirs@.len() - i,
{
    if i < 0 || i >= t.subdirs@.len() {
        true
    } else {
        tree_batches_small(t.subdirs@[i].tree) && subdirs_batches_small(t, i + 1)
    }
}

/// Whether every file batch of an event stream is small enough to count.
pub open spec fn batches_small(es: Seq<GEvent>) -> bool {
    forall|k: int|
        0 <= k < es.len() ==> (match #[trigger] es[k] {
            GEvent::Files { names, .. } => names.len() <= i32::MAX,
            GEvent::Dir { .. } => true,
        })
}

/// A crawl over a tree with small listings produces only small batches.
pub proof fn lemma_crawl_small(t: DirTree, path: Seq<Seq<char>>, depth: int, c: Config)
    requires
        tree_batches_small(t),
    ensures
        batches_small(crawl_spec(t, path, depth, c)),
    decreases t, t.subdirs@.len() + 1,
{
    lemma_crawl_dirs_small(t, path, depth, c, 0);
    let es = crawl_spec(t, path, depth, c);
    let tail = crawl_dirs_spec(t, path, depth, c, 0);
    assert forall|k: int|
        0 <= k < es.len() implies (match #[trigger] es[k] {
        GEvent::Files { names, .. } => names.len() <= i32::MAX,
        GEvent::Dir { .. } => true,
    }) by {
        if k > 0 {
            assert(es[k] == tail[k - 1]);
        }
    }
}

/// The subdirectory walk from index `i` produces only small batches.
proof fn lemma_crawl_dirs_small(t: DirTree, path: Seq<Seq<char>>, depth: int, c: Config, i: int)
    requires
        subdirs_batches_small(t, i),
    ensures
        batches_small(crawl_dirs_spec(t, path, depth, c, i)),
    decreases t, t.subdirs@.len() - i,
{
    if 0 <= i < t.subdirs@.len() {
        let sd = t.subdirs@[i];
        let child_path = path.push(sd.name@);
        let ig = c.spec_dir_ignored(child_path);
        let sub = if ig {
            Seq::<GEvent>::empty()
        } else {
            crawl_spec(sd.tree, child_path, depth + 1, c)
        };
        if !ig {
            lemma_crawl_small(sd.tree, child_path, depth + 1, c);
        }
        lemma_crawl_dirs_small(t, path, depth, c, i + 1);
        let rest = crawl_dirs_spec(t, path, depth, c, i + 1);
        let es = crawl_dirs_spec(t, path, depth, c, i);
        assert forall|k: int|
            0 <= k < es.len() implies (match #[trigger] es[k] {
            GEvent::Files { names, .. } => names.len() <= i32::MAX,
            GEvent::Dir { .. } => true,
        }) by {
            if k == 0 {
            } else if k < 1 + sub.len() {
                assert(es[k] == sub[k - 1]);
            } else {
                assert(es[k] == rest[k - 1 - sub.len()]);
            }
        }
    }
}

/// Whether every folded-group directive of a stream carries a positive
/// count.
pub open spec fn folded_counts_positive(items: Seq<GRenderItem>) -> bool {
    forall|l: int|
        0 <= l < items.len() ==> (match (#[trigger] items[l]).payload {
            GPayload::Folded { count, .. } => count >= 1,
            GPayload::File { .. } => true,
            GPayload::Dir { .. } => true,
        })
}

/// Folded groups inherit their counts from the extension counts, which are
/// positive.
proof fn lemma_group_items_positive(
    counts: Seq<(Seq<char>, int)>,
    c: Config,
    names: Seq<Seq<char>>,
    depth: int,
    dir_count: int,
)
    requires
        forall|l: int| 0 <= l < counts.len() ==> 1 <= (#[trigger] counts[l]).1,
    ensures
        folded_counts_positive(group_items(counts, c, names, depth, dir_count)),
    decreases counts.len(),
{
    if counts.len() > 0 {
        lemma_group_items_positive(counts.drop_first(), c, names, depth, dir_count);
        let out = group_items(counts, c, names, depth, dir_count);
        let rest = group_items(counts.drop_first(), c, names, depth, dir_count);
        assert forall|l: int|
            0 <= l < out.len() implies (match (#[trigger] out[l]).payload {
            GPayload::Folded { count, .. } => count >= 1,
            GPayload::File { .. } => true,
            GPayload::Dir { .. } => true,
        }) by {
            if counts[0].1 >= c.spec_fold_threshold() {
                if l > 0 {
                    assert(out[l] == rest[l - 1]);
                }
            } else {
                assert(out[l] == rest[l]);
            }
        }
    }
}

/// Individual file directives carry no folded group at all.
proof fn lemma_file_items_positive(
    c: Config,
    names: Seq<Seq<char>>,
    depth: int,
    dir_count: int,
    j: int,
    folding: bool,
)
    ensures
        folded_counts_positive(file_items(c, names, depth, dir_count, j, folding)),
    decreases names.len() - j,
{
    if !(j < 0 || j >= names.len()) {
        lemma_file_items_positive(c, names, depth, dir_count, j + 1, folding);
        let out = file_items(c, names, depth, dir_count, j, folding);
        let rest = file_items(c, names, depth, dir_count, j + 1, folding);
        assert forall|l: int|
            0 <= l < out.len() implies (match (#[trigger] out[l]).payload {
            GPayload::Folded { count, .. } => count >= 1,
            GPayload::File { .. } => true,
            GPayload::Dir { .. } => true,
        }) by {
            if c.spec_file_valid(names[j]) && !(folding && is_folded_name(c, names, names[j])) {
                if l > 0 {
                    assert(out[l] == rest[l - 1]);
                }
            } else {
                assert(out[l] == rest[l]);
            }
        }
    }
}

/// Every directive a step emits keeps folded counts positive.
#[verifier::rlimit(50)]
proof fn lemma_step_positive(c: Config, q: Seq<GDirInfo>, e: GEvent)
    ensures
        folded_counts_positive(step_spec(c, q, e).1),
{
    match e {
        GEvent::Dir { info } => {
            let out = step_spec(c, q, e).1;
            if info.is_ignored {
                assert(out.len() == 1);
                assert(out[0].payload == (GPayload::Dir { name: info.name }));
            } else {
                assert(out.len() == 0);
            }
            assert(folded_counts_positive(out));
        },
        GEvent::Files { names, depth, dir_count } => {
            if valid_count(c, names, names.len() as int) == 0 {
                assert(step_spec(c, q, e).1 =~= Seq::<GRenderItem>::empty());
                assert(folded_counts_positive(step_spec(c, q, e).1));
            } else {
                let counts = ext_counts(c, names, names.len() as int);
                lemma_ext_counts_bounds(c, names, names.len() as int);
                lemma_group_items_positive(counts, c, names, depth, dir_count);
                lemma_file_items_positive(c, names, depth, dir_count, 0, true);
                lemma_file_items_positive(c, names, depth, dir_count, 0, false);
                let out = step_spec(c, q, e).1;
                let flushed = q.map(|i: int, p: GDirInfo| flush_item(p));
                let batch = batch_items(c, names, depth, dir_count);
                assert forall|l: int|
                    0 <= l < out.len() implies (match (#[trigger] out[l]).payload {
                    GPayload::Folded { count, .. } => count >= 1,
                    GPayload::File { .. } => true,
                    GPayload::Dir { .. } => true,
                }) by {
                    if l >= flushed.len() {
                        assert(out[l] == batch[l - flushed.len()]);
                        if fold_active(c, names) {
                            let groups = group_items(counts, c, names, depth, dir_count);
                            if l - flushed.len() < groups.len() {
                                assert(batch[l - flushed.len()] == groups[l - flushed.len()]);
                            } else {
                                assert(batch[l - flushed.len()] == file_items(
                                    c,
                                    names,
                                    depth,
                                    dir_count,
                                    0,
                                    true,
                                )[l - flushed.len() - groups.len()]);
                            }
                        } else {
                            assert(batch[l - flushed.len()] == file_items(
                                c,
                                names,
                                depth,
                                dir_count,
                                0,
                                false,
                            )[l - flushed.len()]);
                        }
                    } else {
                        assert(out[l] == flushed[l]);
                    }
                }
                assert(folded_counts_positive(out));
            }
        },
    }
}

/// Every directive the orderer ever emits keeps folded counts positive.
pub proof fn lemma_run_positive(c: Config, es: Seq<GEvent>, q: Seq<GDirInfo>)
    ensures
        folded_counts_positive(run_spec(c, es, q)),
    decreases es.len(),
{
    if es.len() > 0 {
        lemma_step_positive(c, q, es[0]);
        lemma_run_positive(c, es.drop_first(), step_spec(c, q, es[0]).0);
        let out = run_spec(c, es, q);
        let head = step_spec(c, q, es[0]).1;
        let rest = run_spec(c, es.drop_first(), step_spec(c, q, es[0]).0);
        assert forall|l: int|
            0 <= l < out.len() implies (match (#[trigger] out[l]).payload {
            GPayload::Folded { count, .. } => count >= 1,
            GPayload::File { .. } => true,
            GPayload::Dir { .. } => true,
        }) by {
            if l < head.len() {
                assert(out[l] == head[l]);
            } else {
                assert(out[l] == rest[l - head.len()]);
            }
        }
    }
}

/// Copies a path, component for component.
fn clone_path(src: &Vec<String>) -> (r: Vec<String>)
    ensures
        r@ == src@,
{
    let n: usize = src.len();
    let mut r: Vec<String> = Vec::new();
    let mut i: usize = 0;
    while i < n
        invariant
            n == src@.len(),
            0 <= i <= n,
            r@.len() == i,
            forall|l: int| 0 <= l < i ==> #[trigger] r@[l] == src@[l],
        decreases n - i,
    {
        r.push(src[i].clone());
        i += 1;
    }
    proof {
        assert(r@ =~= src@);
    }
    r
}

/// Walks a directory tree depth-first and appends one event per entry to
/// `tx_io`: the file batch first, then each subdirectory, recursing into the
/// subdirectories that are not ignored.
#[verifier::loop_isolation(false)]
pub fn list_files(
    path: &Vec<String>,
    tree: &DirTree,
    config: &Config,
    depth: usize,
    tx_io: &mut Vec<IOEvent>,
)
    requires
        depth + tree_height(*tree) <= usize::MAX,
    ensures
        final(tx_io).deep_view() == old(tx_io).deep_view() + crawl_spec(
            *tree,
            path.deep_view(),
            depth as int,
            *config,
        ),
    decreases tree_height(*tree),
{
    let ghost start = tx_io.deep_view();
    let ghost pathv = path.deep_view();
    let nf: usize = tree.files.len();
    let mut files: Vec<FileInfo> = Vec::new();
    let mut j: usize = 0;
    while j < nf
        invariant
            nf == tree.files@.len(),
            0 <= j <= nf,
            files@.len() == j,
            forall|l: int| 0 <= l < j ==> (#[trigger] files@[l]).name@ == tree.files@[l]@,
        decreases nf - j,
    {
        files.push(FileInfo { name: tree.files[j].clone() });
        j += 1;
    }
    proof {
        assert(files.deep_view() =~~= tree.files.deep_view());
    }
    let ghost files_event = GEvent::Files {
        names: tree.files.deep_view(),
        depth: depth as int,
        dir_count: tree.subdirs@.len() as int,
    };
    tx_io.push(IOEvent::FilesListed(FilesInfo { files, depth, dir_count: tree.subdirs.len() }));

    let nd: usize = tree.subdirs.len();
    let mut i: usize = 0;
    proof {
        assert(tx_io.deep_view() =~= start + seq![files_event]);
        assert(tx_io.deep_view() + crawl_dirs_spec(*tree, pathv, depth as int, *config, 0)
            =~= start + crawl_spec(*tree, pathv, depth as int, *config));
    }
    while i < nd
        invariant
            nd == tree.subdirs@.len(),
            0 <= i <= nd,
            depth + tree_height(*tree) <= usize::MAX,
            tx_io.deep_view() + crawl_dirs_spec(*tree, pathv, depth as int, *config, i as int)
                == start + crawl_spec(*tree, pathv, depth as int, *config),
        decreases nd - i,
    {
        let ghost before = tx_io.deep_view();
        let mut child_path: Vec<String> = clone_path(path);
        child_path.push(tree.subdirs[i].name.clone());
        proof {
            assert(child_path.deep_view() =~~= pathv.push(tree.subdirs@[i as int].name@));
        }
        let is_ignored: bool = config.is_dir_ignored(&child_path);
        let is_last: bool = i + 1 == nd;
        tx_io.push(
            IOEvent::DirectoryStarted(
                DirectoryInfo { depth, is_last, is_ignored, name: tree.subdirs[i].name.clone() },
            ),
        );
        let ghost dir_event = GEvent::Dir {
            info: GDirInfo {
                depth: depth as int,
                is_last: i as int == tree.subdirs@.len() - 1,
                is_ignored: is_ignored,
                name: tree.subdirs@[i as int].name@,
            },
        };
        proof {
            assert(tx_io.deep_view() =~= before + seq![dir_event]);
        }
        if !is_ignored {
            proof {
                lemma_subdir_height(*tree, i as int);
            }
            list_files(&child_path, &tree.subdirs[i].tree, config, depth + 1, tx_io);
        }
        proof {
            let sub_events = if is_ignored {
                Seq::<GEvent>::empty()
            } else {
                crawl_spec(
                    tree.subdirs@[i as int].tree,
                    pathv.push(tree.subdirs@[i as int].name@),
                    depth as int + 1,
                    *config,
                )
            };
            assert(tx_io.deep_view() =~= before + seq![dir_event] + sub_events);
            assert(crawl_dirs_spec(*tree, pathv, depth as int, *config, i as int) =~= seq![
                dir_event,
            ] + sub_events + crawl_dirs_spec(*tree, pathv, depth as int, *config, i as int + 1));
            assert(tx_io.deep_view() + crawl_dirs_spec(
                *tree,
                pathv,
                depth as int,
                *config,
                i as int + 1,
            ) =~= before + crawl_dirs_spec(*tree, pathv, depth as int, *config, i as int));
        }
        i += 1;
    }
    proof {
        assert(crawl_dirs_spec(*tree, pathv, depth as int, *config, nd as int)
            =~= Seq::<GEvent>::empty());
        assert(tx_io.deep_view() =~= tx_io.deep_view() + Seq::<GEvent>::empty());
    }
}

/// The name carried by a file or directory directive.
pub struct FileRenderItem {
    pub name: String,
}

/// A folded run of same-extension files: the extension and how many files
/// it stands for.
pub struct FoldedRenderItem {
    pub ext: String,
    pub count: i32,
}

/// What a render directive shows: a file, a directory, or a folded group.
pub enum RenderType {
    File(FileRenderItem),
    Dir(FileRenderItem),
    Folded(FoldedRenderItem),
}

/// One finalized render directive: payload plus the structural flags the
/// renderer needs.
pub struct RenderItem {
    pub item: RenderType,
    pub is_last: bool,
    pub is_leaf: bool,
    pub depth: usize,
}

/// The mathematical shadow of `RenderType`.
pub enum GPayload {
    File { name: Seq<char> },
    Dir { name: Seq<char> },
    Folded { ext: Seq<char>, count: int },
}

/// The mathematical shadow of `RenderItem`.
pub struct GRenderItem {
    pub payload: GPayload,
    pub depth: int,
    pub is_last: bool,
    pub is_leaf: bool,
}

impl View for RenderItem {
    type V = GRenderItem;

    open spec fn view(&self) -> GRenderItem {
        GRenderItem {
            payload: match &self.item {
                RenderType::File(f) => GPayload::File { name: f.name@ },
                RenderType::Dir(d) => GPayload::Dir { name: d.name@ },
                RenderType::Folded(s) => GPayload::Folded { ext: s.ext@, count: s.count as int },
            },
            depth: self.depth as int,
            is_last: self.is_last,
            is_leaf: self.is_leaf,
        }
    }
}

impl DeepView for RenderItem {
    type V = GRenderItem;

    open spec fn deep_view(&self) -> GRenderItem {
        self@
    }
}

/// How many of the first `j` file names pass the filter.
pub open spec fn valid_count(c: Config, names: Seq<Seq<char>>, j: int) -> int
    decreases j,
{
    if j <= 0 {
        0
    } else {
        valid_count(c, names, j - 1) + if c.spec_file_valid(names[j - 1]) {
            1int
        } else {
            0int
        }
    }
}

/// The per-extension counts over the filter-passing files among the first
/// `j` names, keyed in order of first appearance.
pub open spec fn ext_counts(c: Config, names: Seq<Seq<char>>, j: int) -> Seq<(Seq<char>, int)>
    decreases j,
{
    if j <= 0 {
        Seq::empty()
    } else {
        let prev = ext_counts(c, names, j - 1);
        if c.spec_file_valid(names[j - 1]) {
            match ext_of(names[j - 1]) {
                Some(e) => cnt_update(prev, e, 1),
                None => prev,
            }
        } else {
            prev
        }
    }
}

/// How many filter-passing files of a batch carry extension `e`.
pub open spec fn ext_total(c: Config, names: Seq<Seq<char>>, e: Seq<char>) -> int {
    match cnt_lookup(ext_counts(c, names, names.len() as int), e) {
        Some(n) => n,
        None => 0,
    }
}

/// Whether a batch folds at all: folding is on and enough files pass the
/// filter to reach the threshold.
pub open spec fn fold_active(c: Config, names: Seq<Seq<char>>) -> bool {
    !c.spec_unfold() && valid_count(c, names, names.len() as int) >= c.spec_fold_threshold()
}

/// Whether a file name disappears into a folded group.
pub open spec fn is_folded_name(c: Config, names: Seq<Seq<char>>, name: Seq<char>) -> bool {
    match ext_of(name) {
        Some(e) => ext_total(c, names, e) >= c.spec_fold_threshold(),
        None => false,
    }
}

/// Whether the batch's folded group for extension `e` contains the entry
/// that is last among all the directory's children.
pub open spec fn group_is_last(
    c: Config,
    names: Seq<Seq<char>>,
    dir_count: int,
    e: Seq<char>,
) -> bool {
    dir_count == 0 && names.len() > 0 && c.spec_file_valid(names.last()) && ext_of(names.last())
        == Some(e)
}

/// One folded-group directive per counted extension that reaches the
/// threshold, in first-appearance order.
pub open spec fn group_items(
    counts: Seq<(Seq<char>, int)>,
    c: Config,
    names: Seq<Seq<char>>,
    depth: int,
    dir_count: int,
) -> Seq<GRenderItem>
    decreases counts.len(),
{
    if counts.len() == 0 {
        Seq::empty()
    } else {
        let rest = group_items(counts.drop_first(), c, names, depth, dir_count);
        if counts[0].1 >= c.spec_fold_threshold() {
            seq![
                GRenderItem {
                    payload: GPayload::Folded { ext: counts[0].0, count: counts[0].1 },
                    depth: depth,
                    is_last: group_is_last(c, names, dir_count, counts[0].0),
                    is_leaf: true,
                },
            ] + rest
        } else {
            rest
        }
    }
}

/// One file directive per filter-passing, unfolded file, in listing order;
/// a file is the last sibling when it closes a listing with no
/// subdirectories.
pub open spec fn file_items(
    c: Config,
    names: Seq<Seq<char>>,
    depth: int,
    dir_count: int,
    j: int,
    folding: bool,
) -> Seq<GRenderItem>
    decreases names.len() - j,
{
    if j < 0 || j >= names.len() {
        Seq::empty()
    } else {
        let rest = file_items(c, names, depth, dir_count, j + 1, folding);
        if c.spec_file_valid(names[j]) && !(folding && is_folded_name(c, names, names[j])) {
            seq![
                GRenderItem {
                    payload: GPayload::File { name: names[j] },
                    depth: depth,
                    is_last: dir_count == 0 && j == names.len() - 1,
                    is_leaf: true,
                },
            ] + rest
        } else {
            rest
        }
    }
}

/// The directives of one file batch: folded groups first (when folding is
/// active), then the remaining individual files.
pub open spec fn batch_items(
    c: Config,
    names: Seq<Seq<char>>,
    depth: int,
    dir_count: int,
) -> Seq<GRenderItem> {
    if fold_active(c, names) {
        group_items(ext_counts(c, names, names.len() as int), c, names, depth, dir_count)
            + file_items(c, names, depth, dir_count, 0, true)
    } else {
        file_items(c, names, depth, dir_count, 0, false)
    }
}

/// The pending entries that survive the arrival of a directory at `depth`:
/// those strictly shallower, in order.
pub open spec fn evict_spec(q: Seq<GDirInfo>, depth: int) -> Seq<GDirInfo>
    decreases q.len(),
{
    if q.len() == 0 {
        Seq::empty()
    } else {
        evict_spec(q.drop_last(), depth) + if q.last().depth < depth {
            seq![q.last()]
        } else {
            Seq::empty()
        }
    }
}

/// The directive a flushed pending directory turns into: its leaf flag
/// comes from its own ignored and last-sibling state.
pub open spec fn flush_item(d: GDirInfo) -> GRenderItem {
    GRenderItem {
        payload: GPayload::Dir { name: d.name },
        depth: d.depth,
        is_last: d.is_last,
        is_leaf: d.is_ignored && d.is_last,
    }
}

/// One orderer step: the pending queue and the directives produced by one
/// incoming event.
///
/// A directory event first evicts every pending entry at its depth or
/// deeper; an ignored directory is emitted at once as a leaf, any other
/// directory becomes pending. A file batch with no filter-passing file does
/// nothing; one with a filter-passing file flushes the whole pending queue
/// in arrival order and then emits the batch's own directives.
pub open spec fn step_spec(c: Config, q: Seq<GDirInfo>, e: GEvent) -> (Seq<GDirInfo>, Seq<
    GRenderItem,
>) {
    match e {
        GEvent::Dir { info: d } => {
            let kept = evict_spec(q, d.depth);
            if d.is_ignored {
                (
                    kept,
                    seq![
                        GRenderItem {
                            payload: GPayload::Dir { name: d.name },
                            depth: d.depth,
                            is_last: d.is_last,
                            is_leaf: true,
                        },
                    ],
                )
            } else {
                (kept.push(d), Seq::empty())
            }
        },
        GEvent::Files { names, depth, dir_count } => {
            if valid_count(c, names, names.len() as int) == 0 {
                (q, Seq::empty())
            } else {
                (
                    Seq::empty(),
                    q.map(|i: int, p: GDirInfo| flush_item(p)) + batch_items(
                        c,
                        names,
                        depth,
                        dir_count,
                    ),
                )
            }
        },
    }
}

/// The directives an event stream produces, step by step, from an initial
/// pending queue; pending directories left at the end are dropped.
pub open spec fn run_spec(c: Config, es: Seq<GEvent>, q: Seq<GDirInfo>) -> Seq<GRenderItem>
    decreases es.len(),
{
    if es.len() == 0 {
        Seq::empty()
    } else {
        step_spec(c, q, es[0]).1 + run_spec(c, es.drop_first(), step_spec(c, q, es[0]).0)
    }
}

/// Every count in `ext_counts` over `j` files lies between 1 and `j`.
proof fn lemma_ext_counts_bounds(c: Config, names: Seq<Seq<char>>, j: int)
    requires
        0 <= j,
    ensures
        forall|l: int|
            0 <= l < ext_counts(c, names, j).len() ==> 1 <= (#[trigger] ext_counts(
                c,
                names,
                j,
            )[l]).1 <= j,
    decreases j,
{
    if j > 0 {
        lemma_ext_counts_bounds(c, names, j - 1);
        if c.spec_file_valid(names[j - 1]) {
            match ext_of(names[j - 1]) {
                Some(e) => {
                    lemma_cnt_update_bounds(ext_counts(c, names, j - 1), e, j - 1);
                },
                None => {},
            }
        }
    }
}

/// Once a filter-passing file with extension `e` has been counted, the
/// counts keep a binding for `e`.
proof fn lemma_ext_counts_contains(
    c: Config,
    names: Seq<Seq<char>>,
    j: int,
    m: int,
    e: Seq<char>,
)
    requires
        0 <= j < m,
        c.spec_file_valid(names[j]),
        ext_of(names[j]) == Some(e),
    ensures
        cnt_lookup(ext_counts(c, names, m), e) is Some,
    decreases m,
{
    if m == j + 1 {
        lemma_cnt_update_lookup(ext_counts(c, names, j), e, 1, e);
    } else {
        lemma_ext_counts_contains(c, names, j, m - 1, e);
        if c.spec_file_valid(names[m - 1]) {
            match ext_of(names[m - 1]) {
                Some(e2) => {
                    lemma_cnt_update_lookup(ext_counts(c, names, m - 1), e2, 1, e);
                },
                None => {},
            }
        }
    }
}

/// Empties a queue, returning its entries in reverse order.
#[verifier::loop_isolation(false)]
fn drain_reversed(q: &mut Vec<DirectoryInfo>) -> (r: Vec<DirectoryInfo>)
    ensures
        final(q)@.len() == 0,
        r@.len() == old(q)@.len(),
        forall|l: int| 0 <= l < r@.len() ==> r@[l] == old(q)@[old(q)@.len() - 1 - l],
{
    let ghost n0 = q@.len();
    let mut r: Vec<DirectoryInfo> = Vec::new();
    while q.len() > 0
        invariant
            q@.len() + r@.len() == n0,
            q@ =~= old(q)@.take(q@.len() as int),
            forall|l: int| 0 <= l < r@.len() ==> r@[l] == old(q)@[n0 - 1 - l],
        decreases q.len(),
    {
        let x = q.pop().unwrap();
        proof {
            assert(q@ =~= old(q)@.take(q@.len() as int));
        }
        r.push(x);
    }
    r
}

/// Scans one file batch: for each file, whether it passes the filter and
/// what its extension is; also how many pass.
fn scan_batch(config: &Config, fs: &FilesInfo) -> (r: (Vec<bool>, Vec<Option<String>>, usize))
    ensures
        r.0@.len() == fs.files@.len(),
        r.1@.len() == fs.files@.len(),
        forall|l: int|
            0 <= l < fs.files@.len() ==> r.0@[l] == config.spec_file_valid(
                #[trigger] fs.files.deep_view()[l],
            ),
        forall|l: int|
            0 <= l < fs.files@.len() ==> ext_matches(#[trigger] r.1@[l], fs.files.deep_view()[l]),
        r.2 == valid_count(*config, fs.files.deep_view(), fs.files@.len() as int),
{
    let ghost namesv = fs.files.deep_view();
    let n: usize = fs.files.len();
    let mut valid: Vec<bool> = Vec::new();
    let mut exts: Vec<Option<String>> = Vec::new();
    let mut vc: usize = 0;
    let mut j: usize = 0;
    while j < n
        invariant
            n == namesv.len(),
            namesv == fs.files.deep_view(),
            0 <= j <= n,
            valid@.len() == j,
            exts@.len() == j,
            forall|l: int|
                0 <= l < j ==> valid@[l] == config.spec_file_valid(#[trigger] namesv[l]),
            forall|l: int| 0 <= l < j ==> ext_matches(#[trigger] exts@[l], namesv[l]),
            vc == valid_count(*config, namesv, j as int),
            vc <= j,
        decreases n - j,
    {
        proof {
            assert(namesv[j as int] == fs.files@[j as int].name@);
        }
        let v: bool = config.is_file_valid(fs.files[j].name.as_str());
        valid.push(v);
        if v {
            vc += 1;
        }
        exts.push(extension_of(fs.files[j].name.as_str()));
        j += 1;
    }
    (valid, exts, vc)
}

/// Emits the folded-group directives of a batch, in first-appearance order
/// of their extensions.
#[verifier::loop_isolation(false)]
fn emit_groups(
    config: &Config,
    fs: &FilesInfo,
    valid: &Vec<bool>,
    exts: &Vec<Option<String>>,
    counter: &Counter,
    tx_render: &mut Vec<RenderItem>,
)
    requires
        valid@.len() == fs.files@.len(),
        exts@.len() == fs.files@.len(),
        forall|l: int|
            0 <= l < fs.files@.len() ==> valid@[l] == config.spec_file_valid(
                #[trigger] fs.files.deep_view()[l],
            ),
        forall|l: int|
            0 <= l < fs.files@.len() ==> ext_matches(
                #[trigger] exts@[l],
                fs.files.deep_view()[l],
            ),
        counter@ == ext_counts(*config, fs.files.deep_view(), fs.files@.len() as int),
    ensures
        final(tx_render).deep_view() == old(tx_render).deep_view() + group_items(
            counter@,
            *config,
            fs.files.deep_view(),
            fs.depth as int,
            fs.dir_count as int,
        ),
{
    let ghost namesv = fs.files.deep_view();
    let ghost depthv = fs.depth as int;
    let ghost dcv = fs.dir_count as int;
    let ghost counts = counter@;
    let ghost out0 = tx_render.deep_view();
    let n: usize = fs.files.len();
    let threshold: usize = config.settings.extensions_fold_count;
    proof {
        lemma_ext_counts_bounds(*config, namesv, n as int);
        assert(counts.skip(0) =~= counts);
    }
    let entries = counter.iter();
    let ng: usize = entries.len();
    let mut g: usize = 0;
    while g < ng
        invariant
            ng == counts.len(),
            0 <= g <= ng,
            tx_render.deep_view() + group_items(counts.skip(g as int), *config, namesv, depthv, dcv)
                == out0 + group_items(counts, *config, namesv, depthv, dcv),
        decreases ng - g,
    {
        proof {
            assert(counts[g as int] == (entries@[g as int].0@, entries@[g as int].1 as int));
            assert(counts.skip(g as int)[0] == counts[g as int]);
            assert(counts.skip(g as int).drop_first() =~= counts.skip(g as int + 1));
        }
        let cnt: i32 = entries[g].1;
        if cnt as usize >= threshold {
            let last_in_group: bool = fs.dir_count == 0 && n > 0 && valid[n - 1] && (
            match &exts[n - 1] {
                Some(le) => str_eq(le.as_str(), entries[g].0.as_str()),
                None => false,
            });
            proof {
                assert(namesv.last() == namesv[n - 1]);
                assert(last_in_group == group_is_last(*config, namesv, dcv, counts[g as int].0));
            }
            let ghost before = tx_render.deep_view();
            tx_render.push(
                RenderItem {
                    item: RenderType::Folded(
                        FoldedRenderItem { ext: entries[g].0.clone(), count: cnt },
                    ),
                    depth: fs.depth,
                    is_leaf: true,
                    is_last: last_in_group,
                },
            );
            proof {
                assert(tx_render.deep_view() =~= before + seq![
                    GRenderItem {
                        payload: GPayload::Folded {
                            ext: counts[g as int].0,
                            count: counts[g as int].1,
                        },
                        depth: depthv,
                        is_last: group_is_last(*config, namesv, dcv, counts[g as int].0),
                        is_leaf: true,
                    },
                ]);
            }
        }
        g += 1;
    }
    proof {
        assert(counts.skip(ng as int) =~= Seq::<(Seq<char>, int)>::empty());
        assert(tx_render.deep_view() =~= tx_render.deep_view() + group_items(
            counts.skip(ng as int),
            *config,
            namesv,
            depthv,
            dcv,
        ));
    }
}

/// Emits the individual file directives of a batch: every filter-passing
/// file that no folded group swallowed, in listing order.
#[verifier::loop_isolation(false)]
fn emit_files(
    config: &Config,
    fs: &FilesInfo,
    valid: &Vec<bool>,
    exts: &Vec<Option<String>>,
    counter: Option<&Counter>,
    tx_render: &mut Vec<RenderItem>,
)
    requires
        valid@.len() == fs.files@.len(),
        exts@.len() == fs.files@.len(),
        forall|l: int|
            0 <= l < fs.files@.len() ==> valid@[l] == config.spec_file_valid(
                #[trigger] fs.files.deep_view()[l],
            ),
        forall|l: int|
            0 <= l < fs.files@.len() ==> ext_matches(
                #[trigger] exts@[l],
                fs.files.deep_view()[l],
            ),
        match counter {
            Some(cn) => cn@ == ext_counts(*config, fs.files.deep_view(), fs.files@.len() as int),
            None => true,
        },
    ensures
        final(tx_render).deep_view() == old(tx_render).deep_view() + file_items(
            *config,
            fs.files.deep_view(),
            fs.depth as int,
            fs.dir_count as int,
            0,
            counter is Some,
        ),
{
    let ghost namesv = fs.files.deep_view();
    let ghost depthv = fs.depth as int;
    let ghost dcv = fs.dir_count as int;
    let ghost out0 = tx_render.deep_view();
    let ghost folding = counter is Some;
    let n: usize = fs.files.len();
    let threshold: usize = config.settings.extensions_fold_count;
    let mut j: usize = 0;
    while j < n
        invariant
            0 <= j <= n,
            tx_render.deep_view() + file_items(*config, namesv, depthv, dcv, j as int, folding)
                == out0 + file_items(*config, namesv, depthv, dcv, 0, folding),
        decreases n - j,
    {
        if valid[j] {
            let folded: bool = match counter {
                Some(cn) => {
                    match &exts[j] {
                        Some(e) => {
                            proof {
                                lemma_ext_counts_contains(*config, namesv, j as int, n as int, e@);
                                lemma_ext_counts_bounds(*config, namesv, n as int);
                                lemma_cnt_lookup_in_bounds(cn@, e@, n as int);
                            }
                            match cn.get(e) {
                                Some(cv) => cv as usize >= threshold,
                                None => false,
                            }
                        },
                        None => false,
                    }
                },
                None => false,
            };
            proof {
                assert(folded == (folding && is_folded_name(*config, namesv, namesv[j as int])));
            }
            if !folded {
                let ghost before = tx_render.deep_view();
                tx_render.push(
                    RenderItem {
                        item: RenderType::File(FileRenderItem { name: fs.files[j].name.clone() }),
                        depth: fs.depth,
                        is_leaf: true,
                        is_last: fs.dir_count == 0 && j + 1 == n,
                    },
                );
                proof {
                    assert(namesv[j as int] == fs.files@[j as int].name@);
                    assert(tx_render.deep_view() =~= before + seq![
                        GRenderItem {
                            payload: GPayload::File { name: namesv[j as int] },
                            depth: depthv,
                            is_last: dcv == 0 && j as int == namesv.len() - 1,
                            is_leaf: true,
                        },
                    ]);
                }
            }
        }
        j += 1;
    }
}

/// Emits the directives of one file batch: folded groups first when folding
/// is active, then the remaining individual files.
#[verifier::loop_isolation(false)]
fn emit_batch(
    config: &Config,
    fs: &FilesInfo,
    valid: &Vec<bool>,
    exts: &Vec<Option<String>>,
    vc: usize,
    tx_render: &mut Vec<RenderItem>,
)
    requires
        fs.files@.len() <= i32::MAX as int,
        valid@.len() == fs.files@.len(),
        exts@.len() == fs.files@.len(),
        forall|l: int|
            0 <= l < fs.files@.len() ==> valid@[l] == config.spec_file_valid(
                #[trigger] fs.files.deep_view()[l],
            ),
        forall|l: int|
            0 <= l < fs.files@.len() ==> ext_matches(
                #[trigger] exts@[l],
                fs.files.deep_view()[l],
            ),
        vc == valid_count(*config, fs.files.deep_view(), fs.files@.len() as int),
    ensures
        final(tx_render).deep_view() == old(tx_render).deep_view() + batch_items(
            *config,
            fs.files.deep_view(),
            fs.depth as int,
            fs.dir_count as int,
        ),
{
    let ghost namesv = fs.files.deep_view();
    let n: usize = fs.files.len();
    let threshold: usize = config.settings.extensions_fold_count;
    let folding: bool = !config.args.unfold && vc >= threshold;
    proof {
        assert(folding == fold_active(*config, namesv));
    }
    if folding {
        let mut counter = Counter::new();
        let mut j: usize = 0;
        proof {
            assert(counter@ =~= ext_counts(*config, namesv, 0));
        }
        while j < n
            invariant
                0 <= j <= n,
                counter@ == ext_counts(*config, namesv, j as int),
            decreases n - j,
        {
            if valid[j] {
                match &exts[j] {
                    Some(e) => {
                        proof {
                            lemma_ext_counts_bounds(*config, namesv, j as int);
                            lemma_cnt_lookup_in_bounds(counter@, e@, j as int);
                        }
                        counter.inc(e);
                    },
                    None => {},
                }
            }
            j += 1;
        }
        emit_groups(config, fs, valid, exts, &counter, tx_render);
        emit_files(config, fs, valid, exts, Some(&counter), tx_render);
    } else {
        emit_files(config, fs, valid, exts, None, tx_render);
    }
}

/// One orderer step, executably: feeds one event through the pending queue
/// and appends the produced directives to `tx_render`.
#[verifier::loop_isolation(false)]
#[verifier::rlimit(60)]
pub fn compute_step(
    config: &Config,
    uncommitted: &mut Vec<DirectoryInfo>,
    event: IOEvent,
    tx_render: &mut Vec<RenderItem>,
)
    requires
        match event {
            IOEvent::FilesListed(f) => f.files@.len() <= i32::MAX as int,
            IOEvent::DirectoryStarted(_) => true,
        },
    ensures
        final(uncommitted).deep_view() == step_spec(
            *config,
            old(uncommitted).deep_view(),
            event@,
        ).0,
        final(tx_render).deep_view() == old(tx_render).deep_view() + step_spec(
            *config,
            old(uncommitted).deep_view(),
            event@,
        ).1,
{
    let ghost q0e = uncommitted@;
    let ghost q0 = uncommitted.deep_view();
    let ghost out0 = tx_render.deep_view();
    match event {
        IOEvent::DirectoryStarted(ds) => {
            let ghost dv = ds@;
            let mut rev = drain_reversed(uncommitted);
            proof {
                assert(uncommitted.deep_view() =~= evict_spec(q0.take(0), dv.depth));
            }
            while rev.len() > 0
                invariant
                    rev@.len() <= q0e.len(),
                    forall|l: int| 0 <= l < rev@.len() ==> rev@[l] == q0e[q0e.len() - 1 - l],
                    uncommitted.deep_view() == evict_spec(
                        q0.take(q0e.len() - rev@.len()),
                        dv.depth,
                    ),
                decreases rev.len(),
            {
                let ghost k = q0e.len() - rev@.len();
                let x = rev.pop().unwrap();
                proof {
                    assert(x == q0e[k]);
                    assert(x@ == q0[k]);
                    assert(q0.take(k + 1).drop_last() =~= q0.take(k));
                    assert(q0.take(k + 1).last() == q0[k]);
                }
                if x.depth < ds.depth {
                    let ghost before = uncommitted.deep_view();
                    uncommitted.push(x);
                    proof {
                        assert(uncommitted.deep_view() =~= before + seq![q0[k]]);
                    }
                } else {
                    proof {
                        assert(evict_spec(q0.take(k + 1), dv.depth) =~= evict_spec(
                            q0.take(k),
                            dv.depth,
                        ));
                    }
                }
            }
            proof {
                assert(q0.take(q0e.len() as int) =~= q0);
            }
            if ds.is_ignored {
                let ghost before = tx_render.deep_view();
                tx_render.push(
                    RenderItem {
                        item: RenderType::Dir(FileRenderItem { name: ds.name }),
                        depth: ds.depth,
                        is_leaf: true,
                        is_last: ds.is_last,
                    },
                );
                proof {
                    assert(tx_render.deep_view() =~= before + step_spec(*config, q0, event@).1);
                }
            } else {
                let ghost before = uncommitted.deep_view();
                uncommitted.push(ds);
                proof {
                    assert(uncommitted.deep_view() =~= before.push(dv));
                }
            }
        },
        IOEvent::FilesListed(fs) => {
            let (valid, exts, vc) = scan_batch(config, &fs);
            if vc == 0 {
                proof {
                    assert(step_spec(*config, q0, event@).0 == q0);
                    assert(tx_render.deep_view() =~= out0 + step_spec(*config, q0, event@).1);
                }
                return ;
            }
            // A filter-passing file exists: flush the whole pending queue in
            // arrival order, then emit the batch's own directives.
            let mut rev = drain_reversed(uncommitted);
            proof {
                assert(tx_render.deep_view() =~= out0 + q0.take(0).map(
                    |i: int, p: GDirInfo| flush_item(p),
                ));
            }
            while rev.len() > 0
                invariant
                    rev@.len() <= q0e.len(),
                    forall|l: int| 0 <= l < rev@.len() ==> rev@[l] == q0e[q0e.len() - 1 - l],
                    uncommitted@.len() == 0,
                    tx_render.deep_view() == out0 + q0.take(q0e.len() - rev@.len()).map(
                        |i: int, p: GDirInfo| flush_item(p),
                    ),
                decreases rev.len(),
            {
                let ghost k = q0e.len() - rev@.len();
                let d = rev.pop().unwrap();
                proof {
                    assert(d == q0e[k]);
                    assert(d@ == q0[k]);
                }
                let ghost before = tx_render.deep_view();
                tx_render.push(
                    RenderItem {
                        item: RenderType::Dir(FileRenderItem { name: d.name }),
                        depth: d.depth,
                        is_leaf: d.is_ignored && d.is_last,
                        is_last: d.is_last,
                    },
                );
                proof {
                    assert(tx_render.deep_view() =~= before + seq![flush_item(q0[k])]);
                    assert(q0.take(k + 1).map(|i: int, p: GDirInfo| flush_item(p)) =~= q0.take(
                        k,
                    ).map(|i: int, p: GDirInfo| flush_item(p)) + seq![flush_item(q0[k])]);
                }
            }
            proof {
                assert(q0.take(q0e.len() as int) =~= q0);
            }
            emit_batch(config, &fs, &valid, &exts, vc, tx_render);
            proof {
                assert(uncommitted.deep_view() =~= Seq::<GDirInfo>::empty());
                assert(tx_render.deep_view() =~= out0 + step_spec(*config, q0, event@).1);
            }
        },
    }
}

/// Whether a recorded extension agrees with the specification's extension
/// of a name.
pub open spec fn ext_matches(e: Option<String>, name: Seq<char>) -> bool {
    match e {
        Some(x) => ext_of(name) == Some(x@),
        None => ext_of(name) is None,
    }
}

/// A lookup in counts bounded by `b` returns at most `b`.
proof fn lemma_cnt_lookup_in_bounds(s: Seq<(Seq<char>, int)>, key: Seq<char>, b: int)
    requires
        forall|l: int| 0 <= l < s.len() ==> 1 <= (#[trigger] s[l]).1 <= b,
    ensures
        match cnt_lookup(s, key) {
            Some(c) => 1 <= c <= b,
            None => true,
        },
    decreases s.len(),
{
    if s.len() > 0 && s[0].0 != key {
        lemma_cnt_lookup_in_bounds(s.drop_first(), key, b);
    }
}

/// Drains an event stream through the orderer: the pending queue starts
/// empty, every event is processed in arrival order, and the pending
/// directories left at the end are dropped.
#[verifier::loop_isolation(false)]
pub fn compute(config: &Config, rx_io: Vec<IOEvent>) -> (tx_render: Vec<RenderItem>)
    requires
        forall|k: int|
            0 <= k < rx_io@.len() ==> (match #[trigger] rx_io@[k] {
                IOEvent::FilesListed(f) => f.files@.len() <= i32::MAX as int,
                IOEvent::DirectoryStarted(_) => true,
            }),
    ensures
        tx_render.deep_view() == run_spec(*config, rx_io.deep_view(), Seq::empty()),
{
    let ghost orig = rx_io.deep_view();
    let mut events = rx_io;
    let mut uncommitted: Vec<DirectoryInfo> = Vec::new();
    let mut out: Vec<RenderItem> = Vec::new();
    proof {
        assert(uncommitted.deep_view() =~= Seq::<GDirInfo>::empty());
        assert(out.deep_view() =~= Seq::<GRenderItem>::empty());
    }
    while events.len() > 0
        invariant
            forall|k: int|
                0 <= k < events@.len() ==> (match #[trigger] events@[k] {
                    IOEvent::FilesListed(f) => f.files@.len() <= i32::MAX as int,
                    IOEvent::DirectoryStarted(_) => true,
                }),
            out.deep_view() + run_spec(*config, events.deep_view(), uncommitted.deep_view())
                == run_spec(*config, orig, Seq::empty()),
        decreases events.len(),
    {
        let ghost evs = events.deep_view();
        let e = events.remove(0);
        proof {
            assert(events.deep_view() =~= evs.drop_first());
            assert(e@ == evs[0]);
        }
        compute_step(config, &mut uncommitted, e, &mut out);
    }
    proof {
        assert(events.deep_view() =~= Seq::<GEvent>::empty());
    }
    out
}

} // verus!
