//! The library's general laws, stated over the pipeline's specification
//! functions and proved once and for all.
use vstd::prelude::*;
use crate::counter::{cnt_lookup, cnt_update, lemma_cnt_update_lookup};
use crate::crawler::{
    batch_items, crawl_dirs_spec, crawl_spec, evict_spec, ext_counts, ext_total, file_items,
    flush_item, fold_active, group_items, is_folded_name, run_spec, step_spec, valid_count,
    DirTree, GDirInfo, GEvent, GPayload, GRenderItem,
};
use crate::text::ext_of;
use crate::renderer::render_all;
use crate::settings::Config;

verus! {

/// How many entries of a flag sequence are set.
pub open spec fn count_trues(flags: Seq<bool>) -> int
    decreases flags.len(),
{
    if flags.len() == 0 {
        0
    } else {
        count_trues(flags.drop_last()) + if flags.last() {
            1int
        } else {
            0int
        }
    }
}

/// The last-sibling flags the crawler assigns to one directory's direct
/// children, files first and subdirectories after, exactly as `crawl_spec`
/// and `file_items` compute them: a file is last when it closes a listing
/// with no subdirectories, a subdirectory when it is the final one.
pub open spec fn child_last_flags(t: DirTree) -> Seq<bool> {
    Seq::new(
        t.files@.len(),
        |j: int| j == t.files@.len() - 1 && t.subdirs@.len() == 0,
    ) + Seq::new(t.subdirs@.len(), |i: int| i == t.subdirs@.len() - 1)
}

/// A flag sequence that is false everywhere but at its end counts exactly
/// one set flag.
proof fn lemma_count_single_true(flags: Seq<bool>)
    requires
        flags.len() > 0,
        flags.last(),
        forall|l: int| 0 <= l < flags.len() - 1 ==> !flags[l],
    ensures
        count_trues(flags) == 1,
    decreases flags.len(),
{
    lemma_count_all_false(flags.drop_last());
}

/// A flag sequence with no set flag counts zero.
proof fn lemma_count_all_false(flags: Seq<bool>)
    requires
        forall|l: int| 0 <= l < flags.len() ==> !flags[l],
    ensures
        count_trues(flags) == 0,
    decreases flags.len(),
{
    if flags.len() > 0 {
        lemma_count_all_false(flags.drop_last());
    }
}

/// Among the direct children of a non-empty directory, exactly one carries
/// the last-sibling flag, and it is the child enumerated last. An empty
/// listing has no child to flag, so the law speaks only of non-empty ones.
pub proof fn lemma_one_last_sibling(t: DirTree)
    requires
        t.files@.len() + t.subdirs@.len() > 0,
    ensures
        child_last_flags(t).len() == t.files@.len() + t.subdirs@.len(),
        child_last_flags(t).last(),
        forall|l: int| 0 <= l < child_last_flags(t).len() - 1 ==> !child_last_flags(t)[l],
        count_trues(child_last_flags(t)) == 1,
{
    let flags = child_last_flags(t);
    let nf = t.files@.len() as int;
    let nd = t.subdirs@.len() as int;
    assert(flags.last() == flags[nf + nd - 1]);
    if nd == 0 {
        assert(flags[nf - 1]);
    } else {
        assert(flags[nf + nd - 1]);
    }
    assert forall|l: int| 0 <= l < flags.len() - 1 implies !flags[l] by {
        if l < nf {
            assert(flags[l] == (l == nf - 1 && nd == 0));
        } else {
            assert(flags[l] == (l - nf == nd - 1));
        }
    }
    lemma_count_single_true(flags);
}

/// The crawler really assigns these flags: the discovery event of the
/// `i`-th subdirectory carries the corresponding flag of `child_last_flags`.
pub proof fn lemma_dir_event_flag(t: DirTree, path: Seq<Seq<char>>, depth: int, c: Config, i: int)
    requires
        0 <= i < t.subdirs@.len(),
    ensures
        crawl_dirs_spec(t, path, depth, c, i)[0] matches GEvent::Dir { info } && info.is_last
            == child_last_flags(t)[t.files@.len() + i],
{
    assert(child_last_flags(t)[t.files@.len() + i] == (i == t.subdirs@.len() - 1));
}

/// The orderer passes these flags through: the directive emitted for the
/// `j`-th file of a listing (when it is neither filtered out nor folded)
/// carries the corresponding flag of `child_last_flags`.
pub proof fn lemma_file_item_flag(t: DirTree, c: Config, depth: int, j: int, folding: bool)
    requires
        0 <= j < t.files@.len(),
        c.spec_file_valid(t.files.deep_view()[j]),
        !(folding && is_folded_name(c, t.files.deep_view(), t.files.deep_view()[j])),
    ensures
        file_items(
            c,
            t.files.deep_view(),
            depth,
            t.subdirs@.len() as int,
            j,
            folding,
        )[0] == (GRenderItem {
            payload: GPayload::File { name: t.files.deep_view()[j] },
            depth: depth,
            is_last: child_last_flags(t)[j],
            is_leaf: true,
        }),
{
    assert(child_last_flags(t)[j] == (j == t.files@.len() - 1 && t.subdirs@.len() == 0));
}

/// An ignored directory is always emitted at once, as one directive that is
/// a leaf, whatever the pending queue holds.
pub proof fn lemma_ignored_dir_is_leaf(c: Config, q: Seq<GDirInfo>, d: GDirInfo)
    requires
        d.is_ignored,
    ensures
        step_spec(c, q, GEvent::Dir { info: d }).1.len() == 1,
        step_spec(c, q, GEvent::Dir { info: d }).1[0].is_leaf,
        step_spec(c, q, GEvent::Dir { info: d }).1[0].payload == (GPayload::Dir { name: d.name }),
        step_spec(c, q, GEvent::Dir { info: d }).1[0].is_last == d.is_last,
        step_spec(c, q, GEvent::Dir { info: d }).1[0].depth == d.depth,
{
}

/// When a filter-passing file confirms the pending directories, they are
/// all flushed, in the order they became pending, before any of the batch's
/// own directives.
pub proof fn lemma_flush_is_fifo(c: Config, q: Seq<GDirInfo>, names: Seq<Seq<char>>, depth: int, dir_count: int)
    requires
        crate::crawler::valid_count(c, names, names.len() as int) > 0,
    ensures
        step_spec(c, q, GEvent::Files { names, depth, dir_count }).1 == q.map(
            |i: int, p: GDirInfo| flush_item(p),
        ) + batch_items(c, names, depth, dir_count),
        step_spec(c, q, GEvent::Files { names, depth, dir_count }).0 == Seq::<GDirInfo>::empty(),
        forall|l: int|
            0 <= l < q.len() ==> step_spec(c, q, GEvent::Files { names, depth, dir_count }).1[l]
                == flush_item(q[l]),
{
    let out = step_spec(c, q, GEvent::Files { names, depth, dir_count }).1;
    assert forall|l: int| 0 <= l < q.len() implies out[l] == flush_item(q[l]) by {
        assert(out[l] == q.map(|i: int, p: GDirInfo| flush_item(p))[l]);
    }
}

/// How many of the first `j` names pass the filter and carry extension `e`.
pub open spec fn valid_ext_count(c: Config, names: Seq<Seq<char>>, j: int, e: Seq<char>) -> int
    decreases j,
{
    if j <= 0 {
        0
    } else {
        valid_ext_count(c, names, j - 1, e) + if c.spec_file_valid(names[j - 1]) && ext_of(
            names[j - 1],
        ) == Some(e) {
            1int
        } else {
            0int
        }
    }
}

/// How many folded-group directives of a stream carry extension `e`.
pub open spec fn count_folded_with_ext(items: Seq<GRenderItem>, e: Seq<char>) -> int
    decreases items.len(),
{
    if items.len() == 0 {
        0
    } else {
        count_folded_with_ext(items.drop_first(), e) + if items[0].payload matches
            GPayload::Folded { ext: xe, .. } && xe == e {
            1int
        } else {
            0int
        }
    }
}

/// How many file directives of a stream name a file with extension `e`.
pub open spec fn count_files_with_ext(items: Seq<GRenderItem>, e: Seq<char>) -> int
    decreases items.len(),
{
    if items.len() == 0 {
        0
    } else {
        count_files_with_ext(items.drop_first(), e) + if items[0].payload matches GPayload::File {
            name,
        } && ext_of(name) == Some(e) {
            1int
        } else {
            0int
        }
    }
}

/// Whether an association list binds no key twice.
pub open spec fn keys_distinct(s: Seq<(Seq<char>, int)>) -> bool {
    forall|i: int, j: int| 0 <= i < j < s.len() ==> (#[trigger] s[i]).0 != (#[trigger] s[j]).0
}

/// A lookup misses exactly when no entry carries the key.
proof fn lemma_cnt_lookup_none(s: Seq<(Seq<char>, int)>, key: Seq<char>)
    ensures
        (cnt_lookup(s, key) is None) <==> (forall|l: int|
            0 <= l < s.len() ==> (#[trigger] s[l]).0 != key),
    decreases s.len(),
{
    if s.len() > 0 {
        lemma_cnt_lookup_none(s.drop_first(), key);
        if s[0].0 != key {
            assert forall|l: int| 1 <= l < s.len() implies (#[trigger] s[l]).0
                == s.drop_first()[l - 1].0 by {}
        }
    }
}

/// `cnt_update` keeps keys distinct.
proof fn lemma_cnt_update_distinct(s: Seq<(Seq<char>, int)>, key: Seq<char>, delta: int)
    requires
        keys_distinct(s),
    ensures
        keys_distinct(cnt_update(s, key, delta)),
    decreases s.len(),
{
    let u = cnt_update(s, key, delta);
    if s.len() == 0 {
    } else if s[0].0 == key {
        assert(u =~= seq![(key, s[0].1 + delta)] + s.drop_first());
        assert forall|i: int, j: int| 0 <= i < j < u.len() implies (#[trigger] u[i]).0 != (
        #[trigger] u[j]).0 by {
            assert(u[j] == s[j]);
            if i > 0 {
                assert(u[i] == s[i]);
            }
        }
    } else {
        assert forall|i: int, j: int|
            0 <= i < j < s.drop_first().len() implies (#[trigger] s.drop_first()[i]).0 != (
        #[trigger] s.drop_first()[j]).0 by {
            assert(s.drop_first()[i] == s[i + 1]);
            assert(s.drop_first()[j] == s[j + 1]);
        }
        lemma_cnt_update_distinct(s.drop_first(), key, delta);
        let rest = cnt_update(s.drop_first(), key, delta);
        assert(u =~= seq![s[0]] + rest);
        lemma_cnt_update_lookup(s.drop_first(), key, delta, s[0].0);
        lemma_cnt_lookup_none(s.drop_first(), s[0].0);
        lemma_cnt_lookup_none(rest, s[0].0);
        assert forall|i: int, j: int| 0 <= i < j < u.len() implies (#[trigger] u[i]).0 != (
        #[trigger] u[j]).0 by {
            if i == 0 {
                assert(u[j] == rest[j - 1]);
            } else {
                assert(u[i] == rest[i - 1]);
                assert(u[j] == rest[j - 1]);
            }
        }
    }
}

/// The extension counts of a batch bind no extension twice.
proof fn lemma_ext_counts_distinct(c: Config, names: Seq<Seq<char>>, j: int)
    ensures
        keys_distinct(ext_counts(c, names, j)),
    decreases j,
{
    if j > 0 {
        lemma_ext_counts_distinct(c, names, j - 1);
        if c.spec_file_valid(names[j - 1]) {
            match ext_of(names[j - 1]) {
                Some(e) => {
                    lemma_cnt_update_distinct(ext_counts(c, names, j - 1), e, 1);
                },
                None => {},
            }
        }
    }
}

/// The count bound to an extension equals the number of filter-passing
/// files that carry it, and is absent exactly when there are none.
proof fn lemma_ext_counts_lookup(c: Config, names: Seq<Seq<char>>, j: int, e: Seq<char>)
    requires
        0 <= j,
    ensures
        valid_ext_count(c, names, j, e) >= 0,
        cnt_lookup(ext_counts(c, names, j), e) == (if valid_ext_count(c, names, j, e) > 0 {
            Some(valid_ext_count(c, names, j, e))
        } else {
            None::<int>
        }),
    decreases j,
{
    if j > 0 {
        lemma_ext_counts_lookup(c, names, j - 1, e);
        if c.spec_file_valid(names[j - 1]) {
            match ext_of(names[j - 1]) {
                Some(e2) => {
                    lemma_cnt_update_lookup(ext_counts(c, names, j - 1), e2, 1, e);
                },
                None => {},
            }
        }
    }
}

/// Whether a directive, if it is a folded group for extension `e`, carries
/// exactly the given count.
pub open spec fn folded_count_from(item: GRenderItem, e: Seq<char>, nn: Option<int>) -> bool {
    match item.payload {
        GPayload::Folded { ext, count } => ext == e ==> nn == Some(count),
        GPayload::File { .. } => true,
        GPayload::Dir { .. } => true,
    }
}

/// Group directives carry extension `e` once when its count reaches the
/// threshold, never otherwise, and always with the counted total.
proof fn lemma_group_count(
    counts: Seq<(Seq<char>, int)>,
    c: Config,
    names: Seq<Seq<char>>,
    depth: int,
    dir_count: int,
    e: Seq<char>,
)
    requires
        keys_distinct(counts),
    ensures
        count_folded_with_ext(group_items(counts, c, names, depth, dir_count), e) == (
        match cnt_lookup(counts, e) {
            Some(nn) => if nn >= c.spec_fold_threshold() {
                1int
            } else {
                0int
            },
            None => 0int,
        }),
        forall|l: int|
            0 <= l < group_items(counts, c, names, depth, dir_count).len()
                ==> folded_count_from(
                #[trigger] group_items(counts, c, names, depth, dir_count)[l],
                e,
                cnt_lookup(counts, e),
            ),
    decreases counts.len(),
{
    if counts.len() > 0 {
        assert forall|i: int, j: int|
            0 <= i < j < counts.drop_first().len() implies (#[trigger] counts.drop_first()[i]).0
            != (#[trigger] counts.drop_first()[j]).0 by {
            assert(counts.drop_first()[i] == counts[i + 1]);
            assert(counts.drop_first()[j] == counts[j + 1]);
        }
        lemma_group_count(counts.drop_first(), c, names, depth, dir_count, e);
        let out = group_items(counts, c, names, depth, dir_count);
        let rest = group_items(counts.drop_first(), c, names, depth, dir_count);
        lemma_cnt_lookup_none(counts.drop_first(), counts[0].0);
        if counts[0].1 >= c.spec_fold_threshold() {
            assert(out =~= seq![
                GRenderItem {
                    payload: GPayload::Folded { ext: counts[0].0, count: counts[0].1 },
                    depth: depth,
                    is_last: crate::crawler::group_is_last(c, names, dir_count, counts[0].0),
                    is_leaf: true,
                },
            ] + rest);
            assert(out.drop_first() =~= rest);
        } else {
            assert(out =~= rest);
        }
        assert forall|l: int|
            0 <= l < out.len() implies folded_count_from(
            #[trigger] out[l],
            e,
            cnt_lookup(counts, e),
        ) by {
            if counts[0].1 >= c.spec_fold_threshold() {
                if l > 0 {
                    assert(out[l] == rest[l - 1]);
                }
            } else {
                assert(out[l] == rest[l]);
            }
        }
    }
}

/// Group directives never show individual files.
proof fn lemma_group_no_files(
    counts: Seq<(Seq<char>, int)>,
    c: Config,
    names: Seq<Seq<char>>,
    depth: int,
    dir_count: int,
    e: Seq<char>,
)
    ensures
        count_files_with_ext(group_items(counts, c, names, depth, dir_count), e) == 0,
    decreases counts.len(),
{
    if counts.len() > 0 {
        lemma_group_no_files(counts.drop_first(), c, names, depth, dir_count, e);
        let out = group_items(counts, c, names, depth, dir_count);
        let rest = group_items(counts.drop_first(), c, names, depth, dir_count);
        if counts[0].1 >= c.spec_fold_threshold() {
            assert(out.drop_first() =~= rest);
        } else {
            assert(out =~= rest);
        }
    }
}

/// File directives never show folded groups.
proof fn lemma_files_no_groups(
    c: Config,
    names: Seq<Seq<char>>,
    depth: int,
    dir_count: int,
    j: int,
    folding: bool,
    e: Seq<char>,
)
    ensures
        count_folded_with_ext(file_items(c, names, depth, dir_count, j, folding), e) == 0,
    decreases names.len() - j,
{
    if !(j < 0 || j >= names.len()) {
        lemma_files_no_groups(c, names, depth, dir_count, j + 1, folding, e);
        let out = file_items(c, names, depth, dir_count, j, folding);
        let rest = file_items(c, names, depth, dir_count, j + 1, folding);
        if c.spec_file_valid(names[j]) && !(folding && is_folded_name(c, names, names[j])) {
            assert(out.drop_first() =~= rest);
        } else {
            assert(out =~= rest);
        }
    }
}

/// How many file directives with extension `e` the file pass emits from
/// index `j` on: none when the extension folds, otherwise every remaining
/// filter-passing file that carries it.
proof fn lemma_file_count(
    c: Config,
    names: Seq<Seq<char>>,
    depth: int,
    dir_count: int,
    j: int,
    folding: bool,
    e: Seq<char>,
)
    requires
        0 <= j <= names.len(),
    ensures
        count_files_with_ext(file_items(c, names, depth, dir_count, j, folding), e) == (if folding
            && ext_total(c, names, e) >= c.spec_fold_threshold() {
            0int
        } else {
            valid_ext_count(c, names, names.len() as int, e) - valid_ext_count(c, names, j, e)
        }),
    decreases names.len() - j,
{
    lemma_ext_counts_lookup(c, names, names.len() as int, e);
    if j == names.len() {
    } else {
        lemma_file_count(c, names, depth, dir_count, j + 1, folding, e);
        let out = file_items(c, names, depth, dir_count, j, folding);
        let rest = file_items(c, names, depth, dir_count, j + 1, folding);
        assert(valid_ext_count(c, names, j + 1, e) == valid_ext_count(c, names, j, e) + (
        if c.spec_file_valid(names[j]) && ext_of(names[j]) == Some(e) {
            1int
        } else {
            0int
        }));
        if c.spec_file_valid(names[j]) && !(folding && is_folded_name(c, names, names[j])) {
            assert(out.drop_first() =~= rest);
        } else {
            assert(out =~= rest);
        }
    }
}

/// Counting folded groups distributes over concatenation.
proof fn lemma_count_folded_concat(a: Seq<GRenderItem>, b: Seq<GRenderItem>, e: Seq<char>)
    ensures
        count_folded_with_ext(a + b, e) == count_folded_with_ext(a, e) + count_folded_with_ext(
            b,
            e,
        ),
    decreases a.len(),
{
    if a.len() == 0 {
        assert(a + b =~= b);
    } else {
        lemma_count_folded_concat(a.drop_first(), b, e);
        assert((a + b).drop_first() =~= a.drop_first() + b);
        assert((a + b)[0] == a[0]);
    }
}

/// Counting file directives distributes over concatenation.
proof fn lemma_count_files_concat(a: Seq<GRenderItem>, b: Seq<GRenderItem>, e: Seq<char>)
    ensures
        count_files_with_ext(a + b, e) == count_files_with_ext(a, e) + count_files_with_ext(b, e),
    decreases a.len(),
{
    if a.len() == 0 {
        assert(a + b =~= b);
    } else {
        lemma_count_files_concat(a.drop_first(), b, e);
        assert((a + b).drop_first() =~= a.drop_first() + b);
        assert((a + b)[0] == a[0]);
    }
}

/// The folding law, collapsed side: when folding is active and at least
/// the threshold's worth of filter-passing files share extension `e`, the
/// batch yields exactly one folded group for `e`, carrying the full count,
/// and no individual file directive with that extension.
pub proof fn lemma_fold_collapses(
    c: Config,
    names: Seq<Seq<char>>,
    depth: int,
    dir_count: int,
    e: Seq<char>,
)
    requires
        fold_active(c, names),
        valid_ext_count(c, names, names.len() as int, e) >= c.spec_fold_threshold(),
        valid_ext_count(c, names, names.len() as int, e) > 0,
    ensures
        count_folded_with_ext(batch_items(c, names, depth, dir_count), e) == 1,
        forall|l: int|
            0 <= l < batch_items(c, names, depth, dir_count).len() ==> folded_count_from(
                #[trigger] batch_items(c, names, depth, dir_count)[l],
                e,
                Some(valid_ext_count(c, names, names.len() as int, e)),
            ),
        count_files_with_ext(batch_items(c, names, depth, dir_count), e) == 0,
{
    let n = names.len() as int;
    let nn = valid_ext_count(c, names, n, e);
    let counts = ext_counts(c, names, n);
    let groups = group_items(counts, c, names, depth, dir_count);
    let files = file_items(c, names, depth, dir_count, 0, true);
    lemma_ext_counts_lookup(c, names, n, e);
    lemma_ext_counts_distinct(c, names, n);
    lemma_group_count(counts, c, names, depth, dir_count, e);
    lemma_group_no_files(counts, c, names, depth, dir_count, e);
    lemma_files_no_groups(c, names, depth, dir_count, 0, true, e);
    lemma_file_count(c, names, depth, dir_count, 0, true, e);
    lemma_count_folded_concat(groups, files, e);
    lemma_count_files_concat(groups, files, e);
    let batch = batch_items(c, names, depth, dir_count);
    assert(batch == groups + files);
    assert forall|l: int|
        0 <= l < batch.len() implies folded_count_from(#[trigger] batch[l], e, Some(nn)) by {
        if l < groups.len() {
            assert(batch[l] == groups[l]);
        } else {
            assert(batch[l] == files[l - groups.len()]);
            lemma_file_items_shape(c, names, depth, dir_count, 0, true, l - groups.len());
        }
    }
}

/// Every entry the file pass emits is a file directive.
proof fn lemma_file_items_shape(
    c: Config,
    names: Seq<Seq<char>>,
    depth: int,
    dir_count: int,
    j: int,
    folding: bool,
    l: int,
)
    requires
        0 <= l < file_items(c, names, depth, dir_count, j, folding).len(),
    ensures
        file_items(c, names, depth, dir_count, j, folding)[l].payload matches GPayload::File { .. },
    decreases names.len() - j,
{
    if !(j < 0 || j >= names.len()) {
        let out = file_items(c, names, depth, dir_count, j, folding);
        let rest = file_items(c, names, depth, dir_count, j + 1, folding);
        if c.spec_file_valid(names[j]) && !(folding && is_folded_name(c, names, names[j])) {
            if l > 0 {
                assert(out[l] == rest[l - 1]);
                lemma_file_items_shape(c, names, depth, dir_count, j + 1, folding, l - 1);
            }
        } else {
            assert(out[l] == rest[l]);
            lemma_file_items_shape(c, names, depth, dir_count, j + 1, folding, l);
        }
    }
}

/// The folding law, unfolded side: when folding is off, or fewer
/// filter-passing files than the threshold share extension `e`, the batch
/// yields no folded group for `e` and one file directive per
/// filter-passing file carrying it.
pub proof fn lemma_below_threshold_unfolded(
    c: Config,
    names: Seq<Seq<char>>,
    depth: int,
    dir_count: int,
    e: Seq<char>,
)
    requires
        !fold_active(c, names) || valid_ext_count(c, names, names.len() as int, e)
            < c.spec_fold_threshold(),
    ensures
        count_folded_with_ext(batch_items(c, names, depth, dir_count), e) == 0,
        count_files_with_ext(batch_items(c, names, depth, dir_count), e) == valid_ext_count(
            c,
            names,
            names.len() as int,
            e,
        ),
{
    let n = names.len() as int;
    let nn = valid_ext_count(c, names, n, e);
    lemma_ext_counts_lookup(c, names, n, e);
    if !fold_active(c, names) {
        lemma_files_no_groups(c, names, depth, dir_count, 0, false, e);
        lemma_file_count(c, names, depth, dir_count, 0, false, e);
    } else {
        let counts = ext_counts(c, names, n);
        let groups = group_items(counts, c, names, depth, dir_count);
        let files = file_items(c, names, depth, dir_count, 0, true);
        lemma_ext_counts_distinct(c, names, n);
        lemma_group_count(counts, c, names, depth, dir_count, e);
        lemma_group_no_files(counts, c, names, depth, dir_count, e);
        lemma_files_no_groups(c, names, depth, dir_count, 0, true, e);
        lemma_file_count(c, names, depth, dir_count, 0, true, e);
        lemma_count_folded_concat(groups, files, e);
        lemma_count_files_concat(groups, files, e);
    }
}

/// Whether an event is a file batch with at least one filter-passing file:
/// the kind of event that flushes the pending queue.
pub open spec fn is_valid_batch(c: Config, e: GEvent) -> bool {
    match e {
        GEvent::Files { names, .. } => valid_count(c, names, names.len() as int) != 0,
        GEvent::Dir { .. } => false,
    }
}

/// Whether an event evicts a pending directory at `depth`: a directory
/// event at that depth or shallower.
pub open spec fn evicts_at(e: GEvent, depth: int) -> bool {
    match e {
        GEvent::Dir { info } => info.depth <= depth,
        GEvent::Files { .. } => false,
    }
}

/// Eviction distributes over concatenation.
proof fn lemma_evict_concat(s1: Seq<GDirInfo>, s2: Seq<GDirInfo>, depth: int)
    ensures
        evict_spec(s1 + s2, depth) == evict_spec(s1, depth) + evict_spec(s2, depth),
    decreases s2.len(),
{
    if s2.len() == 0 {
        assert(s1 + s2 =~= s1);
        assert(evict_spec(s1, depth) + evict_spec(s2, depth) =~= evict_spec(s1, depth));
    } else {
        lemma_evict_concat(s1, s2.drop_last(), depth);
        assert((s1 + s2).drop_last() =~= s1 + s2.drop_last());
        assert((s1 + s2).last() == s2.last());
        if s2.last().depth < depth {
            assert(evict_spec(s1, depth) + evict_spec(s2, depth) =~= evict_spec(s1, depth)
                + evict_spec(s2.drop_last(), depth) + seq![s2.last()]);
        }
    }
}

/// Eviction keeps a queue whose entries are all strictly shallower.
proof fn lemma_evict_all_kept(s: Seq<GDirInfo>, depth: int)
    requires
        forall|l: int| 0 <= l < s.len() ==> (#[trigger] s[l]).depth < depth,
    ensures
        evict_spec(s, depth) == s,
    decreases s.len(),
{
    if s.len() > 0 {
        lemma_evict_all_kept(s.drop_last(), depth);
        assert(evict_spec(s, depth) =~= s.drop_last() + seq![s.last()]);
        assert(s.drop_last() + seq![s.last()] =~= s);
    }
}

/// Eviction empties a queue whose entries are all at the depth or deeper.
proof fn lemma_evict_none_kept(s: Seq<GDirInfo>, depth: int)
    requires
        forall|l: int| 0 <= l < s.len() ==> (#[trigger] s[l]).depth >= depth,
    ensures
        evict_spec(s, depth) == Seq::<GDirInfo>::empty(),
    decreases s.len(),
{
    if s.len() > 0 {
        lemma_evict_none_kept(s.drop_last(), depth);
        assert(evict_spec(s, depth) =~= Seq::<GDirInfo>::empty());
    } else {
        assert(evict_spec(s, depth) =~= Seq::<GDirInfo>::empty());
    }
}

/// Eviction preserves a lower bound on the entries' depths.
proof fn lemma_evict_depth_lb(s: Seq<GDirInfo>, depth: int, bound: int)
    requires
        forall|l: int| 0 <= l < s.len() ==> (#[trigger] s[l]).depth > bound,
    ensures
        forall|l: int|
            0 <= l < evict_spec(s, depth).len() ==> (#[trigger] evict_spec(s, depth)[l]).depth
                > bound,
    decreases s.len(),
{
    if s.len() > 0 {
        lemma_evict_depth_lb(s.drop_last(), depth, bound);
        let out = evict_spec(s, depth);
        let prev = evict_spec(s.drop_last(), depth);
        assert forall|l: int| 0 <= l < out.len() implies (#[trigger] out[l]).depth > bound by {
            if l < prev.len() {
                assert(out[l] == prev[l]);
            } else {
                assert(out[l] == s.last());
            }
        }
    }
}

/// Eviction of a one-entry queue keeps or drops that entry by its depth.
proof fn lemma_evict_single(x: GDirInfo, depth: int)
    ensures
        evict_spec(seq![x], depth) == (if x.depth < depth {
            seq![x]
        } else {
            Seq::<GDirInfo>::empty()
        }),
{
    assert(seq![x].drop_last() =~= Seq::<GDirInfo>::empty());
    assert(seq![x].last() == x);
    assert(evict_spec(Seq::<GDirInfo>::empty(), depth) =~= Seq::<GDirInfo>::empty());
    if x.depth < depth {
        assert(evict_spec(seq![x], depth) =~= seq![x]);
    } else {
        assert(evict_spec(seq![x], depth) =~= Seq::<GDirInfo>::empty());
    }
}

/// A pending directory that no filter-passing file confirms before its
/// eviction point leaves no trace: the orderer's output with it in the
/// queue equals the output without it. Here `a` holds the shallower
/// entries ahead of it and `b` the deeper entries behind it, as in any
/// well-formed pending queue; `es[j]` is an event that evicts it (or `j`
/// is the stream's end), and no earlier event is a confirming batch.
pub proof fn lemma_unconfirmed_dir_invisible(
    c: Config,
    es: Seq<GEvent>,
    a: Seq<GDirInfo>,
    x: GDirInfo,
    b: Seq<GDirInfo>,
    j: int,
)
    requires
        forall|l: int| 0 <= l < a.len() ==> (#[trigger] a[l]).depth < x.depth,
        forall|l: int| 0 <= l < b.len() ==> (#[trigger] b[l]).depth > x.depth,
        0 <= j <= es.len(),
        j == es.len() || evicts_at(es[j], x.depth),
        forall|k: int| 0 <= k < j ==> !is_valid_batch(c, #[trigger] es[k]),
    ensures
        run_spec(c, es, a + seq![x] + b) == run_spec(c, es, a + b),
    decreases es.len(),
{
    if es.len() == 0 {
        return ;
    }
    let e = es[0];
    let q2 = a + seq![x] + b;
    let q1 = a + b;
    match e {
        GEvent::Dir { info: d } => {
            lemma_evict_concat(a + seq![x], b, d.depth);
            lemma_evict_concat(a, seq![x], d.depth);
            lemma_evict_concat(a, b, d.depth);
            assert(q2 =~= (a + seq![x]) + b);
            if d.depth <= x.depth {
                lemma_evict_single(x, d.depth);
                lemma_evict_none_kept(b, d.depth);
                assert(evict_spec(q2, d.depth) =~= evict_spec(a, d.depth));
                assert(evict_spec(q1, d.depth) =~= evict_spec(a, d.depth));
                assert(step_spec(c, q2, e).0 == step_spec(c, q1, e).0);
                assert(step_spec(c, q2, e).1 == step_spec(c, q1, e).1);
            } else {
                lemma_evict_all_kept(a, d.depth);
                lemma_evict_single(x, d.depth);
                let b2 = evict_spec(b, d.depth);
                lemma_evict_depth_lb(b, d.depth, x.depth);
                assert(evict_spec(q2, d.depth) =~= (a + seq![x]) + b2);
                assert(evict_spec(q1, d.depth) =~= a + b2);
                assert(j >= 1) by {
                    if j == 0 {
                        assert(evicts_at(es[0], x.depth));
                    }
                }
                assert forall|k: int|
                    0 <= k < j - 1 implies !is_valid_batch(c, #[trigger] es.drop_first()[k]) by {
                    assert(es.drop_first()[k] == es[k + 1]);
                }
                if j < es.len() {
                    assert(es.drop_first()[j - 1] == es[j]);
                }
                if d.is_ignored {
                    assert(step_spec(c, q2, e).0 =~= a + seq![x] + b2);
                    assert(step_spec(c, q1, e).0 =~= a + b2);
                    lemma_unconfirmed_dir_invisible(c, es.drop_first(), a, x, b2, j - 1);
                } else {
                    assert(step_spec(c, q2, e).0 =~= a + seq![x] + b2.push(d));
                    assert(step_spec(c, q1, e).0 =~= a + b2.push(d));
                    assert forall|l: int|
                        0 <= l < b2.push(d).len() implies (#[trigger] b2.push(d)[l]).depth
                        > x.depth by {
                        if l < b2.len() {
                            assert(b2.push(d)[l] == b2[l]);
                        }
                    }
                    lemma_unconfirmed_dir_invisible(c, es.drop_first(), a, x, b2.push(d), j - 1);
                }
                assert(step_spec(c, q2, e).1 == step_spec(c, q1, e).1);
            }
        },
        GEvent::Files { names, depth: fdepth, dir_count } => {
            assert(j >= 1) by {
                if j == 0 {
                    assert(evicts_at(es[0], x.depth));
                }
            }
            assert(!is_valid_batch(c, es[0]));
            assert(valid_count(c, names, names.len() as int) == 0);
            assert(step_spec(c, q2, e).0 == q2);
            assert(step_spec(c, q1, e).0 == q1);
            assert forall|k: int|
                0 <= k < j - 1 implies !is_valid_batch(c, #[trigger] es.drop_first()[k]) by {
                assert(es.drop_first()[k] == es[k + 1]);
            }
            if j < es.len() {
                assert(es.drop_first()[j - 1] == es[j]);
            }
            lemma_unconfirmed_dir_invisible(c, es.drop_first(), a, x, b, j - 1);
        },
    }
}

/// Whether `with_x` is `without` with one directive inserted at `pos`.
pub open spec fn inserted_at(
    with_x: Seq<GRenderItem>,
    without: Seq<GRenderItem>,
    item: GRenderItem,
    pos: int,
) -> bool {
    &&& 0 <= pos <= without.len()
    &&& with_x == without.take(pos) + seq![item] + without.skip(pos)
}

/// A pending directory that a filter-passing file confirms before any
/// eviction is rendered exactly once: the orderer's output with it in the
/// queue equals the output without it, with its single directive inserted.
#[verifier::rlimit(100)]
pub proof fn lemma_confirmed_dir_emitted_once(
    c: Config,
    es: Seq<GEvent>,
    a: Seq<GDirInfo>,
    x: GDirInfo,
    b: Seq<GDirInfo>,
    j: int,
)
    requires
        forall|l: int| 0 <= l < a.len() ==> (#[trigger] a[l]).depth < x.depth,
        forall|l: int| 0 <= l < b.len() ==> (#[trigger] b[l]).depth > x.depth,
        0 <= j < es.len(),
        is_valid_batch(c, es[j]),
        forall|k: int|
            0 <= k < j ==> !is_valid_batch(c, #[trigger] es[k]) && !evicts_at(es[k], x.depth),
    ensures
        exists|pos: int|
            inserted_at(
                run_spec(c, es, a + seq![x] + b),
                run_spec(c, es, a + b),
                flush_item(x),
                pos,
            ),
    decreases es.len(),
{
    let e = es[0];
    let q2 = a + seq![x] + b;
    let q1 = a + b;
    let with_x = run_spec(c, es, q2);
    let without = run_spec(c, es, q1);
    if j == 0 {
        match e {
            GEvent::Files { names, depth: fdepth, dir_count } => {
                let fl = |i: int, p: GDirInfo| flush_item(p);
                let batch = batch_items(c, names, fdepth, dir_count);
                assert(q2.map(fl) =~= a.map(fl) + seq![flush_item(x)] + b.map(fl));
                assert(q1.map(fl) =~= a.map(fl) + b.map(fl));
                assert(step_spec(c, q2, e).0 == step_spec(c, q1, e).0);
                let rest = run_spec(c, es.drop_first(), step_spec(c, q1, e).0);
                let pos = a.len() as int;
                assert(without =~= a.map(fl) + b.map(fl) + batch + rest);
                assert(with_x =~= a.map(fl) + seq![flush_item(x)] + b.map(fl) + batch + rest);
                assert(without.take(pos) =~= a.map(fl));
                assert(without.skip(pos) =~= b.map(fl) + batch + rest);
                assert(with_x =~= without.take(pos) + seq![flush_item(x)] + without.skip(pos));
                assert(inserted_at(with_x, without, flush_item(x), pos));
            },
            GEvent::Dir { .. } => {
                assert(false);
            },
        }
    } else {
        assert(!is_valid_batch(c, es[0]));
        assert(!evicts_at(es[0], x.depth));
        assert forall|k: int|
            0 <= k < j - 1 implies !is_valid_batch(c, #[trigger] es.drop_first()[k]) && !evicts_at(
            es.drop_first()[k],
            x.depth,
        ) by {
            assert(es.drop_first()[k] == es[k + 1]);
        }
        assert(es.drop_first()[j - 1] == es[j]);
        match e {
            GEvent::Dir { info: d } => {
                assert(d.depth > x.depth);
                lemma_evict_concat(a + seq![x], b, d.depth);
                lemma_evict_concat(a, seq![x], d.depth);
                lemma_evict_concat(a, b, d.depth);
                assert(q2 =~= (a + seq![x]) + b);
                lemma_evict_all_kept(a, d.depth);
                lemma_evict_single(x, d.depth);
                let b2 = evict_spec(b, d.depth);
                lemma_evict_depth_lb(b, d.depth, x.depth);
                assert(evict_spec(q2, d.depth) =~= (a + seq![x]) + b2);
                assert(evict_spec(q1, d.depth) =~= a + b2);
                let bnext = if d.is_ignored {
                    b2
                } else {
                    b2.push(d)
                };
                if d.is_ignored {
                    assert(step_spec(c, q2, e).0 =~= a + seq![x] + bnext);
                    assert(step_spec(c, q1, e).0 =~= a + bnext);
                } else {
                    assert(step_spec(c, q2, e).0 =~= a + seq![x] + b2.push(d));
                    assert(step_spec(c, q1, e).0 =~= a + b2.push(d));
                    assert forall|l: int|
                        0 <= l < b2.push(d).len() implies (#[trigger] b2.push(d)[l]).depth
                        > x.depth by {
                        if l < b2.len() {
                            assert(b2.push(d)[l] == b2[l]);
                        }
                    }
                }
                lemma_confirmed_dir_emitted_once(c, es.drop_first(), a, x, bnext, j - 1);
                let head = step_spec(c, q1, e).1;
                assert(step_spec(c, q2, e).1 == head);
                let r2 = run_spec(c, es.drop_first(), step_spec(c, q2, e).0);
                let r1 = run_spec(c, es.drop_first(), step_spec(c, q1, e).0);
                let pos0 = choose|pos: int| inserted_at(r2, r1, flush_item(x), pos);
                let pos = head.len() + pos0;
                assert(without =~= head + r1);
                assert(without.take(pos) =~= head + r1.take(pos0));
                assert(without.skip(pos) =~= r1.skip(pos0));
                assert(with_x =~= without.take(pos) + seq![flush_item(x)] + without.skip(pos));
                assert(inserted_at(with_x, without, flush_item(x), pos));
            },
            GEvent::Files { names, depth: fdepth, dir_count } => {
                assert(valid_count(c, names, names.len() as int) == 0);
                assert(step_spec(c, q2, e).0 == q2);
                assert(step_spec(c, q1, e).0 == q1);
                lemma_confirmed_dir_emitted_once(c, es.drop_first(), a, x, b, j - 1);
                let r2 = run_spec(c, es.drop_first(), q2);
                let r1 = run_spec(c, es.drop_first(), q1);
                let pos0 = choose|pos: int| inserted_at(r2, r1, flush_item(x), pos);
                assert(with_x =~= r2);
                assert(without =~= r1);
                assert(with_x =~= without.take(pos0) + seq![flush_item(x)] + without.skip(pos0));
                assert(inserted_at(with_x, without, flush_item(x), pos0));
            },
        }
    }
}

/// Whether a sequence of subdirectory indices descends through existing,
/// non-ignored subdirectories.
pub open spec fn visible_chain(t: DirTree, path: Seq<Seq<char>>, c: Config, idxs: Seq<int>) -> bool
    decreases idxs.len(),
{
    if idxs.len() == 0 {
        true
    } else {
        let i = idxs[0];
        &&& 0 <= i < t.subdirs@.len()
        &&& !c.spec_dir_ignored(path.push(t.subdirs@[i].name@))
        &&& visible_chain(
            t.subdirs@[i].tree,
            path.push(t.subdirs@[i].name@),
            c,
            idxs.drop_first(),
        )
    }
}

/// The subtree a chain of subdirectory indices leads to.
pub open spec fn chain_tree(t: DirTree, idxs: Seq<int>) -> DirTree
    decreases idxs.len(),
{
    if idxs.len() == 0 {
        t
    } else if 0 <= idxs[0] < t.subdirs@.len() {
        chain_tree(t.subdirs@[idxs[0]].tree, idxs.drop_first())
    } else {
        t
    }
}

/// Whatever a suffix contains, the concatenation contains.
proof fn lemma_contains_right(s1: Seq<GEvent>, s2: Seq<GEvent>, e: GEvent)
    requires
        s2.contains(e),
    ensures
        (s1 + s2).contains(e),
{
    let k = choose|k: int| 0 <= k < s2.len() && s2[k] == e;
    assert((s1 + s2)[s1.len() + k] == e);
}

/// The subdirectory walk from index `j` contains every event of the
/// subtree of any later non-ignored subdirectory.
proof fn lemma_crawl_dirs_contains_subtree(
    t: DirTree,
    path: Seq<Seq<char>>,
    depth: int,
    c: Config,
    j: int,
    i: int,
    e: GEvent,
)
    requires
        0 <= j <= i < t.subdirs@.len(),
        !c.spec_dir_ignored(path.push(t.subdirs@[i].name@)),
        crawl_spec(
            t.subdirs@[i].tree,
            path.push(t.subdirs@[i].name@),
            depth + 1,
            c,
        ).contains(e),
    ensures
        crawl_dirs_spec(t, path, depth, c, j).contains(e),
    decreases i - j,
{
    if j == i {
        let sub = crawl_spec(t.subdirs@[i].tree, path.push(t.subdirs@[i].name@), depth + 1, c);
        let k = choose|k: int| 0 <= k < sub.len() && sub[k] == e;
        assert(crawl_dirs_spec(t, path, depth, c, j)[1 + k] == e);
    } else {
        lemma_crawl_dirs_contains_subtree(t, path, depth, c, j + 1, i, e);
        let rest = crawl_dirs_spec(t, path, depth, c, j + 1);
        let k = choose|k: int| 0 <= k < rest.len() && rest[k] == e;
        let sd = t.subdirs@[j];
        let ig = c.spec_dir_ignored(path.push(sd.name@));
        let sub = if ig {
            Seq::<GEvent>::empty()
        } else {
            crawl_spec(sd.tree, path.push(sd.name@), depth + 1, c)
        };
        assert(crawl_dirs_spec(t, path, depth, c, j)[1 + sub.len() + k] == e);
    }
}

/// Depth correctness: the crawl of a tree from depth `d` contains, for
/// every subtree reached through a chain of `k` non-ignored
/// subdirectories, that subtree's file batch carrying depth `d + k`. With
/// the crawl started at depth 0, an entry at nesting level `k` therefore
/// carries depth exactly `k`.
pub proof fn lemma_depth_matches_nesting(
    t: DirTree,
    path: Seq<Seq<char>>,
    depth: int,
    c: Config,
    idxs: Seq<int>,
)
    requires
        visible_chain(t, path, c, idxs),
    ensures
        crawl_spec(t, path, depth, c).contains(
            GEvent::Files {
                names: chain_tree(t, idxs).files.deep_view(),
                depth: depth + idxs.len(),
                dir_count: chain_tree(t, idxs).subdirs@.len() as int,
            },
        ),
    decreases idxs.len(),
{
    let es = crawl_spec(t, path, depth, c);
    if idxs.len() == 0 {
        assert(es[0] == GEvent::Files {
            names: t.files.deep_view(),
            depth: depth,
            dir_count: t.subdirs@.len() as int,
        });
        assert(es.contains(es[0]));
    } else {
        let i = idxs[0];
        let sd = t.subdirs@[i];
        let child_path = path.push(sd.name@);
        lemma_depth_matches_nesting(sd.tree, child_path, depth + 1, c, idxs.drop_first());
        let e = GEvent::Files {
            names: chain_tree(t, idxs).files.deep_view(),
            depth: depth + idxs.len(),
            dir_count: chain_tree(t, idxs).subdirs@.len() as int,
        };
        assert(chain_tree(sd.tree, idxs.drop_first()) == chain_tree(t, idxs));
        lemma_crawl_dirs_contains_subtree(t, path, depth, c, 0, i, e);
        lemma_contains_right(
            seq![
                GEvent::Files {
                    names: t.files.deep_view(),
                    depth: depth,
                    dir_count: t.subdirs@.len() as int,
                },
            ],
            crawl_dirs_spec(t, path, depth, c, 0),
            e,
        );
    }
}

/// Whether any file at any depth beneath `t` — ignored subtrees excluded,
/// since the crawler never enters them — passes the filter.
pub open spec fn has_valid_file(t: DirTree, path: Seq<Seq<char>>, c: Config) -> bool
    decreases t, t.subdirs@.len() + 1,
{
    valid_count(c, t.files.deep_view(), t.files@.len() as int) != 0 || subdirs_have_valid(
        t,
        path,
        c,
        0,
    )
}

/// Whether any non-ignored subdirectory from index `i` on has a
/// filter-passing file beneath it.
pub open spec fn subdirs_have_valid(t: DirTree, path: Seq<Seq<char>>, c: Config, i: int) -> bool
    decreases t, t.subdirs@.len() - i,
{
    if i < 0 || i >= t.subdirs@.len() {
        false
    } else {
        let child_path = path.push(t.subdirs@[i].name@);
        (!c.spec_dir_ignored(child_path) && has_valid_file(t.subdirs@[i].tree, child_path, c))
            || subdirs_have_valid(t, path, c, i + 1)
    }
}

/// A crawl of a subtree without filter-passing files contains no
/// confirming batch.
proof fn lemma_no_valid_no_batch(t: DirTree, path: Seq<Seq<char>>, depth: int, c: Config)
    requires
        !has_valid_file(t, path, c),
    ensures
        forall|k: int|
            0 <= k < crawl_spec(t, path, depth, c).len() ==> !is_valid_batch(
                c,
                #[trigger] crawl_spec(t, path, depth, c)[k],
            ),
    decreases t, t.subdirs@.len() + 1,
{
    lemma_no_valid_no_batch_dirs(t, path, depth, c, 0);
    let es = crawl_spec(t, path, depth, c);
    let tail = crawl_dirs_spec(t, path, depth, c, 0);
    assert forall|k: int| 0 <= k < es.len() implies !is_valid_batch(c, #[trigger] es[k]) by {
        if k > 0 {
            assert(es[k] == tail[k - 1]);
        }
    }
}

proof fn lemma_no_valid_no_batch_dirs(
    t: DirTree,
    path: Seq<Seq<char>>,
    depth: int,
    c: Config,
    i: int,
)
    requires
        !subdirs_have_valid(t, path, c, i),
    ensures
        forall|k: int|
            0 <= k < crawl_dirs_spec(t, path, depth, c, i).len() ==> !is_valid_batch(
                c,
                #[trigger] crawl_dirs_spec(t, path, depth, c, i)[k],
            ),
    decreases t, t.subdirs@.len() - i,
{
    if 0 <= i < t.subdirs@.len() {
        let sd = t.subdirs@[i];
        let child_path = path.push(sd.name@);
        let ig = c.spec_dir_ignored(child_path);
        let sub = if ig {
            Seq::<GEvent>::empty()
        } else {
            crawl_spec(sd.tree, child_path, depth + 1, c)
        };
        if !ig {
            lemma_no_valid_no_batch(sd.tree, child_path, depth + 1, c);
        }
        lemma_no_valid_no_batch_dirs(t, path, depth, c, i + 1);
        let rest = crawl_dirs_spec(t, path, depth, c, i + 1);
        let es = crawl_dirs_spec(t, path, depth, c, i);
        assert forall|k: int| 0 <= k < es.len() implies !is_valid_batch(c, #[trigger] es[k]) by {
            if k == 0 {
            } else if k < 1 + sub.len() {
                assert(es[k] == sub[k - 1]);
            } else {
                assert(es[k] == rest[k - 1 - sub.len()]);
            }
        }
    }
}

/// Every directory event of a crawl from `depth` lies at `depth` or below,
/// so none of them can evict a pending directory that is shallower.
proof fn lemma_crawl_dir_depths(t: DirTree, path: Seq<Seq<char>>, depth: int, c: Config)
    ensures
        forall|k: int|
            0 <= k < crawl_spec(t, path, depth, c).len() ==> (match #[trigger] crawl_spec(
                t,
                path,
                depth,
                c,
            )[k] {
                GEvent::Dir { info } => info.depth >= depth,
                GEvent::Files { .. } => true,
            }),
    decreases t, t.subdirs@.len() + 1,
{
    lemma_crawl_dir_depths_dirs(t, path, depth, c, 0);
    let es = crawl_spec(t, path, depth, c);
    let tail = crawl_dirs_spec(t, path, depth, c, 0);
    assert forall|k: int|
        0 <= k < es.len() implies (match #[trigger] es[k] {
        GEvent::Dir { info } => info.depth >= depth,
        GEvent::Files { .. } => true,
    }) by {
        if k > 0 {
            assert(es[k] == tail[k - 1]);
        }
    }
}

proof fn lemma_crawl_dir_depths_dirs(
    t: DirTree,
    path: Seq<Seq<char>>,
    depth: int,
    c: Config,
    i: int,
)
    ensures
        forall|k: int|
            0 <= k < crawl_dirs_spec(t, path, depth, c, i).len() ==> (match
            #[trigger] crawl_dirs_spec(t, path, depth, c, i)[k] {
                GEvent::Dir { info } => info.depth >= depth,
                GEvent::Files { .. } => true,
            }),
    decreases t, t.subdirs@.len() - i,
{
    if 0 <= i < t.subdirs@.len() {
        let sd = t.subdirs@[i];
        let child_path = path.push(sd.name@);
        let ig = c.spec_dir_ignored(child_path);
        let sub = if ig {
            Seq::<GEvent>::empty()
        } else {
            crawl_spec(sd.tree, child_path, depth + 1, c)
        };
        if !ig {
            lemma_crawl_dir_depths(sd.tree, child_path, depth + 1, c);
        }
        lemma_crawl_dir_depths_dirs(t, path, depth, c, i + 1);
        let rest = crawl_dirs_spec(t, path, depth, c, i + 1);
        let es = crawl_dirs_spec(t, path, depth, c, i);
        assert forall|k: int|
            0 <= k < es.len() implies (match #[trigger] es[k] {
            GEvent::Dir { info } => info.depth >= depth,
            GEvent::Files { .. } => true,
        }) by {
            if k == 0 {
            } else if k < 1 + sub.len() {
                assert(es[k] == sub[k - 1]);
            } else {
                assert(es[k] == rest[k - 1 - sub.len()]);
            }
        }
    }
}

/// Every entry eviction keeps is strictly shallower than the incoming
/// depth.
proof fn lemma_evict_depth_ub(s: Seq<GDirInfo>, depth: int)
    ensures
        forall|l: int|
            0 <= l < evict_spec(s, depth).len() ==> (#[trigger] evict_spec(s, depth)[l]).depth
                < depth,
    decreases s.len(),
{
    if s.len() > 0 {
        lemma_evict_depth_ub(s.drop_last(), depth);
        let out = evict_spec(s, depth);
        let prev = evict_spec(s.drop_last(), depth);
        assert forall|l: int| 0 <= l < out.len() implies (#[trigger] out[l]).depth < depth by {
            if l < prev.len() {
                assert(out[l] == prev[l]);
            } else {
                assert(out[l] == s.last());
            }
        }
    }
}

/// A pending queue ordered by strictly increasing depth, as the orderer
/// always keeps it.
pub open spec fn sorted_queue(q: Seq<GDirInfo>) -> bool {
    forall|i: int, j: int|
        0 <= i < j < q.len() ==> (#[trigger] q[i]).depth < (#[trigger] q[j]).depth
}

/// On a sorted queue, eviction keeps a prefix: the queue splits into the
/// kept shallow prefix and a dropped deep suffix.
proof fn lemma_evict_sorted_split(q: Seq<GDirInfo>, depth: int) -> (m: int)
    requires
        sorted_queue(q),
    ensures
        0 <= m <= q.len(),
        evict_spec(q, depth) == q.take(m),
        forall|l: int| 0 <= l < m ==> (#[trigger] q[l]).depth < depth,
        forall|l: int| m <= l < q.len() ==> (#[trigger] q[l]).depth >= depth,
    decreases q.len(),
{
    if q.len() == 0 {
        assert(evict_spec(q, depth) =~= q.take(0));
        0
    } else if q.last().depth < depth {
        assert forall|l: int| 0 <= l < q.len() implies (#[trigger] q[l]).depth < depth by {
            if l < q.len() - 1 {
                assert(q[l].depth < q[q.len() - 1].depth);
            }
        }
        lemma_evict_all_kept(q, depth);
        assert(q.take(q.len() as int) =~= q);
        q.len() as int
    } else {
        assert forall|i: int, j: int|
            0 <= i < j < q.drop_last().len() implies (#[trigger] q.drop_last()[i]).depth < (
        #[trigger] q.drop_last()[j]).depth by {
            assert(q.drop_last()[i] == q[i]);
            assert(q.drop_last()[j] == q[j]);
        }
        let m = lemma_evict_sorted_split(q.drop_last(), depth);
        assert(evict_spec(q, depth) =~= evict_spec(q.drop_last(), depth));
        assert(q.drop_last().take(m) =~= q.take(m));
        assert forall|l: int| 0 <= l < m implies (#[trigger] q[l]).depth < depth by {
            assert(q.drop_last()[l] == q[l]);
        }
        assert forall|l: int| m <= l < q.len() implies (#[trigger] q[l]).depth >= depth by {
            if l < q.len() - 1 {
                assert(q.drop_last()[l] == q[l]);
            }
        }
        m
    }
}

/// Pending entries at or below an eviction bound, behind which no
/// confirming batch arrives, are invisible: they can be dropped from the
/// queue without changing the output.
proof fn lemma_drop_deep_suffix(
    c: Config,
    es: Seq<GEvent>,
    a: Seq<GDirInfo>,
    r: Seq<GDirInfo>,
    bound: int,
    j: int,
)
    requires
        forall|l: int| 0 <= l < a.len() ==> (#[trigger] a[l]).depth < bound,
        forall|l: int| 0 <= l < r.len() ==> (#[trigger] r[l]).depth >= bound,
        sorted_queue(r),
        0 <= j <= es.len(),
        j == es.len() || evicts_at(es[j], bound),
        forall|k: int| 0 <= k < j ==> !is_valid_batch(c, #[trigger] es[k]),
    ensures
        run_spec(c, es, a + r) == run_spec(c, es, a),
    decreases r.len(),
{
    if r.len() > 0 {
        let x = r.last();
        let afull = a + r.drop_last();
        assert forall|l: int| 0 <= l < afull.len() implies (#[trigger] afull[l]).depth
            < x.depth by {
            if l < a.len() {
                assert(afull[l] == a[l]);
                assert(a[l].depth < bound);
                assert(x.depth >= bound);
            } else {
                assert(afull[l] == r.drop_last()[l - a.len()]);
                assert(r.drop_last()[l - a.len()] == r[l - a.len()]);
                assert(r[l - a.len()].depth < r[r.len() - 1].depth);
            }
        }
        if j < es.len() {
            assert(evicts_at(es[j], x.depth)) by {
                match es[j] {
                    GEvent::Dir { info } => {
                        assert(info.depth <= bound);
                        assert(x.depth >= bound);
                    },
                    GEvent::Files { .. } => {},
                }
            }
        }
        lemma_unconfirmed_dir_invisible(c, es, afull, x, Seq::empty(), j);
        assert(afull + seq![x] + Seq::<GDirInfo>::empty() =~= a + r);
        assert(afull + Seq::<GDirInfo>::empty() =~= afull);
        assert forall|i: int, jj: int|
            0 <= i < jj < r.drop_last().len() implies (#[trigger] r.drop_last()[i]).depth < (
        #[trigger] r.drop_last()[jj]).depth by {
            assert(r.drop_last()[i] == r[i]);
            assert(r.drop_last()[jj] == r[jj]);
        }
        assert forall|l: int| 0 <= l < r.drop_last().len() implies (
        #[trigger] r.drop_last()[l]).depth >= bound by {
            assert(r.drop_last()[l] == r[l]);
        }
        lemma_drop_deep_suffix(c, es, a, r.drop_last(), bound, j);
        assert(a + r.drop_last() =~= afull);
    } else {
        assert(a + r =~= a);
    }
}

/// The index of the first confirming batch of a stream, or its length.
pub open spec fn first_valid_idx(c: Config, es: Seq<GEvent>) -> int
    decreases es.len(),
{
    if es.len() == 0 {
        0
    } else if is_valid_batch(c, es[0]) {
        0
    } else {
        1 + first_valid_idx(c, es.drop_first())
    }
}

/// What `first_valid_idx` finds: nothing valid before it, and when a
/// confirming batch exists at all, one right there.
proof fn lemma_first_valid_idx(c: Config, es: Seq<GEvent>)
    ensures
        0 <= first_valid_idx(c, es) <= es.len(),
        forall|k: int| 0 <= k < first_valid_idx(c, es) ==> !is_valid_batch(c, #[trigger] es[k]),
        (exists|k: int| 0 <= k < es.len() && is_valid_batch(c, #[trigger] es[k]))
            ==> first_valid_idx(c, es) < es.len() && is_valid_batch(c, es[first_valid_idx(c, es)]),
    decreases es.len(),
{
    if es.len() > 0 && !is_valid_batch(c, es[0]) {
        lemma_first_valid_idx(c, es.drop_first());
        let fv = first_valid_idx(c, es.drop_first());
        assert forall|k: int|
            0 <= k < first_valid_idx(c, es) implies !is_valid_batch(c, #[trigger] es[k]) by {
            if k > 0 {
                assert(es[k] == es.drop_first()[k - 1]);
            }
        }
        if exists|k: int| 0 <= k < es.len() && is_valid_batch(c, #[trigger] es[k]) {
            let k = choose|k: int| 0 <= k < es.len() && is_valid_batch(c, #[trigger] es[k]);
            assert(es.drop_first()[k - 1] == es[k]);
            assert(es[1 + fv] == es.drop_first()[fv]);
        }
    }
}

/// A crawl of a subtree with a filter-passing file somewhere beneath it
/// contains a confirming batch.
proof fn lemma_valid_has_batch(t: DirTree, path: Seq<Seq<char>>, depth: int, c: Config)
    requires
        has_valid_file(t, path, c),
    ensures
        exists|k: int|
            0 <= k < crawl_spec(t, path, depth, c).len() && is_valid_batch(
                c,
                #[trigger] crawl_spec(t, path, depth, c)[k],
            ),
    decreases t, t.subdirs@.len() + 1,
{
    let es = crawl_spec(t, path, depth, c);
    if valid_count(c, t.files.deep_view(), t.files@.len() as int) != 0 {
        assert(is_valid_batch(c, es[0]));
    } else {
        lemma_valid_has_batch_dirs(t, path, depth, c, 0);
        let tail = crawl_dirs_spec(t, path, depth, c, 0);
        let k = choose|k: int| 0 <= k < tail.len() && is_valid_batch(c, #[trigger] tail[k]);
        assert(es[1 + k] == tail[k]);
    }
}

proof fn lemma_valid_has_batch_dirs(
    t: DirTree,
    path: Seq<Seq<char>>,
    depth: int,
    c: Config,
    i: int,
)
    requires
        subdirs_have_valid(t, path, c, i),
    ensures
        exists|k: int|
            0 <= k < crawl_dirs_spec(t, path, depth, c, i).len() && is_valid_batch(
                c,
                #[trigger] crawl_dirs_spec(t, path, depth, c, i)[k],
            ),
    decreases t, t.subdirs@.len() - i,
{
    let es = crawl_dirs_spec(t, path, depth, c, i);
    let sd = t.subdirs@[i];
    let child_path = path.push(sd.name@);
    let ig = c.spec_dir_ignored(child_path);
    let sub = if ig {
        Seq::<GEvent>::empty()
    } else {
        crawl_spec(sd.tree, child_path, depth + 1, c)
    };
    if !ig && has_valid_file(sd.tree, child_path, c) {
        lemma_valid_has_batch(sd.tree, child_path, depth + 1, c);
        let k = choose|k: int| 0 <= k < sub.len() && is_valid_batch(c, #[trigger] sub[k]);
        assert(es[1 + k] == sub[k]);
    } else {
        lemma_valid_has_batch_dirs(t, path, depth, c, i + 1);
        let rest = crawl_dirs_spec(t, path, depth, c, i + 1);
        let k = choose|k: int| 0 <= k < rest.len() && is_valid_batch(c, #[trigger] rest[k]);
        assert(es[1 + sub.len() + k] == rest[k]);
    }
}

/// A non-ignored directory with no filter-passing file anywhere beneath it
/// yields no directive at all: its discovery event can be struck from the
/// stream without changing the output. `q` is the pending queue when it is
/// discovered, `post` whatever the crawler emits after its subtree —
/// always, by the walk's shape, nothing or first a directory at its depth
/// or shallower.
pub proof fn lemma_empty_dir_yields_nothing(
    c: Config,
    x: GDirInfo,
    sub: DirTree,
    xpath: Seq<Seq<char>>,
    q: Seq<GDirInfo>,
    post: Seq<GEvent>,
)
    requires
        !x.is_ignored,
        !has_valid_file(sub, xpath, c),
        sorted_queue(q),
        post.len() == 0 || evicts_at(post[0], x.depth),
    ensures
        run_spec(c, seq![GEvent::Dir { info: x }] + crawl_spec(sub, xpath, x.depth + 1, c) + post, q)
            == run_spec(c, crawl_spec(sub, xpath, x.depth + 1, c) + post, q),
{
    let crawl = crawl_spec(sub, xpath, x.depth + 1, c);
    let tail = crawl + post;
    let full = seq![GEvent::Dir { info: x }] + tail;
    assert(seq![GEvent::Dir { info: x }] + crawl + post =~= full);
    assert(full[0] == GEvent::Dir { info: x });
    assert(full.drop_first() =~= tail);
    let a = evict_spec(q, x.depth);
    assert(run_spec(c, full, q) == run_spec(c, tail, a.push(x)));
    lemma_evict_depth_ub(q, x.depth);
    lemma_no_valid_no_batch(sub, xpath, x.depth + 1, c);
    lemma_crawl_dir_depths(sub, xpath, x.depth + 1, c);
    let j = crawl.len() as int;
    assert forall|k: int| 0 <= k < j implies !is_valid_batch(c, #[trigger] tail[k]) by {
        assert(tail[k] == crawl[k]);
    }
    if post.len() > 0 {
        assert(tail[j] == post[0]);
    }
    assert(a + seq![x] + Seq::<GDirInfo>::empty() =~= a.push(x));
    assert(a + Seq::<GDirInfo>::empty() =~= a);
    lemma_unconfirmed_dir_invisible(c, tail, a, x, Seq::empty(), j);
    // The untouched queue on the other side: its deep suffix is equally
    // invisible, evicted by `post` or dropped at the end.
    let m = lemma_evict_sorted_split(q, x.depth);
    let r = q.skip(m);
    assert(q.take(m) + r =~= q);
    assert forall|l: int| 0 <= l < r.len() implies (#[trigger] r[l]).depth >= x.depth by {
        assert(r[l] == q[m + l]);
    }
    assert forall|i: int, jj: int|
        0 <= i < jj < r.len() implies (#[trigger] r[i]).depth < (#[trigger] r[jj]).depth by {
        assert(r[i] == q[m + i]);
        assert(r[jj] == q[m + jj]);
    }
    assert forall|k: int| 0 <= k < j implies !is_valid_batch(c, #[trigger] tail[k]) by {
        assert(tail[k] == crawl[k]);
    }
    lemma_drop_deep_suffix(c, tail, a, r, x.depth, j);
    assert(run_spec(c, tail, q) == run_spec(c, tail, a));
    assert(run_spec(c, crawl + post, q) == run_spec(c, tail, q));
}

/// Whether, at position `pos`, the run over the subtree's events with the
/// pending directory in the queue shows exactly its one directive more
/// than the run without it.
pub open spec fn rendered_once_at(
    c: Config,
    x: GDirInfo,
    sub: DirTree,
    xpath: Seq<Seq<char>>,
    a: Seq<GDirInfo>,
    post: Seq<GEvent>,
    pos: int,
) -> bool {
    inserted_at(
        run_spec(c, crawl_spec(sub, xpath, x.depth + 1, c) + post, a + seq![x]),
        run_spec(c, crawl_spec(sub, xpath, x.depth + 1, c) + post, a),
        flush_item(x),
        pos,
    )
}

/// A pending, non-ignored directory whose subtree holds a filter-passing
/// file is rendered exactly once: against the queue without it, the output
/// gains its one flushed directive and nothing else. `a` is the shallower
/// pending queue ahead of it, `post` whatever follows its subtree's
/// events.
pub proof fn lemma_confirmed_pending_rendered_once(
    c: Config,
    x: GDirInfo,
    sub: DirTree,
    xpath: Seq<Seq<char>>,
    a: Seq<GDirInfo>,
    post: Seq<GEvent>,
)
    requires
        forall|l: int| 0 <= l < a.len() ==> (#[trigger] a[l]).depth < x.depth,
        has_valid_file(sub, xpath, c),
    ensures
        exists|pos: int| rendered_once_at(c, x, sub, xpath, a, post, pos),
{
    let crawl = crawl_spec(sub, xpath, x.depth + 1, c);
    let tail = crawl + post;
    lemma_valid_has_batch(sub, xpath, x.depth + 1, c);
    lemma_first_valid_idx(c, tail);
    lemma_crawl_dir_depths(sub, xpath, x.depth + 1, c);
    let kw = choose|k: int| 0 <= k < crawl.len() && is_valid_batch(c, #[trigger] crawl[k]);
    assert(is_valid_batch(c, tail[kw])) by {
        assert(tail[kw] == crawl[kw]);
    }
    let j = first_valid_idx(c, tail);
    assert(j <= kw);
    assert(j < crawl.len());
    assert forall|k: int|
        0 <= k < j implies !is_valid_batch(c, #[trigger] tail[k]) && !evicts_at(
        tail[k],
        x.depth,
    ) by {
        assert(tail[k] == crawl[k]);
    }
    assert(a + seq![x] + Seq::<GDirInfo>::empty() =~= a + seq![x]);
    assert(a + Seq::<GDirInfo>::empty() =~= a);
    lemma_confirmed_dir_emitted_once(c, tail, a, x, Seq::empty(), j);
    let pos = choose|pos: int|
        inserted_at(run_spec(c, tail, a + seq![x]), run_spec(c, tail, a), flush_item(x), pos);
    assert(rendered_once_at(c, x, sub, xpath, a, post, pos));
}

/// The path a chain of subdirectory indices leads to.
pub open spec fn chain_path(t: DirTree, path: Seq<Seq<char>>, idxs: Seq<int>) -> Seq<Seq<char>>
    decreases idxs.len(),
{
    if idxs.len() == 0 {
        path
    } else if 0 <= idxs[0] < t.subdirs@.len() {
        chain_path(
            t.subdirs@[idxs[0]].tree,
            path.push(t.subdirs@[idxs[0]].name@),
            idxs.drop_first(),
        )
    } else {
        path
    }
}

/// The pending queue the orderer holds after consuming an event stream.
pub open spec fn queue_after(c: Config, es: Seq<GEvent>, q: Seq<GDirInfo>) -> Seq<GDirInfo>
    decreases es.len(),
{
    if es.len() == 0 {
        q
    } else {
        queue_after(c, es.drop_first(), step_spec(c, q, es[0]).0)
    }
}

/// The orderer's output splits at any point of its input: the second part
/// continues from the queue the first part leaves.
proof fn lemma_run_concat(c: Config, es1: Seq<GEvent>, es2: Seq<GEvent>, q: Seq<GDirInfo>)
    ensures
        run_spec(c, es1 + es2, q) == run_spec(c, es1, q) + run_spec(
            c,
            es2,
            queue_after(c, es1, q),
        ),
    decreases es1.len(),
{
    if es1.len() == 0 {
        assert(es1 + es2 =~= es2);
        assert(run_spec(c, es1, q) + run_spec(c, es2, q) =~= run_spec(c, es2, q));
    } else {
        assert((es1 + es2)[0] == es1[0]);
        assert((es1 + es2).drop_first() =~= es1.drop_first() + es2);
        let q2 = step_spec(c, q, es1[0]).0;
        lemma_run_concat(c, es1.drop_first(), es2, q2);
        assert(run_spec(c, es1, q) + run_spec(c, es2, queue_after(c, es1, q)) =~= step_spec(
            c,
            q,
            es1[0],
        ).1 + run_spec(c, es1.drop_first(), q2) + run_spec(c, es2, queue_after(c, es1, q)));
    }
}

/// One step keeps the pending queue sorted by strictly increasing depth.
proof fn lemma_step_sorted(c: Config, q: Seq<GDirInfo>, e: GEvent)
    requires
        sorted_queue(q),
    ensures
        sorted_queue(step_spec(c, q, e).0),
{
    match e {
        GEvent::Dir { info: d } => {
            let m = lemma_evict_sorted_split(q, d.depth);
            let kept = evict_spec(q, d.depth);
            assert forall|i: int, j: int|
                0 <= i < j < kept.len() implies (#[trigger] kept[i]).depth < (
            #[trigger] kept[j]).depth by {
                assert(kept[i] == q[i]);
                assert(kept[j] == q[j]);
            }
            if !d.is_ignored {
                lemma_evict_depth_ub(q, d.depth);
                let out = kept.push(d);
                assert forall|i: int, j: int|
                    0 <= i < j < out.len() implies (#[trigger] out[i]).depth < (
                #[trigger] out[j]).depth by {
                    assert(out[i] == kept[i]);
                    if j < kept.len() {
                        assert(out[j] == kept[j]);
                    }
                }
            }
        },
        GEvent::Files { .. } => {
            assert(sorted_queue(Seq::<GDirInfo>::empty()));
        },
    }
}

/// The orderer's queue stays sorted by strictly increasing depth through
/// any event stream.
proof fn lemma_queue_after_sorted(c: Config, es: Seq<GEvent>, q: Seq<GDirInfo>)
    requires
        sorted_queue(q),
    ensures
        sorted_queue(queue_after(c, es, q)),
    decreases es.len(),
{
    if es.len() > 0 {
        lemma_step_sorted(c, q, es[0]);
        lemma_queue_after_sorted(c, es.drop_first(), step_spec(c, q, es[0]).0);
    }
}

/// The events for the subdirectories with indices in `[j, i)`, each with
/// its subtree.
pub open spec fn crawl_dirs_upto(
    t: DirTree,
    path: Seq<Seq<char>>,
    depth: int,
    c: Config,
    j: int,
    i: int,
) -> Seq<GEvent>
    decreases t, i - j,
{
    if j < 0 || j >= i || i > t.subdirs@.len() {
        Seq::empty()
    } else {
        let sd = t.subdirs@[j];
        let child_path = path.push(sd.name@);
        let ig = c.spec_dir_ignored(child_path);
        seq![
            GEvent::Dir {
                info: GDirInfo {
                    depth: depth,
                    is_last: j == t.subdirs@.len() - 1,
                    is_ignored: ig,
                    name: sd.name@,
                },
            },
        ] + (if ig {
            Seq::empty()
        } else {
            crawl_spec(sd.tree, child_path, depth + 1, c)
        }) + crawl_dirs_upto(t, path, depth, c, j + 1, i)
    }
}

/// The subdirectory walk splits at any index.
proof fn lemma_crawl_dirs_split(
    t: DirTree,
    path: Seq<Seq<char>>,
    depth: int,
    c: Config,
    j: int,
    i: int,
)
    requires
        0 <= j <= i <= t.subdirs@.len(),
    ensures
        crawl_dirs_spec(t, path, depth, c, j) == crawl_dirs_upto(t, path, depth, c, j, i)
            + crawl_dirs_spec(t, path, depth, c, i),
    decreases i - j,
{
    if j < i {
        lemma_crawl_dirs_split(t, path, depth, c, j + 1, i);
        let sd = t.subdirs@[j];
        let child_path = path.push(sd.name@);
        let ig = c.spec_dir_ignored(child_path);
        let head = seq![
            GEvent::Dir {
                info: GDirInfo {
                    depth: depth,
                    is_last: j == t.subdirs@.len() - 1,
                    is_ignored: ig,
                    name: sd.name@,
                },
            },
        ];
        let sub = if ig {
            Seq::<GEvent>::empty()
        } else {
            crawl_spec(sd.tree, child_path, depth + 1, c)
        };
        assert(crawl_dirs_spec(t, path, depth, c, j) =~= head + sub + (crawl_dirs_upto(
            t,
            path,
            depth,
            c,
            j + 1,
            i,
        ) + crawl_dirs_spec(t, path, depth, c, i)));
        assert(crawl_dirs_upto(t, path, depth, c, j, i) + crawl_dirs_spec(t, path, depth, c, i)
            =~= head + sub + (crawl_dirs_upto(t, path, depth, c, j + 1, i) + crawl_dirs_spec(
            t,
            path,
            depth,
            c,
            i,
        )));
    } else {
        assert(crawl_dirs_upto(t, path, depth, c, j, i) + crawl_dirs_spec(t, path, depth, c, i)
            =~= crawl_dirs_spec(t, path, depth, c, i));
    }
}

/// The discovery event the crawler emits for subdirectory `i` of the
/// subtree a chain leads to.
pub open spec fn chain_dir_info(
    t: DirTree,
    path: Seq<Seq<char>>,
    depth: int,
    c: Config,
    idxs: Seq<int>,
    i: int,
) -> GDirInfo {
    let u = chain_tree(t, idxs);
    let upath = chain_path(t, path, idxs);
    GDirInfo {
        depth: depth + idxs.len(),
        is_last: i == u.subdirs@.len() - 1,
        is_ignored: c.spec_dir_ignored(upath.push(u.subdirs@[i].name@)),
        name: u.subdirs@[i].name@,
    }
}

/// Whether `pre` and `post` witness the crawl's shape around subdirectory
/// `i` of the subtree a chain leads to: its discovery event, then its own
/// subtree's events when it is not ignored, and after them nothing or
/// first a directory event that evicts it.
pub open spec fn chain_decomp(
    t: DirTree,
    path: Seq<Seq<char>>,
    depth: int,
    c: Config,
    idxs: Seq<int>,
    i: int,
    pre: Seq<GEvent>,
    post: Seq<GEvent>,
) -> bool {
    let u = chain_tree(t, idxs);
    let upath = chain_path(t, path, idxs);
    let x = chain_dir_info(t, path, depth, c, idxs, i);
    let sub = if x.is_ignored {
        Seq::<GEvent>::empty()
    } else {
        crawl_spec(u.subdirs@[i].tree, upath.push(u.subdirs@[i].name@), depth + idxs.len() + 1, c)
    };
    &&& crawl_spec(t, path, depth, c) == pre + seq![GEvent::Dir { info: x }] + sub + post
    &&& (post.len() == 0 || evicts_at(post[0], depth + idxs.len()))
}

/// The crawl of a tree decomposes around any subdirectory reached through
/// a chain of non-ignored subdirectories: what follows that subdirectory's
/// own subtree is nothing, or first a directory event at its depth or
/// shallower.
#[verifier::rlimit(100)]
proof fn lemma_chain_decompose(
    t: DirTree,
    path: Seq<Seq<char>>,
    depth: int,
    c: Config,
    idxs: Seq<int>,
    i: int,
)
    requires
        visible_chain(t, path, c, idxs),
        0 <= i < chain_tree(t, idxs).subdirs@.len(),
    ensures
        exists|pre: Seq<GEvent>, post: Seq<GEvent>|
            chain_decomp(t, path, depth, c, idxs, i, pre, post),
    decreases idxs.len(),
{
    let u = chain_tree(t, idxs);
    let upath = chain_path(t, path, idxs);
    let x = chain_dir_info(t, path, depth, c, idxs, i);
    if idxs.len() == 0 {
        let sub = if x.is_ignored {
            Seq::<GEvent>::empty()
        } else {
            crawl_spec(u.subdirs@[i].tree, upath.push(u.subdirs@[i].name@), depth + 1, c)
        };
        let files_event = seq![
            GEvent::Files {
                names: t.files.deep_view(),
                depth: depth,
                dir_count: t.subdirs@.len() as int,
            },
        ];
        lemma_crawl_dirs_split(t, path, depth, c, 0, i);
        let pre = files_event + crawl_dirs_upto(t, path, depth, c, 0, i);
        let post = crawl_dirs_spec(t, path, depth, c, i + 1);
        assert(crawl_spec(t, path, depth, c) =~= pre + seq![GEvent::Dir { info: x }] + sub
            + post);
        if post.len() > 0 {
            assert(evicts_at(post[0], depth));
        }
        assert(chain_decomp(t, path, depth, c, idxs, i, pre, post));
    } else {
        let i0 = idxs[0];
        let sd = t.subdirs@[i0];
        let cpath0 = path.push(sd.name@);
        let d1: int = depth + 1;
        lemma_chain_decompose(sd.tree, cpath0, d1, c, idxs.drop_first(), i);
        let (pre0, post0): (Seq<GEvent>, Seq<GEvent>) = choose|pre0: Seq<GEvent>, post0: Seq<
            GEvent,
        >| chain_decomp(sd.tree, cpath0, d1, c, idxs.drop_first(), i, pre0, post0);
        assert(chain_tree(sd.tree, idxs.drop_first()) == u);
        assert(chain_path(sd.tree, cpath0, idxs.drop_first()) == upath);
        let x0 = chain_dir_info(sd.tree, cpath0, depth + 1, c, idxs.drop_first(), i);
        assert(x0 == x);
        let sub = if x.is_ignored {
            Seq::<GEvent>::empty()
        } else {
            crawl_spec(
                u.subdirs@[i].tree,
                upath.push(u.subdirs@[i].name@),
                depth + idxs.len() + 1,
                c,
            )
        };
        let files_event = seq![
            GEvent::Files {
                names: t.files.deep_view(),
                depth: depth,
                dir_count: t.subdirs@.len() as int,
            },
        ];
        let dir_event0 = seq![
            GEvent::Dir {
                info: GDirInfo {
                    depth: depth,
                    is_last: i0 == t.subdirs@.len() - 1,
                    is_ignored: c.spec_dir_ignored(cpath0),
                    name: sd.name@,
                },
            },
        ];
        lemma_crawl_dirs_split(t, path, depth, c, 0, i0);
        let pre = files_event + crawl_dirs_upto(t, path, depth, c, 0, i0) + dir_event0 + pre0;
        let post = post0 + crawl_dirs_spec(t, path, depth, c, i0 + 1);
        assert(crawl_spec(sd.tree, cpath0, depth + 1, c) == pre0 + seq![GEvent::Dir { info: x }]
            + sub + post0);
        assert(crawl_dirs_spec(t, path, depth, c, i0) =~= dir_event0 + crawl_spec(
            sd.tree,
            cpath0,
            depth + 1,
            c,
        ) + crawl_dirs_spec(t, path, depth, c, i0 + 1));
        assert(crawl_spec(t, path, depth, c) =~= pre + seq![GEvent::Dir { info: x }] + sub
            + post);
        if post.len() > 0 {
            if post0.len() > 0 {
                assert(post[0] == post0[0]);
            } else {
                assert(post =~= crawl_dirs_spec(t, path, depth, c, i0 + 1));
                assert(evicts_at(post[0], depth));
            }
            assert(evicts_at(post[0], depth + idxs.len())) by {
                match post[0] {
                    GEvent::Dir { info } => {},
                    GEvent::Files { .. } => {},
                }
            }
        }
        assert(chain_decomp(t, path, depth, c, idxs, i, pre, post));
    }
}

/// Whether `pre` and `post` witness that the whole pipeline's directive
/// stream does not change when the directory's discovery event is struck
/// from the crawl.
pub open spec fn invisible_in_crawl(
    t: DirTree,
    path: Seq<Seq<char>>,
    c: Config,
    idxs: Seq<int>,
    i: int,
    pre: Seq<GEvent>,
    post: Seq<GEvent>,
) -> bool {
    let u = chain_tree(t, idxs);
    let upath = chain_path(t, path, idxs);
    let x = chain_dir_info(t, path, 0, c, idxs, i);
    let sub = crawl_spec(u.subdirs@[i].tree, upath.push(u.subdirs@[i].name@), idxs.len() as int + 1, c);
    &&& crawl_spec(t, path, 0, c) == pre + seq![GEvent::Dir { info: x }] + sub + post
    &&& run_spec(c, crawl_spec(t, path, 0, c), Seq::empty()) == run_spec(
        c,
        pre + sub + post,
        Seq::empty(),
    )
}

/// Over the whole pipeline, run from the root: a non-ignored directory
/// with no filter-passing file anywhere beneath it yields no directive at
/// all. Striking its discovery event from the crawl leaves the output
/// byte-identical.
pub proof fn lemma_empty_dir_invisible_in_crawl(
    t: DirTree,
    path: Seq<Seq<char>>,
    c: Config,
    idxs: Seq<int>,
    i: int,
)
    requires
        visible_chain(t, path, c, idxs),
        0 <= i < chain_tree(t, idxs).subdirs@.len(),
        !c.spec_dir_ignored(
            chain_path(t, path, idxs).push(chain_tree(t, idxs).subdirs@[i].name@),
        ),
        !has_valid_file(
            chain_tree(t, idxs).subdirs@[i].tree,
            chain_path(t, path, idxs).push(chain_tree(t, idxs).subdirs@[i].name@),
            c,
        ),
    ensures
        exists|pre: Seq<GEvent>, post: Seq<GEvent>| invisible_in_crawl(t, path, c, idxs, i, pre, post),
{
    let u = chain_tree(t, idxs);
    let upath = chain_path(t, path, idxs);
    let x = chain_dir_info(t, path, 0, c, idxs, i);
    let xpath = upath.push(u.subdirs@[i].name@);
    let sub = crawl_spec(u.subdirs@[i].tree, xpath, idxs.len() as int + 1, c);
    lemma_chain_decompose(t, path, 0, c, idxs, i);
    let (pre, post): (Seq<GEvent>, Seq<GEvent>) = choose|pre: Seq<GEvent>, post: Seq<GEvent>|
        chain_decomp(t, path, 0, c, idxs, i, pre, post);
    let full = crawl_spec(t, path, 0, c);
    let with_x = seq![GEvent::Dir { info: x }] + sub + post;
    let without = sub + post;
    assert(full =~= pre + with_x);
    let q1 = queue_after(c, pre, Seq::empty());
    lemma_run_concat(c, pre, with_x, Seq::empty());
    lemma_run_concat(c, pre, without, Seq::empty());
    assert(sorted_queue(Seq::<GDirInfo>::empty()));
    lemma_queue_after_sorted(c, pre, Seq::empty());
    assert(x.depth == idxs.len());
    lemma_empty_dir_yields_nothing(c, x, u.subdirs@[i].tree, xpath, q1, post);
    assert(seq![GEvent::Dir { info: x }] + crawl_spec(u.subdirs@[i].tree, xpath, x.depth + 1, c)
        + post =~= with_x);
    assert(crawl_spec(u.subdirs@[i].tree, xpath, x.depth + 1, c) + post =~= without);
    assert(run_spec(c, full, Seq::empty()) == run_spec(c, pre + without, Seq::empty())) by {
        assert(run_spec(c, full, Seq::empty()) == run_spec(c, pre + with_x, Seq::empty()));
        assert(run_spec(c, pre + with_x, Seq::empty()) == run_spec(c, pre, Seq::empty())
            + run_spec(c, with_x, q1));
        assert(run_spec(c, pre + without, Seq::empty()) == run_spec(c, pre, Seq::empty())
            + run_spec(c, without, q1));
    }
    assert(pre + without =~= pre + sub + post);
    assert(full == pre + seq![GEvent::Dir { info: x }] + sub + post);
    assert(invisible_in_crawl(t, path, c, idxs, i, pre, post));
}

/// Whether `pre`, `post` and `pos` witness that, over the whole pipeline,
/// the directory's single directive is inserted at `pos` into what the run
/// from its discovery onward would produce without it.
pub open spec fn rendered_once_in_crawl(
    t: DirTree,
    path: Seq<Seq<char>>,
    c: Config,
    idxs: Seq<int>,
    i: int,
    pre: Seq<GEvent>,
    post: Seq<GEvent>,
    pos: int,
) -> bool {
    let u = chain_tree(t, idxs);
    let upath = chain_path(t, path, idxs);
    let x = chain_dir_info(t, path, 0, c, idxs, i);
    let sub = crawl_spec(u.subdirs@[i].tree, upath.push(u.subdirs@[i].name@), idxs.len() as int + 1, c);
    let a = evict_spec(queue_after(c, pre, Seq::empty()), idxs.len() as int);
    &&& crawl_spec(t, path, 0, c) == pre + seq![GEvent::Dir { info: x }] + sub + post
    &&& run_spec(c, crawl_spec(t, path, 0, c), Seq::empty()) == run_spec(c, pre, Seq::empty())
        + run_spec(c, sub + post, a + seq![x])
    &&& inserted_at(
        run_spec(c, sub + post, a + seq![x]),
        run_spec(c, sub + post, a),
        flush_item(x),
        pos,
    )
}

/// Over the whole pipeline, run from the root: a non-ignored directory
/// with a filter-passing file somewhere beneath it is rendered exactly
/// once — from its discovery onward, the output is what it would be
/// without it, with its one flushed directive inserted.
pub proof fn lemma_live_dir_rendered_once_in_crawl(
    t: DirTree,
    path: Seq<Seq<char>>,
    c: Config,
    idxs: Seq<int>,
    i: int,
)
    requires
        visible_chain(t, path, c, idxs),
        0 <= i < chain_tree(t, idxs).subdirs@.len(),
        !c.spec_dir_ignored(
            chain_path(t, path, idxs).push(chain_tree(t, idxs).subdirs@[i].name@),
        ),
        has_valid_file(
            chain_tree(t, idxs).subdirs@[i].tree,
            chain_path(t, path, idxs).push(chain_tree(t, idxs).subdirs@[i].name@),
            c,
        ),
    ensures
        exists|pre: Seq<GEvent>, post: Seq<GEvent>, pos: int|
            rendered_once_in_crawl(t, path, c, idxs, i, pre, post, pos),
{
    let u = chain_tree(t, idxs);
    let upath = chain_path(t, path, idxs);
    let x = chain_dir_info(t, path, 0, c, idxs, i);
    let xpath = upath.push(u.subdirs@[i].name@);
    let sub = crawl_spec(u.subdirs@[i].tree, xpath, idxs.len() as int + 1, c);
    lemma_chain_decompose(t, path, 0, c, idxs, i);
    let (pre, post): (Seq<GEvent>, Seq<GEvent>) = choose|pre: Seq<GEvent>, post: Seq<GEvent>|
        chain_decomp(t, path, 0, c, idxs, i, pre, post);
    let full = crawl_spec(t, path, 0, c);
    let with_x = seq![GEvent::Dir { info: x }] + sub + post;
    assert(full =~= pre + with_x);
    let q1 = queue_after(c, pre, Seq::empty());
    let a = evict_spec(q1, x.depth);
    lemma_run_concat(c, pre, with_x, Seq::empty());
    assert(with_x[0] == GEvent::Dir { info: x });
    assert(with_x.drop_first() =~= sub + post);
    assert(step_spec(c, q1, with_x[0]).0 == a.push(x));
    assert(step_spec(c, q1, with_x[0]).1 =~= Seq::<GRenderItem>::empty());
    assert(run_spec(c, with_x, q1) =~= run_spec(c, sub + post, a.push(x)));
    lemma_evict_depth_ub(q1, x.depth);
    assert(x.depth == idxs.len());
    lemma_confirmed_pending_rendered_once(c, x, u.subdirs@[i].tree, xpath, a, post);
    let pos = choose|pos: int|
        rendered_once_at(c, x, u.subdirs@[i].tree, xpath, a, post, pos);
    assert(a + seq![x] =~= a.push(x));
    assert(crawl_spec(u.subdirs@[i].tree, xpath, x.depth + 1, c) + post =~= sub + post);
    assert(rendered_once_in_crawl(t, path, c, idxs, i, pre, post, pos));
}

/// The whole pipeline's output over an in-memory tree, as one specification:
/// crawl, order, render.
pub open spec fn pipeline_spec(t: DirTree, path: Seq<Seq<char>>, c: Config) -> Seq<char> {
    render_all(c, run_spec(c, crawl_spec(t, path, 0, c), Seq::empty()))
}

/// Running the pipeline twice over an unchanged tree and configuration
/// produces byte-identical output: every stage is a function of the tree
/// and the configuration alone.
pub proof fn lemma_pipeline_idempotent(
    t: DirTree,
    path: Seq<Seq<char>>,
    c: Config,
    out1: Seq<char>,
    out2: Seq<char>,
)
    requires
        out1 == pipeline_spec(t, path, c),
        out2 == pipeline_spec(t, path, c),
    ensures
        out1 == out2,
{
}

} // verus!
