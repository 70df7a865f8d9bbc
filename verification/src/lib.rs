//! Streaming tree-decoration pipeline: a depth-first directory walk whose
//! entries are turned, in one forward pass, into render directives carrying
//! the structural flags (depth, last-sibling, leaf) a tree renderer needs,
//! while an ignore list, an optional name filter and an extension folding
//! rule are applied.

pub mod color;
pub mod counter;
pub mod crawler;
pub mod laws;
pub mod multimap;
pub mod renderer;
pub mod settings;
pub mod strmap;
pub mod text;

use vstd::prelude::*;
use crate::crawler::{
    batches_small, compute, lemma_crawl_small, lemma_run_positive, list_files, tree_batches_small,
    tree_height, DirTree, GEvent, IOEvent, RenderType,
};
use crate::laws::pipeline_spec;
use crate::renderer::render_files;
use crate::settings::Config;

verus! {

/// Runs the whole pipeline over an in-memory directory tree: crawls it,
/// orders the discovery events into render directives, and renders them
/// into the final output text.
pub fn run_pipeline(path: &Vec<String>, tree: &DirTree, config: &Config) -> (out: String)
    requires
        config.wf(),
        tree_height(*tree) <= usize::MAX,
        tree_batches_small(*tree),
    ensures
        out@ == pipeline_spec(*tree, path.deep_view(), *config),
{
    let mut events: Vec<IOEvent> = Vec::new();
    list_files(path, tree, config, 0, &mut events);
    proof {
        lemma_crawl_small(*tree, path.deep_view(), 0, *config);
        assert(batches_small(events.deep_view()));
        assert forall|k: int|
            0 <= k < events@.len() implies (match #[trigger] events@[k] {
            IOEvent::FilesListed(f) => f.files@.len() <= i32::MAX as int,
            IOEvent::DirectoryStarted(_) => true,
        }) by {
            assert(events.deep_view()[k] == events@[k]@);
            match events@[k] {
                IOEvent::FilesListed(f) => {
                    assert(events@[k]@ matches GEvent::Files { names, .. } && names
                        == f.files.deep_view());
                },
                IOEvent::DirectoryStarted(_) => {},
            }
        }
    }
    let ghost evs = events.deep_view();
    let items = compute(config, events);
    proof {
        lemma_run_positive(*config, evs, Seq::empty());
        assert forall|k: int|
            0 <= k < items@.len() implies ((#[trigger] items@[k]).item matches RenderType::Folded(
            s,
        ) ==> s.count >= 0) by {
            assert(items.deep_view()[k] == items@[k]@);
        }
    }
    render_files(config, items)
}

} // verus!
