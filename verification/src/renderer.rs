//! The renderer: turns render directives, in arrival order, into the
//! box-drawn, coloured output text, one line per directive.
use vstd::prelude::*;
use crate::color::{ansi_painted, hex_to_color, paint_rgb, spec_hex_color};
use crate::crawler::{GPayload, GRenderItem, RenderItem, RenderType};
use crate::settings::{lemma_dir_color_valid, lemma_ext_color_valid, lemma_file_color_valid, Config};
use crate::strmap::str_lookup;
use crate::text::{decimal_of, decimal_string};

verus! {

/// The glyph bound to a connector key, under a well-formed configuration.
pub open spec fn pipe_glyph(c: Config, key: Seq<char>) -> Seq<char> {
    match str_lookup(c.glyphs@, key) {
        Some(g) => g,
        None => Seq::empty(),
    }
}

/// The line fragment for one file: painted icon, space, painted name,
/// newline, all in the file's colour.
pub open spec fn file_line(c: Config, name: Seq<char>) -> Seq<char> {
    let col = spec_hex_color(c.spec_file_color(name));
    ansi_painted(col, c.spec_file_glyph(name)) + " "@ + ansi_painted(col, name) + "\n"@
}

/// The line fragment for one directory: painted icon, space, painted name,
/// and for an ignored directory a painted continuation mark, then a newline.
pub open spec fn dir_line(c: Config, name: Seq<char>, ignored: bool) -> Seq<char> {
    if ignored {
        let col = spec_hex_color(c.colors.directories.ignored@);
        ansi_painted(col, c.spec_dir_glyph(name)) + " "@ + ansi_painted(col, name) + ansi_painted(
            col,
            "/..."@,
        ) + "\n"@
    } else {
        let col = spec_hex_color(c.spec_dir_color(name));
        ansi_painted(col, c.spec_dir_glyph(name)) + " "@ + ansi_painted(col, name) + "\n"@
    }
}

/// The line fragment for a folded group: painted icon, space, then the
/// painted summary "<count> <extension> files...", and a newline.
pub open spec fn skipped_line(c: Config, ext: Seq<char>, count: int) -> Seq<char> {
    let col = spec_hex_color(c.spec_ext_color(ext));
    let value = decimal_of(count) + " "@ + ext + " files..."@;
    ansi_painted(col, c.spec_ext_glyph(ext)) + " "@ + ansi_painted(col, value) + "\n"@
}

/// The indentation guides before a directive at the given depth.
pub open spec fn pipes_prefix(c: Config, k: int) -> Seq<char>
    decreases k,
{
    if k <= 0 {
        Seq::empty()
    } else {
        pipes_prefix(c, k - 1) + pipe_glyph(c, "pipe-v"@) + " "@
    }
}

/// The full output line of one directive: indentation guides, a corner for
/// a last leaf or a tee otherwise, the horizontal connector, then the
/// payload's fragment. A directory payload is shown in its ignored form
/// exactly when the directive marks it as a leaf.
pub open spec fn item_text(c: Config, item: GRenderItem) -> Seq<char> {
    pipes_prefix(c, item.depth) + (if item.is_last && item.is_leaf {
        pipe_glyph(c, "pipe-e"@) + " "@
    } else {
        pipe_glyph(c, "pipe-t"@)
    }) + pipe_glyph(c, "pipe-h"@) + (match item.payload {
        GPayload::File { name } => file_line(c, name),
        GPayload::Dir { name } => dir_line(c, name, item.is_leaf),
        GPayload::Folded { ext, count } => skipped_line(c, ext, count),
    })
}

/// The whole output of a directive stream, in order.
pub open spec fn render_all(c: Config, items: Seq<GRenderItem>) -> Seq<char>
    decreases items.len(),
{
    if items.len() == 0 {
        Seq::empty()
    } else {
        item_text(c, items[0]) + render_all(c, items.drop_first())
    }
}

/// Accumulates the rendered output text for one run.
pub struct Renderer<'a> {
    pub config: &'a Config,
    pub out: String,
}

impl<'a> Renderer<'a> {
    /// A renderer over a configuration, with empty output.
    pub fn new(config: &'a Config) -> (r: Renderer<'a>)
        ensures
            r.config == config,
            r.out@ == Seq::<char>::empty(),
    {
        Renderer { config, out: String::new() }
    }

    /// Appends one vertical indentation guide.
    pub fn render_pipe_v(&mut self)
        requires
            old(self).config.wf(),
        ensures
            final(self).config == old(self).config,
            final(self).out@ == old(self).out@ + pipe_glyph(*old(self).config, "pipe-v"@) + " "@,
    {
        let cfg: &Config = self.config;
        let g = cfg.glyphs.get("pipe-v").unwrap();
        self.out.append(g.as_str());
        self.out.append(" ");
    }

    /// Appends the horizontal connector.
    pub fn render_pipe_h(&mut self)
        requires
            old(self).config.wf(),
        ensures
            final(self).config == old(self).config,
            final(self).out@ == old(self).out@ + pipe_glyph(*old(self).config, "pipe-h"@),
    {
        let cfg: &Config = self.config;
        let g = cfg.glyphs.get("pipe-h").unwrap();
        self.out.append(g.as_str());
    }

    /// Appends the tee connector that continues a branch.
    pub fn render_pipe_t(&mut self)
        requires
            old(self).config.wf(),
        ensures
            final(self).config == old(self).config,
            final(self).out@ == old(self).out@ + pipe_glyph(*old(self).config, "pipe-t"@),
    {
        let cfg: &Config = self.config;
        let g = cfg.glyphs.get("pipe-t").unwrap();
        self.out.append(g.as_str());
    }

    /// Appends the corner connector that ends a branch.
    pub fn render_pipe_e(&mut self)
        requires
            old(self).config.wf(),
        ensures
            final(self).config == old(self).config,
            final(self).out@ == old(self).out@ + pipe_glyph(*old(self).config, "pipe-e"@) + " "@,
    {
        let cfg: &Config = self.config;
        let g = cfg.glyphs.get("pipe-e").unwrap();
        self.out.append(g.as_str());
        self.out.append(" ");
    }

    /// Appends one file's painted line.
    pub fn render_file(&mut self, name: &str)
        requires
            old(self).config.wf(),
        ensures
            final(self).config == old(self).config,
            final(self).out@ == old(self).out@ + file_line(*old(self).config, name@),
    {
        let cfg: &Config = self.config;
        let glyph = cfg.get_associated_file_glyph(name);
        let color = cfg.get_associated_file_color(name);
        proof {
            lemma_file_color_valid(cfg, name@);
        }
        let col = hex_to_color(color.as_str());
        let painted_glyph = paint_rgb(col, glyph.as_str());
        let painted_name = paint_rgb(col, name);
        self.out.append(painted_glyph.as_str());
        self.out.append(" ");
        self.out.append(painted_name.as_str());
        self.out.append("\n");
    }

    /// Appends one directory's painted line; an ignored directory takes the
    /// ignored colour and a continuation mark after its name.
    pub fn render_dir(&mut self, name: &str, ignored: bool)
        requires
            old(self).config.wf(),
        ensures
            final(self).config == old(self).config,
            final(self).out@ == old(self).out@ + dir_line(*old(self).config, name@, ignored),
    {
        let cfg: &Config = self.config;
        let glyph = cfg.get_associated_dir_glyph(name);
        if ignored {
            let color = &cfg.colors.directories.ignored;
            let col = hex_to_color(color.as_str());
            let painted_glyph = paint_rgb(col, glyph.as_str());
            let painted_name = paint_rgb(col, name);
            let painted_mark = paint_rgb(col, "/...");
            self.out.append(painted_glyph.as_str());
            self.out.append(" ");
            self.out.append(painted_name.as_str());
            self.out.append(painted_mark.as_str());
            self.out.append("\n");
        } else {
            let color = cfg.get_associated_dir_color(name);
            proof {
                lemma_dir_color_valid(cfg, name@);
            }
            let col = hex_to_color(color.as_str());
            let painted_glyph = paint_rgb(col, glyph.as_str());
            let painted_name = paint_rgb(col, name);
            self.out.append(painted_glyph.as_str());
            self.out.append(" ");
            self.out.append(painted_name.as_str());
            self.out.append("\n");
        }
    }

    /// Appends the painted summary line of a folded group.
    pub fn render_skippedfiles(&mut self, ext: &String, count: i32)
        requires
            old(self).config.wf(),
            count >= 0,
        ensures
            final(self).config == old(self).config,
            final(self).out@ == old(self).out@ + skipped_line(
                *old(self).config,
                ext@,
                count as int,
            ),
    {
        let cfg: &Config = self.config;
        let glyph = cfg.get_associated_ext_glyph(ext.as_str());
        let color = cfg.get_associated_ext_color(ext.as_str());
        proof {
            lemma_ext_color_valid(cfg, ext@);
        }
        let col = hex_to_color(color.as_str());
        let mut value = decimal_string(count as u32);
        value.append(" ");
        value.append(ext.as_str());
        value.append(" files...");
        let painted_glyph = paint_rgb(col, glyph.as_str());
        let painted_value = paint_rgb(col, value.as_str());
        self.out.append(painted_glyph.as_str());
        self.out.append(" ");
        self.out.append(painted_value.as_str());
        self.out.append("\n");
    }

    /// Appends the full line of one directive: guides, connector, payload.
    #[verifier::rlimit(50)]
    pub fn render_item(&mut self, item: RenderItem)
        requires
            old(self).config.wf(),
            item.item matches RenderType::Folded(s) ==> s.count >= 0,
        ensures
            final(self).config == old(self).config,
            final(self).out@ == old(self).out@ + item_text(*old(self).config, item@),
    {
        let ghost c = *self.config;
        let ghost itemv = item@;
        let depth: usize = item.depth;
        let mut k: usize = 0;
        while k < depth
            invariant
                0 <= k <= depth,
                self.config == old(self).config,
                self.config.wf(),
                self.out@ == old(self).out@ + pipes_prefix(c, k as int),
                c == *old(self).config,
            decreases depth - k,
        {
            self.render_pipe_v();
            k += 1;
        }
        proof {
            assert(k as int == itemv.depth);
        }
        if item.is_last && item.is_leaf {
            self.render_pipe_e();
        } else {
            self.render_pipe_t();
        }
        self.render_pipe_h();
        match item.item {
            RenderType::File(f) => self.render_file(f.name.as_str()),
            RenderType::Dir(d) => self.render_dir(d.name.as_str(), item.is_leaf),
            RenderType::Folded(s) => self.render_skippedfiles(&s.ext, s.count),
        }
    }
}

/// Renders a whole directive stream, in order, into one output text.
#[verifier::loop_isolation(false)]
pub fn render_files(config: &Config, rx_render: Vec<RenderItem>) -> (out: String)
    requires
        config.wf(),
        forall|k: int|
            0 <= k < rx_render@.len() ==> ((#[trigger] rx_render@[k]).item matches
                RenderType::Folded(s) ==> s.count >= 0),
    ensures
        out@ == render_all(*config, rx_render.deep_view()),
{
    let ghost itemsv = rx_render.deep_view();
    let mut renderer = Renderer::new(config);
    let mut items = rx_render;
    proof {
        assert(renderer.out@ + render_all(*config, items.deep_view()) =~= render_all(
            *config,
            itemsv,
        ));
    }
    while items.len() > 0
        invariant
            renderer.config == config,
            forall|k: int|
                0 <= k < items@.len() ==> ((#[trigger] items@[k]).item matches
                    RenderType::Folded(s) ==> s.count >= 0),
            renderer.out@ + render_all(*config, items.deep_view()) == render_all(*config, itemsv),
        decreases items.len(),
    {
        let ghost evs = items.deep_view();
        let item = items.remove(0);
        proof {
            assert(items.deep_view() =~= evs.drop_first());
            assert(item@ == evs[0]);
        }
        renderer.render_item(item);
    }
    proof {
        assert(items.deep_view() =~= Seq::<GRenderItem>::empty());
    }
    renderer.out
}

} // verus!
