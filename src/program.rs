use vstd::prelude::*;

use crate::content::{pushed_nodes, pushed_open, Content, LineClass};
use crate::display::{
    fit_all, layout_from, DisplayDescription, DisplayKind, DisplayLine, LineView,
};
use crate::matchers::{class_view, Matchers};
use crate::text::views;

verus! {

/// One source of lines: its description and the content tree built from its output.
pub struct Program {
    desc: String,
    content: Content,
}

/// The title row of a source.
pub open spec fn program_title(desc: Seq<char>) -> LineView {
    LineView { indent: 0, kind: DisplayKind::ProgramTitle, prefix: seq![], text: seq![desc] }
}

/// The rows that describe a source at width `cx` with `extra` rows of slack: its title,
/// then the layout of its content, every row fitted to the width.
pub open spec fn describe(desc: Seq<char>, content: Content, cx: nat, extra: nat) -> Seq<LineView> {
    fit_all(seq![program_title(desc)] + layout_from(content.nodes(), 0, extra), cx)
}

impl Program {
    pub closed spec fn description(self) -> Seq<char> {
        self.desc@
    }

    pub closed spec fn tree(self) -> Content {
        self.content
    }

    pub open spec fn wf(self) -> bool {
        self.tree().wf()
    }

    pub fn new(desc: String) -> (r: Program)
        ensures
            r.wf(),
            r.description() == desc@,
            r.tree().nodes().len() == 0,
            r.tree().open_regions().len() == 0,
    {
        Program { desc, content: Content::new() }
    }

    pub fn desc(&self) -> (r: &String)
        ensures
            r@ == self.description(),
    {
        &self.desc
    }

    pub fn content(&self) -> (r: &Content)
        ensures
            *r == self.tree(),
    {
        &self.content
    }

    /// Inserts one line of the source's output into its content tree, as the matchers
    /// classify it.
    pub fn append_line(&mut self, line: String, matchers: &Matchers)
        requires
            old(self).wf(),
            matchers.wf(),
        ensures
            final(self).wf(),
            final(self).description() == old(self).description(),
            exists|c: LineClass|
                #[trigger] class_view(c) == matchers.class_of(line@) && final(self).tree().nodes()
                    == pushed_nodes(old(self).tree().nodes(), old(self).tree().open_regions(), line, c)
                    && final(self).tree().open_regions() == pushed_open(
                    old(self).tree().nodes(),
                    old(self).tree().open_regions(),
                    c,
                ),
    {
        let class = matchers.classify(&line);
        let ghost c = class;
        self.content.push_classified(line, class);
        proof {
            assert(class_view(c) == matchers.class_of(line@));
        }
    }

    /// Inserts one line of the source's output whose class is already known.
    pub fn push_classified(&mut self, line: String, class: LineClass)
        requires
            old(self).wf(),
        ensures
            final(self).wf(),
            final(self).description() == old(self).description(),
            final(self).tree().nodes() == pushed_nodes(
                old(self).tree().nodes(),
                old(self).tree().open_regions(),
                line,
                class,
            ),
            final(self).tree().open_regions() == pushed_open(
                old(self).tree().nodes(),
                old(self).tree().open_regions(),
                class,
            ),
    {
        self.content.push_classified(line, class);
    }

    /// The rows that describe this source at width `cx`, with `allowed_extra` more text
    /// lines allowed on its trailing spine.
    pub fn calc_display_description(&self, cx: usize, allowed_extra: usize) -> (r: DisplayDescription)
        ensures
            r.width() == cx,
            r.view() == describe(self.description(), self.tree(), cx as nat, allowed_extra as nat),
    {
        let mut dd = DisplayDescription::new(cx);
        let text = vec![self.desc.clone()];
        let prefix = String::new();
        proof {
            assert(views(text@) =~= seq![self.desc@]);
            assert(prefix@ =~= Seq::<char>::empty());
        }
        let title = DisplayLine::new(0, DisplayKind::ProgramTitle, prefix, text);
        proof {
            assert(title.view() =~= program_title(self.desc@));
        }
        dd.add_line(title);
        dd.add_content(self.content.nodes_ref(), allowed_extra);
        proof {
            let t = seq![program_title(self.desc@)];
            let l = layout_from(self.content.nodes(), 0, allowed_extra as nat);
            assert(fit_all(t + l, cx as nat) =~= fit_all(t, cx as nat) + fit_all(l, cx as nat));
            assert(dd.view() =~= describe(self.desc@, self.content, cx as nat, allowed_extra as nat));
        }
        dd
    }
}

} // verus!
