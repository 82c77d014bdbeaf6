use vstd::prelude::*;

use crate::content::{Encapsulation, Node, RegionState};
use crate::text::{
    char_count, concat, cut, cut_row, expand_fragments, expand_tabs, expand_row, fits_within, push_char, views, width,
};

verus! {

/// What a display row shows, and whether it belongs to the active part of its source.
#[derive(PartialEq, Eq, Structural, Clone, Copy, Debug)]
pub enum DisplayKind {
    ProgramTitle,
    /// A region's title; `true` while the region is open.
    Title(bool),
    /// A line of text; `true` on the trailing spine of the source.
    Text(bool),
    /// The marker that stands for the lines cut out of a run.
    MiddleTextCut(bool),
    /// The marker that stands for the rows cut out of a whole source.
    WholeScreenCut,
}

/// The text fragments of one display row.
#[verifier::external_body]
pub struct Fragments {
    inner: smallvec::SmallVec<[String; 3]>,
}

/// The fragments that a `Fragments` value holds, in order.
pub uninterp spec fn fragments_of(f: Fragments) -> Seq<Seq<char>>;

/// Relies on SmallVec::from_vec: the vector's items, in order.
#[verifier::external_body]
fn fragments_from_vec(v: Vec<String>) -> (r: Fragments)
    ensures
        fragments_of(r) == views(v@),
{
    Fragments { inner: smallvec::SmallVec::from_vec(v) }
}

/// Relies on SmallVec's slice view and slice::to_vec: clones of the items, in order.
#[verifier::external_body]
fn fragments_to_vec(f: &Fragments) -> (r: Vec<String>)
    ensures
        views(r@) == fragments_of(*f),
{
    f.inner.to_vec()
}

/// One row of the display, before or after it was fitted to the width.
pub struct DisplayLine {
    pub indent: usize,
    pub kind: DisplayKind,
    pub prefix: String,
    pub text: Fragments,
}

/// The mathematical content of a display row.
pub struct LineView {
    pub indent: nat,
    pub kind: DisplayKind,
    pub prefix: Seq<char>,
    pub text: Seq<Seq<char>>,
}

impl DisplayLine {
    pub open spec fn view(self) -> LineView {
        LineView {
            indent: self.indent as nat,
            kind: self.kind,
            prefix: self.prefix@,
            text: fragments_of(self.text),
        }
    }

    pub fn new(indent: usize, kind: DisplayKind, prefix: String, text: Vec<String>) -> (r: DisplayLine)
        ensures
            r.view() == (LineView { indent: indent as nat, kind, prefix: prefix@, text: views(text@) }),
    {
        DisplayLine { indent, kind, prefix, text: fragments_from_vec(text) }
    }

    /// The text fragments of the row, in order.
    pub fn fragments(&self) -> (r: Vec<String>)
        ensures
            views(r@) == self.view().text,
    {
        fragments_to_vec(&self.text)
    }
}

/// The fragment that marks a row cut at the width.
pub open spec fn ellipsis() -> Seq<char> {
    seq!['.', '.', '.']
}

/// The number of characters that a row's text may take: what the indent and the prefix
/// leave of the width, or nothing when they leave nothing.
pub open spec fn avail_width(cx: nat, l: LineView) -> nat {
    if cx >= l.indent + l.prefix.len() {
        (cx - l.indent - l.prefix.len()) as nat
    } else {
        0
    }
}

/// Fragments of `avail` characters at most: the row as it is when it fits, else its first
/// `avail - 3` characters followed by an ellipsis.
pub open spec fn fit_fragments(fs: Seq<Seq<char>>, avail: nat) -> Seq<Seq<char>> {
    if width(fs) <= avail {
        fs
    } else {
        cut(fs, if avail >= 3 { (avail - 3) as nat } else { 0 }).push(ellipsis())
    }
}

/// A row as it is displayed at width `cx`: tabs expanded, then fitted to what is left
/// after the indent and the prefix.
pub open spec fn fit_line(l: LineView, cx: nat) -> LineView {
    LineView { text: fit_fragments(expand_fragments(l.text, 0), avail_width(cx, l)), ..l }
}

/// Each row of `ls` fitted to width `cx`.
pub open spec fn fit_all(ls: Seq<LineView>, cx: nat) -> Seq<LineView> {
    ls.map_values(|l: LineView| fit_line(l, cx))
}

/// A row that overflows its width by any amount is cut to exactly its width, the ellipsis
/// included: its characters are the first `avail - 3` characters of the row, then the
/// ellipsis as a fragment of its own; a single fragment keeps exactly its first
/// `avail - 3` characters.
pub proof fn lemma_fit_exact(fs: Seq<Seq<char>>, avail: nat)
    requires
        avail >= 3,
        width(fs) > avail,
    ensures
        fit_fragments(fs, avail) == cut(fs, (avail - 3) as nat).push(ellipsis()),
        width(fit_fragments(fs, avail)) == avail,
        concat(fit_fragments(fs, avail)) == concat(fs).take(avail - 3) + ellipsis(),
        fit_fragments(fs, avail).last() == ellipsis(),
        fs.len() == 1 ==> fit_fragments(fs, avail) == seq![
            fs[0].take(avail - 3),
            ellipsis(),
        ],
{
    let keep = (avail - 3) as nat;
    crate::text::lemma_cut_width(fs, keep);
    lemma_width_push(cut(fs, keep), ellipsis());
    crate::text::lemma_cut_concat(fs, keep);
    crate::text::lemma_concat_push(cut(fs, keep), ellipsis());
    if fs.len() == 1 {
        assert(fs.drop_first() =~= Seq::<Seq<char>>::empty());
        assert(width(fs.drop_first()) == 0);
        assert(fs[0].len() > keep);
        assert(cut(fs, keep).push(ellipsis()) =~= seq![fs[0].take(avail - 3), ellipsis()]);
    }
}

proof fn lemma_width_push(fs: Seq<Seq<char>>, f: Seq<char>)
    ensures
        width(fs.push(f)) == width(fs) + f.len(),
    decreases fs.len(),
{
    if fs.len() == 0 {
        assert(fs.push(f).drop_first() =~= Seq::<Seq<char>>::empty());
        assert(width(fs.push(f).drop_first()) == 0);
        assert(fs.push(f)[0] == f);
    } else {
        assert(fs.push(f)[0] == fs[0]);
        lemma_width_push(fs.drop_first(), f);
        assert(fs.push(f).drop_first() =~= fs.drop_first().push(f));
    }
}

/// The rows that describe one source at a given width.
pub struct DisplayDescription {
    cx: usize,
    lines: Vec<DisplayLine>,
}

impl DisplayDescription {
    pub closed spec fn width(self) -> nat {
        self.cx as nat
    }

    pub closed spec fn view(self) -> Seq<LineView> {
        self.lines@.map_values(|l: DisplayLine| l.view())
    }

    pub fn new(cx: usize) -> (r: DisplayDescription)
        ensures
            r.width() == cx,
            r.view() == Seq::<LineView>::empty(),
    {
        let r = DisplayDescription { lines: Vec::new(), cx };
        proof {
            assert(r.view() =~= Seq::<LineView>::empty());
        }
        r
    }

    pub fn lines(&self) -> (r: &Vec<DisplayLine>)
        ensures
            r@.map_values(|l: DisplayLine| l.view()) == self.view(),
    {
        &self.lines
    }

    pub fn len(&self) -> (r: usize)
        ensures
            r == self.view().len(),
    {
        self.lines.len()
    }

    /// Appends a row, with its tabs expanded and cut with an ellipsis where it is wider than
    /// what the indent and the prefix leave of the width.
    pub fn add_line(&mut self, dl: DisplayLine)
        ensures
            final(self).width() == old(self).width(),
            final(self).view() == old(self).view().push(fit_line(dl.view(), old(self).width())),
    {
        let used = char_count(&dl.prefix);
        let avail: usize = if self.cx >= dl.indent && self.cx - dl.indent >= used {
            self.cx - dl.indent - used
        } else {
            0
        };
        let expanded = expand_row(&fragments_to_vec(&dl.text));
        let text = if fits_within(&expanded, avail) {
            expanded
        } else {
            let keep: usize = if avail >= 3 { avail - 3 } else { 0 };
            let mut t = cut_row(&expanded, keep);
            let mut dots = String::new();
            push_char(&mut dots, '.');
            push_char(&mut dots, '.');
            push_char(&mut dots, '.');
            proof {
                assert(dots@ =~= ellipsis());
                assert(views(t@.push(dots)) =~= views(t@).push(dots@));
            }
            t.push(dots);
            t
        };
        let line = DisplayLine { indent: dl.indent, kind: dl.kind, prefix: dl.prefix, text: fragments_from_vec(text) };
        proof {
            assert(line.view() == fit_line(dl.view(), self.cx as nat));
        }
        self.lines.push(line);
        proof {
            assert(self.view() =~= old(self).view().push(fit_line(dl.view(), self.cx as nat)));
        }
    }

    /// Keeps the source's title row and its last `count - 1` rows, and puts one marker row
    /// between them for all that was cut.
    pub fn reduce_to_count(&mut self, count: usize)
        ensures
            final(self).width() == old(self).width(),
            final(self).view() == reduced(old(self).view(), count as nat),
    {
        let n = self.lines.len();
        if n == 0 {
            return;
        }
        let tail: usize = if count == 0 {
            0
        } else if count - 1 < n - 1 {
            count - 1
        } else {
            n - 1
        };
        let ghost before = self.view();
        let mut rest = self.lines.split_off(n - tail);
        self.lines.truncate(1);
        self.lines.push(whole_cut_line());
        self.lines.append(&mut rest);
        proof {
            assert(self.view() =~= reduced(before, count as nat));
        }
    }
}

/// The marker row that stands for the rows cut out of a whole source.
pub open spec fn whole_cut() -> LineView {
    LineView { indent: 0, kind: DisplayKind::WholeScreenCut, prefix: seq![], text: seq![] }
}

fn whole_cut_line() -> (r: DisplayLine)
    ensures
        r.view() == whole_cut(),
{
    let r = DisplayLine::new(0, DisplayKind::WholeScreenCut, String::new(), Vec::new());
    proof {
        assert(views(Seq::<String>::empty()) =~= Seq::<Seq<char>>::empty());
    }
    r
}

/// The rows `ls` cut down to `count`: the first row, a marker, and the last `count - 1`
/// rows among those after the first.
pub open spec fn reduced(ls: Seq<LineView>, count: nat) -> Seq<LineView> {
    if ls.len() == 0 {
        ls
    } else {
        let tail: int = if count == 0 {
            0
        } else if count - 1 < ls.len() - 1 {
            count - 1
        } else {
            ls.len() - 1
        };
        seq![ls[0], whole_cut()] + ls.subrange(ls.len() - tail, ls.len() as int)
    }
}


/// The prefix of a text row.
pub open spec fn vertical() -> Seq<char> {
    seq!['⫼', ' ']
}

/// The prefix of a region's title row.
pub open spec fn branch() -> Seq<char> {
    seq!['└', '─', '─', ' ']
}

/// The prefix of the marker row of a cut run.
pub open spec fn cut_bar() -> Seq<char> {
    seq!['+'] + Seq::new(37, |_i: int| '-')
}

/// The indent of a node at depth `depth`: four columns a level.
pub open spec fn indent_of(depth: nat) -> nat {
    if 4 * depth <= usize::MAX {
        4 * depth
    } else {
        usize::MAX as nat
    }
}

/// The row of a text line at depth `depth`.
pub open spec fn text_line(depth: nat, n: Node, spine: bool) -> LineView {
    LineView {
        indent: indent_of(depth),
        kind: DisplayKind::Text(spine),
        prefix: vertical(),
        text: seq![n->Line_text@],
    }
}

/// The marker row of a cut run at depth `depth`.
pub open spec fn marker_line(depth: nat, spine: bool) -> LineView {
    LineView {
        indent: indent_of(depth),
        kind: DisplayKind::MiddleTextCut(spine),
        prefix: cut_bar(),
        text: seq![],
    }
}

/// The title row of a region at depth `depth`: its start title, and for a closed region
/// its end title too when that is not empty.
pub open spec fn title_line(depth: nat, e: Encapsulation) -> LineView {
    LineView {
        indent: indent_of(depth),
        kind: DisplayKind::Title(e.state is Open),
        prefix: branch(),
        text: match e.state {
            RegionState::Closed { end_title, .. } => if end_title@.len() > 0 {
                seq![e.start_title@, seq![' '], end_title@]
            } else {
                seq![e.start_title@]
            },
            RegionState::Open => seq![e.start_title@],
        },
    }
}

/// The end of the run of text lines that starts at `i`: the first later index that holds
/// no text line of the same depth.
pub open spec fn run_end(nodes: Seq<Node>, i: int) -> int
    decreases nodes.len() - i,
{
    if i + 1 >= nodes.len() {
        nodes.len() as int
    } else if nodes[i + 1] is Line && nodes[i + 1].depth() == nodes[i].depth() {
        run_end(nodes, i + 1)
    } else {
        i + 1
    }
}

/// A run of text lines ends after its first line, within the nodes, and holds only text
/// lines of one depth.
proof fn lemma_run_end(nodes: Seq<Node>, i: int)
    requires
        0 <= i < nodes.len(),
    ensures
        i < run_end(nodes, i) <= nodes.len(),
        nodes[i] is Line ==> forall|k: int|
            i <= k < run_end(nodes, i) ==> #[trigger] nodes[k] is Line && nodes[k].depth()
                == nodes[i].depth(),
        run_end(nodes, i) < nodes.len() ==> !(nodes[run_end(nodes, i)] is Line
            && nodes[run_end(nodes, i)].depth() == nodes[run_end(nodes, i) - 1].depth()),
    decreases nodes.len() - i,
{
    if i + 1 < nodes.len() && nodes[i + 1] is Line && nodes[i + 1].depth() == nodes[i].depth() {
        lemma_run_end(nodes, i + 1);
    }
}

/// The rows of the run of text lines `nodes[i..j]` under threshold `t`: all of them when
/// there are at most `t`, else the first, a marker, and the last `t - 2`.
pub open spec fn run_layout(nodes: Seq<Node>, i: int, j: int, t: nat, spine: bool) -> Seq<LineView> {
    let n = j - i;
    let d = nodes[i].depth();
    if n <= t {
        Seq::new(n as nat, |k: int| text_line(d, nodes[i + k], spine))
    } else {
        seq![text_line(d, nodes[i], spine), marker_line(d, spine)] + Seq::new(
            (t - 2) as nat,
            |k: int| text_line(d, nodes[j - (t - 2) + k], spine),
        )
    }
}

/// The threshold of a run: three rows, and the slack besides on the trailing spine.
pub open spec fn threshold(spine: bool, extra: nat) -> nat {
    3 + if spine {
        extra
    } else {
        0
    }
}

/// The rows of the nodes from index `i` on, before they are fitted to the width. Runs of
/// text are cut to their threshold; the one run that ends the whole tree stands on the
/// trailing spine and gets the slack `extra`.
pub open spec fn layout_from(nodes: Seq<Node>, i: int, extra: nat) -> Seq<LineView>
    decreases nodes.len() - i,
    via layout_from_decreases
{
    if i < 0 || i >= nodes.len() {
        seq![]
    } else {
        match nodes[i] {
            Node::Region { depth, region } => seq![title_line(depth as nat, region)] + layout_from(
                nodes,
                i + 1,
                extra,
            ),
            Node::Line { .. } => {
                let j = run_end(nodes, i);
                let spine = j == nodes.len();
                run_layout(nodes, i, j, threshold(spine, extra), spine) + layout_from(
                    nodes,
                    j,
                    extra,
                )
            },
        }
    }
}

#[via_fn]
proof fn layout_from_decreases(nodes: Seq<Node>, i: int, extra: nat) {
    if 0 <= i < nodes.len() {
        lemma_run_end(nodes, i);
    }
}

/// A run of `n` text lines under threshold `t` takes exactly `n` rows when `n <= t`;
/// else exactly `t` rows: its first line, a marker, then its last `t - 2` lines in order.
pub proof fn lemma_run_truncation(nodes: Seq<Node>, i: int, j: int, t: nat, spine: bool)
    requires
        0 <= i < j <= nodes.len(),
        t >= 3,
    ensures
        j - i <= t ==> run_layout(nodes, i, j, t, spine).len() == j - i && forall|k: int|
            0 <= k < j - i ==> #[trigger] run_layout(nodes, i, j, t, spine)[k] == text_line(
                nodes[i].depth(),
                nodes[i + k],
                spine,
            ),
        j - i > t ==> {
            let r = run_layout(nodes, i, j, t, spine);
            &&& r.len() == t
            &&& r[0] == text_line(nodes[i].depth(), nodes[i], spine)
            &&& r[1] == marker_line(nodes[i].depth(), spine)
            &&& forall|k: int|
                0 <= k < t - 2 ==> #[trigger] r[k + 2] == text_line(
                    nodes[i].depth(),
                    nodes[j - (t - 2) + k],
                    spine,
                )
        },
{
}

fn indent_for(depth: usize) -> (r: usize)
    ensures
        r == indent_of(depth as nat),
{
    if depth <= usize::MAX / 4 {
        depth * 4
    } else {
        usize::MAX
    }
}

fn prefix_string(count: usize, first: char, rest: char) -> (r: String)
    requires
        count >= 1,
    ensures
        r@ == seq![first] + Seq::new((count - 1) as nat, |_i: int| rest),
{
    let mut s = String::new();
    push_char(&mut s, first);
    let mut k: usize = 1;
    while k < count
        invariant
            1 <= k <= count,
            s@ == seq![first] + Seq::new((k - 1) as nat, |_i: int| rest),
        decreases count - k,
    {
        push_char(&mut s, rest);
        proof {
            assert(seq![first] + Seq::new(k as nat, |_i: int| rest) =~= (seq![first] + Seq::new(
                (k - 1) as nat,
                |_i: int| rest,
            )).push(rest));
        }
        k = k + 1;
    }
    s
}

fn vertical_string() -> (r: String)
    ensures
        r@ == vertical(),
{
    let r = prefix_string(2, '⫼', ' ');
    proof {
        assert(r@ =~= vertical());
    }
    r
}

fn branch_string() -> (r: String)
    ensures
        r@ == branch(),
{
    let mut s = prefix_string(3, '└', '─');
    push_char(&mut s, ' ');
    proof {
        assert(s@ =~= branch());
    }
    s
}

fn line_text(n: &Node) -> (r: String)
    requires
        n is Line,
    ensures
        r@ == n->Line_text@,
{
    match n {
        Node::Line { text, .. } => text.clone(),
        Node::Region { .. } => {
            proof {
                assert(false);
            }
            String::new()
        },
    }
}

fn text_row(depth: usize, n: &Node, spine: bool) -> (r: DisplayLine)
    requires
        n is Line,
    ensures
        r.view() == text_line(depth as nat, *n, spine),
{
    let t = line_text(n);
    let r = DisplayLine::new(indent_for(depth), DisplayKind::Text(spine), vertical_string(), vec![t]);
    proof {
        assert(r.view().text =~= seq![n->Line_text@]);
    }
    r
}

fn marker_row(depth: usize, spine: bool) -> (r: DisplayLine)
    ensures
        r.view() == marker_line(depth as nat, spine),
{
    let bar = prefix_string(38, '+', '-');
    let r = DisplayLine::new(indent_for(depth), DisplayKind::MiddleTextCut(spine), bar, Vec::new());
    proof {
        assert(r.view().text =~= Seq::<Seq<char>>::empty());
        assert(r.view().prefix =~= cut_bar());
    }
    r
}

fn title_row(depth: usize, e: &Encapsulation) -> (r: DisplayLine)
    ensures
        r.view() == title_line(depth as nat, *e),
{
    let mut text: Vec<String> = Vec::new();
    text.push(e.start_title.clone());
    match &e.state {
        RegionState::Closed { end_title, .. } => {
            if char_count(end_title) > 0 {
                let mut space = String::new();
                push_char(&mut space, ' ');
                text.push(space);
                text.push(end_title.clone());
            }
        },
        RegionState::Open => {},
    }
    let open = match &e.state {
        RegionState::Open => true,
        RegionState::Closed { .. } => false,
    };
    let r = DisplayLine::new(indent_for(depth), DisplayKind::Title(open), branch_string(), text);
    proof {
        assert(r.view().text =~= title_line(depth as nat, *e).text);
    }
    r
}

fn continues_run(n: &Node, depth: usize) -> (r: bool)
    ensures
        r == (n is Line && n.depth() == depth),
{
    match n {
        Node::Line { depth: d, .. } => *d == depth,
        Node::Region { .. } => false,
    }
}

proof fn lemma_fit_all_append(a: Seq<LineView>, b: Seq<LineView>, cx: nat)
    ensures
        fit_all(a + b, cx) == fit_all(a, cx) + fit_all(b, cx),
{
    assert(fit_all(a + b, cx) =~= fit_all(a, cx) + fit_all(b, cx));
}

impl DisplayDescription {
    /// Appends the rows of the run of text lines `nodes[i..j]` under threshold `t`.
    fn add_run(&mut self, nodes: &Vec<Node>, i: usize, j: usize, t: usize, spine: bool)
        requires
            i < j <= nodes.len(),
            t >= 3,
            forall|k: int|
                i <= k < j ==> #[trigger] nodes@[k] is Line && nodes@[k].depth() == nodes@[i as int].depth(),
        ensures
            final(self).width() == old(self).width(),
            final(self).view() == old(self).view() + fit_all(
                run_layout(nodes@, i as int, j as int, t as nat, spine),
                old(self).width(),
            ),
    {
        let ghost cx = self.width();
        let ghost d = nodes@[i as int].depth();
        let depth = nodes[i].depth_of();
        let start: usize = if j - i <= t {
            i
        } else {
            self.add_line(text_row(depth, &nodes[i], spine));
            self.add_line(marker_row(depth, spine));
            j - (t - 2)
        };
        let ghost head = self.view();
        let ghost shown: Seq<LineView> = if j - i <= t {
            Seq::empty()
        } else {
            seq![text_line(d, nodes@[i as int], spine), marker_line(d, spine)]
        };
        proof {
            assert(head =~= old(self).view() + fit_all(shown, cx));
        }
        let mut k: usize = start;
        while k < j
            invariant
                start <= k <= j,
                i <= start,
                j <= nodes.len(),
                self.width() == cx,
                forall|m: int|
                    i <= m < j ==> #[trigger] nodes@[m] is Line && nodes@[m].depth() == d,
                depth == d,
                self.view() == head + fit_all(
                    Seq::new((k - start) as nat, |m: int| text_line(d, nodes@[start + m], spine)),
                    cx,
                ),
            decreases j - k,
        {
            let row = text_row(depth, &nodes[k], spine);
            self.add_line(row);
            proof {
                assert(Seq::new((k + 1 - start) as nat, |m: int| text_line(d, nodes@[start + m], spine))
                    =~= Seq::new((k - start) as nat, |m: int| text_line(d, nodes@[start + m], spine)).push(
                    text_line(d, nodes@[k as int], spine),
                ));
                assert(fit_all(
                    Seq::new((k + 1 - start) as nat, |m: int| text_line(d, nodes@[start + m], spine)),
                    cx,
                ) =~= fit_all(
                    Seq::new((k - start) as nat, |m: int| text_line(d, nodes@[start + m], spine)),
                    cx,
                ).push(fit_line(text_line(d, nodes@[k as int], spine), cx)));
            }
            k = k + 1;
        }
        proof {
            let tail = Seq::new((j - start) as nat, |m: int| text_line(d, nodes@[start + m], spine));
            lemma_fit_all_append(shown, tail, cx);
            assert(shown + tail =~= run_layout(nodes@, i as int, j as int, t as nat, spine));
        }
    }

    /// Appends the rows of a content tree: each region's title row, and each run of text
    /// lines cut to its threshold, every row fitted to the width.
    pub fn add_content(&mut self, nodes: &Vec<Node>, allowed_extra: usize)
        ensures
            final(self).width() == old(self).width(),
            final(self).view() == old(self).view() + fit_all(
                layout_from(nodes@, 0, allowed_extra as nat),
                old(self).width(),
            ),
    {
        let ghost cx = self.width();
        let ghost extra = allowed_extra as nat;
        let n = nodes.len();
        let mut i: usize = 0;
        proof {
            assert(old(self).view() + fit_all(layout_from(nodes@, 0, extra), cx) == self.view()
                + fit_all(layout_from(nodes@, 0, extra), cx));
        }
        while i < n
            invariant
                n == nodes.len(),
                0 <= i <= n,
                extra == allowed_extra as nat,
                self.width() == cx,
                old(self).view() + fit_all(layout_from(nodes@, 0, extra), cx) == self.view()
                    + fit_all(layout_from(nodes@, i as int, extra), cx),
            decreases n - i,
        {
            let ghost before = self.view();
            match &nodes[i] {
                Node::Region { depth, region } => {
                    let row = title_row(*depth, region);
                    self.add_line(row);
                    proof {
                        let rest = layout_from(nodes@, i + 1, extra);
                        lemma_fit_all_append(seq![title_line(*depth as nat, *region)], rest, cx);
                        assert(fit_all(seq![title_line(*depth as nat, *region)], cx) =~= seq![
                            fit_line(title_line(*depth as nat, *region), cx),
                        ]);
                        assert(before + fit_all(layout_from(nodes@, i as int, extra), cx) =~= self.view()
                            + fit_all(rest, cx));
                    }
                    i = i + 1;
                },
                Node::Line { depth, .. } => {
                    let d = *depth;
                    let mut j: usize = i + 1;
                    proof {
                        lemma_run_end(nodes@, i as int);
                    }
                    while j < n && continues_run(&nodes[j], d)
                        invariant
                            n == nodes.len(),
                            i < j <= n,
                            nodes@[i as int] is Line,
                            nodes@[i as int].depth() == d,
                            forall|k: int|
                                i <= k < j ==> #[trigger] nodes@[k] is Line && nodes@[k].depth() == d,
                            run_end(nodes@, i as int) == run_end(nodes@, j - 1),
                        decreases n - j,
                    {
                        j = j + 1;
                    }
                    proof {
                        assert(run_end(nodes@, i as int) == j);
                    }
                    let spine = j == n;
                    let t: usize = if !spine {
                        3
                    } else if allowed_extra <= usize::MAX - 3 {
                        allowed_extra + 3
                    } else {
                        usize::MAX
                    };
                    self.add_run(nodes, i, j, t, spine);
                    proof {
                        let tt = threshold(spine, extra);
                        assert(tt == 3 + if spine { extra } else { 0 });
                        assert(spine ==> tt == 3 + allowed_extra);
                        assert(!spine ==> tt == 3);
                        if spine && allowed_extra > usize::MAX - 3 {
                            assert(t == usize::MAX);
                            assert(j - i <= t);
                            assert(j - i <= tt);
                            assert(run_layout(nodes@, i as int, j as int, t as nat, spine)
                                =~= run_layout(nodes@, i as int, j as int, tt, spine));
                        }
                        let rest = layout_from(nodes@, j as int, extra);
                        let run = run_layout(nodes@, i as int, j as int, tt, spine);
                        lemma_fit_all_append(run, rest, cx);
                        assert(nodes@[i as int] is Line);
                        assert(layout_from(nodes@, i as int, extra) == run + rest);
                        assert(before + fit_all(layout_from(nodes@, i as int, extra), cx) =~= self.view()
                            + fit_all(rest, cx));
                    }
                    i = j;
                },
            }
        }
        proof {
            assert(layout_from(nodes@, n as int, extra) =~= Seq::<LineView>::empty());
            assert(fit_all(Seq::<LineView>::empty(), cx) =~= Seq::<LineView>::empty());
            assert(self.view() + Seq::<LineView>::empty() =~= self.view());
        }
    }
}

/// Whether a run of text lines starts at `i`: a text line that does not continue the run of
/// the node before it.
pub open spec fn starts_run(nodes: Seq<Node>, i: int) -> bool {
    &&& 0 <= i < nodes.len()
    &&& nodes[i] is Line
    &&& i > 0 ==> !(nodes[i - 1] is Line && nodes[i - 1].depth() == nodes[i].depth())
}

/// The layout from a region or the start of a run reaches every later start of a run.
proof fn lemma_layout_reaches(nodes: Seq<Node>, extra: nat, k: int, i: int)
    requires
        0 <= k <= i,
        starts_run(nodes, i),
        nodes[k] is Region || starts_run(nodes, k),
    ensures
        exists|p: Seq<LineView>| layout_from(nodes, k, extra) == p + layout_from(nodes, i, extra),
    decreases i - k,
{
    if k == i {
        assert(layout_from(nodes, k, extra) =~= Seq::<LineView>::empty() + layout_from(nodes, i, extra));
    } else if nodes[k] is Region {
        lemma_layout_reaches(nodes, extra, k + 1, i);
        let p = choose|p: Seq<LineView>| layout_from(nodes, k + 1, extra) == p + layout_from(nodes, i, extra);
        let t = seq![title_line(nodes[k]->Region_depth as nat, nodes[k]->Region_region)];
        assert(layout_from(nodes, k, extra) =~= (t + p) + layout_from(nodes, i, extra));
    } else {
        lemma_run_end(nodes, k);
        let j = run_end(nodes, k);
        if i < j {
            assert(nodes[i - 1] is Line && nodes[i - 1].depth() == nodes[k].depth());
            assert(nodes[i].depth() == nodes[k].depth());
        }
        let spine = j == nodes.len();
        let run = run_layout(nodes, k, j, threshold(spine, extra), spine);
        if j == i {
            assert(layout_from(nodes, k, extra) =~= run + layout_from(nodes, i, extra));
        } else {
            lemma_layout_reaches(nodes, extra, j, i);
            let p = choose|p: Seq<LineView>| layout_from(nodes, j, extra) == p + layout_from(nodes, i, extra);
            assert(layout_from(nodes, k, extra) =~= (run + p) + layout_from(nodes, i, extra));
        }
    }
}

/// Each run of text lines in a tree shows in its layout as its own rows: all of its lines
/// when it has at most its threshold of them, else its first line, a marker and its last
/// `threshold - 2` lines; its threshold is three, and the slack besides for the run that
/// ends the tree. Every row of the description is the layout's row fitted to the width.
pub proof fn lemma_run_in_layout(nodes: Seq<Node>, i: int, extra: nat, cx: nat)
    requires
        starts_run(nodes, i),
    ensures
        ({
            let j = run_end(nodes, i);
            let spine = j == nodes.len();
            let run = run_layout(nodes, i, j, threshold(spine, extra), spine);
            exists|p: Seq<LineView>|
                {
                    &&& layout_from(nodes, 0, extra) == p + run + layout_from(nodes, j, extra)
                    &&& fit_all(layout_from(nodes, 0, extra), cx) == fit_all(p, cx) + fit_all(run, cx)
                        + fit_all(layout_from(nodes, j, extra), cx)
                }
        }),
{
    let j = run_end(nodes, i);
    let spine = j == nodes.len();
    let run = run_layout(nodes, i, j, threshold(spine, extra), spine);
    lemma_run_end(nodes, i);
    lemma_layout_reaches(nodes, extra, 0, i);
    let p = choose|p: Seq<LineView>| layout_from(nodes, 0, extra) == p + layout_from(nodes, i, extra);
    assert(layout_from(nodes, i, extra) == run + layout_from(nodes, j, extra));
    assert(layout_from(nodes, 0, extra) =~= p + run + layout_from(nodes, j, extra));
    lemma_fit_all_append(p + run, layout_from(nodes, j, extra), cx);
    lemma_fit_all_append(p, run, cx);
}

/// A text without tabs is left as it is by tab expansion.
proof fn lemma_no_tabs(s: Seq<char>, col: nat)
    requires
        forall|k: int| 0 <= k < s.len() ==> s[k] != '\t',
    ensures
        expand_tabs(s, col) == s,
    decreases s.len(),
{
    if s.len() > 0 {
        lemma_no_tabs(s.drop_last(), col);
        assert(s.drop_last().push(s.last()) =~= s);
        assert(s.drop_last() + seq![s.last()] =~= s);
    }
}

/// A text row without tabs that fits in the width is shown as it is.
pub proof fn lemma_plain_row_fits(depth: nat, n: Node, spine: bool, cx: nat)
    requires
        n is Line,
        forall|k: int| 0 <= k < n->Line_text@.len() ==> n->Line_text@[k] != '\t',
        indent_of(depth) + 2 + n->Line_text@.len() <= cx,
    ensures
        fit_line(text_line(depth, n, spine), cx) == text_line(depth, n, spine),
{
    let t = n->Line_text@;
    lemma_no_tabs(t, 0);
    let fs = seq![t];
    assert(fs.drop_first() =~= Seq::<Seq<char>>::empty());
    assert(expand_fragments(fs.drop_first(), (t.len() % 8) as nat) == Seq::<Seq<char>>::empty());
    assert(expand_fragments(fs, 0) =~= fs);
    assert(width(fs.drop_first()) == 0);
    assert(width(fs) == t.len());
    assert(fit_line(text_line(depth, n, spine), cx) =~= text_line(depth, n, spine));
}

} // verus!
