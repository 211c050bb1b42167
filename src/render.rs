//! Text rendering of a process tree.
//!
//! `Basic` indents each process four spaces per level. The box-drawing
//! styles share one layout and differ only in their glyphs: the root line is
//! a short header and the root's name; every other line shows, for each
//! ancestor level below the root, a vertical glyph if that ancestor still has
//! siblings to come and blank padding otherwise, then a branch glyph (a
//! middle branch, or a corner for a last child) and the process's name.

use vstd::prelude::*;
use crate::names::{name_of, process_name, ProcessId, ROOT};
use crate::tree::ProcessTree;

verus! {

/// How a tree is drawn.
#[derive(Clone, Copy, Debug, PartialEq, Eq, Structural)]
pub enum Style {
    Basic,
    Line1,
    Line2,
    Fancy,
}

/// The style name given is none of `basic`, `line1`, `line2`, `fancy`.
#[derive(Clone, Copy, Debug, PartialEq, Eq, Structural)]
pub struct UnknownRenderStyle;

/// The style called `name`, if there is one.
pub open spec fn style_named(name: Seq<char>) -> Option<Style> {
    if name == "basic"@ {
        Some(Style::Basic)
    } else if name == "line1"@ {
        Some(Style::Line1)
    } else if name == "line2"@ {
        Some(Style::Line2)
    } else if name == "fancy"@ {
        Some(Style::Fancy)
    } else {
        None
    }
}

/// Looks up a style by name.
pub fn parse_style(name: &str) -> (r: Result<Style, UnknownRenderStyle>)
    ensures
        style_named(name@) matches Some(s) ==> r == Ok::<Style, UnknownRenderStyle>(s),
        style_named(name@) is None ==> r == Err::<Style, UnknownRenderStyle>(UnknownRenderStyle),
{
    let owned = String::from_str(name);
    if owned == String::from_str("basic") {
        Ok(Style::Basic)
    } else if owned == String::from_str("line1") {
        Ok(Style::Line1)
    } else if owned == String::from_str("line2") {
        Ok(Style::Line2)
    } else if owned == String::from_str("fancy") {
        Ok(Style::Fancy)
    } else {
        Err(UnknownRenderStyle)
    }
}

/// The glyph continuing an ancestor's vertical line.
pub open spec fn vertical(style: Style) -> Seq<char> {
    match style {
        Style::Fancy => "│"@,
        _ => "|"@,
    }
}

/// The horizontal glyph.
pub open spec fn horizontal(style: Style) -> Seq<char> {
    match style {
        Style::Line2 => "_"@,
        Style::Fancy => "─"@,
        _ => "-"@,
    }
}

/// The glyph before a child that has siblings after it.
pub open spec fn branch(style: Style) -> Seq<char> {
    match style {
        Style::Line1 => "+"@,
        Style::Fancy => "├"@,
        _ => "|"@,
    }
}

/// The glyph before a last child.
pub open spec fn corner(style: Style) -> Seq<char> {
    match style {
        Style::Fancy => "└"@,
        _ => "|"@,
    }
}

fn vertical_str(style: Style) -> (r: &'static str)
    ensures
        r@ == vertical(style),
{
    match style {
        Style::Fancy => "│",
        _ => "|",
    }
}

fn horizontal_str(style: Style) -> (r: &'static str)
    ensures
        r@ == horizontal(style),
{
    match style {
        Style::Line2 => "_",
        Style::Fancy => "─",
        _ => "-",
    }
}

fn branch_str(style: Style) -> (r: &'static str)
    ensures
        r@ == branch(style),
{
    match style {
        Style::Line1 => "+",
        Style::Fancy => "├",
        _ => "|",
    }
}

fn corner_str(style: Style) -> (r: &'static str)
    ensures
        r@ == corner(style),
{
    match style {
        Style::Fancy => "└",
        _ => "|",
    }
}

/// Four spaces for each of `level` levels.
pub open spec fn basic_indent(level: nat) -> Seq<char>
    decreases level,
{
    if level == 0 {
        Seq::empty()
    } else {
        basic_indent((level - 1) as nat) + "    "@
    }
}

/// For each ancestor level, a vertical glyph where that ancestor has
/// siblings still to come, and blank padding elsewhere.
pub open spec fn box_indent(style: Style, more: Seq<bool>) -> Seq<char>
    decreases more.len(),
{
    if more.len() == 0 {
        Seq::empty()
    } else {
        box_indent(style, more.drop_last()) + if more.last() {
            vertical(style) + "   "@
        } else {
            "    "@
        }
    }
}

/// The line of one process.
pub open spec fn line(style: Style, level: nat, more: Seq<bool>, is_last: bool, name: Seq<char>) -> Seq<
    char,
> {
    let h = horizontal(style);
    let lead = if style == Style::Basic {
        basic_indent(level)
    } else if level == 0 {
        " "@ + h + " "@ + h + " "@
    } else {
        box_indent(style, more) + (if is_last {
            corner(style)
        } else {
            branch(style)
        }) + h + h + " "@
    };
    lead + name + "\n"@
}

/// The ancestor flags handed to the children of a process at `level`.
pub open spec fn child_more(level: nat, more: Seq<bool>, is_last: bool) -> Seq<bool> {
    if level == 0 {
        more
    } else {
        more.push(!is_last)
    }
}

/// The text of the subtree of `p`: its line, then each child's subtree, the
/// last child marked as such.
pub open spec fn subtree_text(
    t: ProcessTree,
    style: Style,
    p: int,
    level: nat,
    more: Seq<bool>,
    is_last: bool,
) -> Seq<char>
    decreases t.allocated() - p, t.kids(p).len() + 1,
{
    line(style, level, more, is_last, name_of(p as nat)) + if 0 <= p < t.allocated() {
        children_text(
            t,
            style,
            t.kids(p),
            p,
            level + 1,
            child_more(level, more, is_last),
            t.kids(p).len(),
        )
    } else {
        Seq::empty()
    }
}

/// The text of the subtrees of the first children `cs` of `p`, out of `n`.
pub open spec fn children_text(
    t: ProcessTree,
    style: Style,
    cs: Seq<ProcessId>,
    p: int,
    level: nat,
    more: Seq<bool>,
    n: nat,
) -> Seq<char>
    decreases t.allocated() - p, cs.len(),
{
    if cs.len() == 0 {
        Seq::empty()
    } else {
        let c = cs.last() as int;
        children_text(t, style, cs.drop_last(), p, level, more, n) + if p < c < t.allocated() {
            subtree_text(t, style, c, level, more, cs.len() == n)
        } else {
            Seq::empty()
        }
    }
}

/// The whole tree in `style`, one process per line, root first.
pub open spec fn tree_text(t: ProcessTree, style: Style) -> Seq<char> {
    subtree_text(t, style, ROOT as int, 0, Seq::empty(), false)
}

fn push_line(
    style: Style,
    level: usize,
    more: &Vec<bool>,
    is_last: bool,
    name: &str,
    out: &mut String,
)
    ensures
        final(out)@ == old(out)@ + line(style, level as nat, more@, is_last, name@),
{
    let ghost start = out@;
    let h = horizontal_str(style);
    match style {
        Style::Basic => {
            let mut i: usize = 0;
            while i < level
                invariant
                    i <= level,
                    out@ == start + basic_indent(i as nat),
                decreases level - i,
            {
                out.append("    ");
                i += 1;
            }
        },
        _ => {
            if level == 0 {
                out.append(" ");
                out.append(h);
                out.append(" ");
                out.append(h);
                out.append(" ");
            } else {
                let mut i: usize = 0;
                while i < more.len()
                    invariant
                        i <= more.len(),
                        out@ == start + box_indent(style, more@.take(i as int)),
                    decreases more.len() - i,
                {
                    assert(more@.take(i + 1).drop_last() =~= more@.take(i as int));
                    if more[i] {
                        out.append(vertical_str(style));
                        out.append("   ");
                    } else {
                        out.append("    ");
                    }
                    i += 1;
                }
                assert(more@.take(more.len() as int) =~= more@);
                if is_last {
                    out.append(corner_str(style));
                } else {
                    out.append(branch_str(style));
                }
                out.append(h);
                out.append(h);
                out.append(" ");
            }
        },
    }
    out.append(name);
    out.append("\n");
    proof {
        assert(out@ =~= start + line(style, level as nat, more@, is_last, name@));
    }
}

fn render_subtree(
    t: &ProcessTree,
    style: Style,
    p: ProcessId,
    level: usize,
    more: &mut Vec<bool>,
    is_last: bool,
    out: &mut String,
)
    requires
        t.wf(),
        t.is_live(p as int),
        level <= p,
    ensures
        final(more)@ == old(more)@,
        final(out)@ == old(out)@ + subtree_text(*t, style, p as int, level as nat, old(more)@, is_last),
    decreases t.allocated() - p,
{
    let ghost start = out@;
    let ghost more0 = more@;
    proof {
        t.lemma_live_allocated(p as int);
    }
    let name = process_name(p);
    push_line(style, level, more, is_last, name.as_str(), out);
    if level > 0 {
        more.push(!is_last);
    }
    let ghost cm = more@;
    assert(cm == child_more(level as nat, more0, is_last));
    let kids = t.children_of(p);
    let n = kids.len();
    let ghost mid = out@;
    let mut i: usize = 0;
    while i < n
        invariant
            t.wf(),
            t.is_live(p as int),
            level <= p,
            kids@ == t.kids(p as int),
            n == kids.len(),
            i <= n,
            more@ == cm,
            out@ == mid + children_text(*t, style, kids@.take(i as int), p as int, (level + 1) as nat, cm, n as nat),
        decreases n - i,
    {
        let c = kids[i];
        proof {
            t.lemma_kid(p as int, i as int);
            assert(p < c && (c as int) < t.allocated());
        }
        render_subtree(t, style, c, level + 1, more, i + 1 == n, out);
        assert(kids@.take(i + 1).drop_last() =~= kids@.take(i as int));
        i += 1;
    }
    assert(kids@.take(n as int) =~= kids@);
    if level > 0 {
        more.pop();
        assert(more@ =~= more0);
    }
}

/// The tree drawn in `style`.
pub fn render(t: &ProcessTree, style: Style) -> (r: String)
    requires
        t.wf(),
    ensures
        r@ == tree_text(*t, style),
{
    let mut out = String::new();
    let mut more: Vec<bool> = Vec::new();
    proof {
        t.lemma_root_live();
    }
    render_subtree(t, style, ROOT, 0, &mut more, false, &mut out);
    assert(out@ =~= tree_text(*t, style));
    out
}

} // verus!
