//! The process forest as text: a header with the user, one line per process
//! drawn with tree branches, a summary, and the notes around them; with ANSI
//! styles where colour is on.
use vstd::prelude::*;
use vstd::string::StringExecFns;
use owo_colors::OwoColorize;

use crate::text::append_decimal;
use crate::text::decimal;
use crate::text::digit_char;
use crate::tree::ForestView;
use crate::tree::ProcessForest;
use crate::tree::acyclic_below;
use crate::tree::descends;
use crate::tree::lemma_path_len;
use crate::tree::roots_acyclic;
use crate::user::TargetUser;
use crate::user::label_text;

verus! {

broadcast use vstd::std_specs::btree::group_btree_axioms, vstd::laws_cmp::group_laws_cmp;

/// How the forest is drawn: with `pid=<PID>` after each name, and with
/// ANSI styles.
#[derive(Debug, Clone, Copy, PartialEq, Eq)]
pub struct RenderOptions {
    pub show_pid: bool,
    pub color: bool,
}

/// The two text styles in use.
#[derive(Debug, Clone, Copy, PartialEq, Eq)]
pub enum Tone {
    Bold,
    Dimmed,
}

/// `text` as owo-colors writes it in a style: the style's escape sequence,
/// the text, and the reset sequence.
pub open spec fn styled(text: Seq<char>, tone: Tone) -> Seq<char> {
    match tone {
        Tone::Bold => "\u{1b}[1m"@ + text + "\u{1b}[0m"@,
        Tone::Dimmed => "\u{1b}[2m"@ + text + "\u{1b}[0m"@,
    }
}

/// `text` in the style `tone` where colour is on, and unchanged otherwise.
pub open spec fn painted(text: Seq<char>, tone: Tone, enabled: bool) -> Seq<char> {
    if enabled {
        styled(text, tone)
    } else {
        text
    }
}

/// Calls `OwoColorize::style` of owo-colors with `Style::new().bold()` and
/// writes the result: `ESC[1m`, the text, `ESC[0m`, as `Style::fmt_prefix`
/// and `Style::fmt_suffix` write them for a style that is only bold.
#[verifier::external_body]
fn bold_styled(text: &str) -> (r: String)
    ensures
        r@ == styled(text@, Tone::Bold),
{
    text.style(owo_colors::Style::new().bold()).to_string()
}

/// Calls `OwoColorize::style` of owo-colors with `Style::new().dimmed()`
/// and writes the result: `ESC[2m`, the text, `ESC[0m`, as
/// `Style::fmt_prefix` and `Style::fmt_suffix` write them for a style that
/// is only dimmed.
#[verifier::external_body]
fn dimmed_styled(text: &str) -> (r: String)
    ensures
        r@ == styled(text@, Tone::Dimmed),
{
    text.style(owo_colors::Style::new().dimmed()).to_string()
}

/// `text` in the style `tone` where `enabled`, and unchanged otherwise.
pub fn paint(text: &str, tone: Tone, enabled: bool) -> (r: String)
    ensures
        r@ == painted(text@, tone, enabled),
{
    if enabled {
        match tone {
            Tone::Bold => bold_styled(text),
            Tone::Dimmed => dimmed_styled(text),
        }
    } else {
        String::from_str(text)
    }
}

/// The branch drawn before a process: the last child closes the branch.
pub open spec fn branch_text(last: bool) -> Seq<char> {
    if last {
        "└── "@
    } else {
        "├── "@
    }
}

/// What the lines below a process add to the prefix: a vertical bar while
/// siblings follow.
pub open spec fn indent_text(last: bool) -> Seq<char> {
    if last {
        "    "@
    } else {
        "│   "@
    }
}

/// ` pid=<PID>`.
pub open spec fn pid_text(pid: u32) -> Seq<char> {
    " pid="@ + decimal(pid as nat)
}

/// The line of one process: prefix and branch, name, and the PID where it
/// is shown.
pub open spec fn node_line(
    name: Seq<char>,
    pid: u32,
    prefix: Seq<char>,
    last: bool,
    o: RenderOptions,
) -> Seq<char> {
    painted(prefix + branch_text(last), Tone::Dimmed, o.color) + name + (if o.show_pid {
        painted(pid_text(pid), Tone::Dimmed, o.color)
    } else {
        Seq::empty()
    }) + "\n"@
}

/// The lines of process `pid` and, below it, of its children; `depth` is
/// how far below the top of the drawing it lies. Where following the
/// children never comes back to a process, `depth` stays below the number of
/// processes (see `lemma_path_len`), so that the bound on it never cuts the
/// drawing short.
pub open spec fn render_node(
    v: ForestView,
    pid: u32,
    prefix: Seq<char>,
    last: bool,
    o: RenderOptions,
    depth: nat,
) -> Seq<char>
    decreases v.processes.dom().len() - depth, 0int,
{
    if depth >= v.processes.dom().len() || !v.processes.contains_key(pid) {
        Seq::empty()
    } else {
        node_line(v.processes[pid].name@, v.processes[pid].pid, prefix, last, o) + (
        if v.children.contains_key(pid) {
            render_children(v, v.children[pid], 0, prefix + indent_text(last), o, depth + 1)
        } else {
            Seq::empty()
        })
    }
}

/// The lines of the processes `kids[i..]`, siblings at `depth`, the last of
/// them closing the branch.
pub open spec fn render_children(
    v: ForestView,
    kids: Seq<u32>,
    i: int,
    prefix: Seq<char>,
    o: RenderOptions,
    depth: nat,
) -> Seq<char>
    decreases v.processes.dom().len() - depth, kids.len() - i + 1,
{
    if i < 0 || i >= kids.len() || depth >= v.processes.dom().len() {
        Seq::empty()
    } else {
        render_node(v, kids[i], prefix, i + 1 == kids.len(), o, depth) + render_children(
            v,
            kids,
            i + 1,
            prefix,
            o,
            depth,
        )
    }
}

/// The drawn forest: the header line with the user, then the trees of the
/// roots in order.
pub open spec fn forest_text(v: ForestView, label: Seq<char>, o: RenderOptions) -> Seq<char> {
    painted(label, Tone::Bold, o.color) + "\n"@ + render_children(v, v.roots, 0, Seq::empty(), o, 0)
}

/// `<roots> roots · <processes> processes`, dimmed.
pub open spec fn summary_text(v: ForestView, o: RenderOptions) -> Seq<char> {
    painted(
        decimal(v.roots.len()) + " roots · "@ + decimal(v.processes.dom().len()) + " processes"@,
        Tone::Dimmed,
        o.color,
    )
}

/// The note on status files that could not be read, dimmed.
pub open spec fn unreadable_note_text(o: RenderOptions) -> Seq<char> {
    painted(
        "note: some processes were not readable; try sudo for a complete tree"@,
        Tone::Dimmed,
        o.color,
    )
}

/// The footer of the live view, dimmed.
pub open spec fn live_footer_text(interval_seconds: u64, o: RenderOptions) -> Seq<char> {
    painted(
        "live mode · refresh "@ + decimal(interval_seconds as nat) + "s · press Ctrl+C to quit"@,
        Tone::Dimmed,
        o.color,
    )
}

/// Where following the children from the top of the branch `above` never
/// comes back to a process, the bound on the depth never cuts the drawing
/// of a process `pid` below it short: the drawing is its line, then the
/// drawings of its children one after the other.
pub proof fn lemma_render_node_uncut(
    v: ForestView,
    pid: u32,
    prefix: Seq<char>,
    last: bool,
    o: RenderOptions,
    above: Seq<u32>,
)
    requires
        v.processes.dom().finite(),
        v.processes.contains_key(pid),
        descends(v, above.push(pid)),
        acyclic_below(v, above.push(pid)[0]),
    ensures
        above.len() < v.processes.dom().len(),
        render_node(v, pid, prefix, last, o, above.len()) == node_line(
            v.processes[pid].name@,
            v.processes[pid].pid,
            prefix,
            last,
            o,
        ) + (if v.children.contains_key(pid) {
            render_children(v, v.children[pid], 0, prefix + indent_text(last), o, above.len() + 1)
        } else {
            Seq::empty()
        }),
{
    let branch = above.push(pid);
    assert(descends(v, branch) && branch[0] == above.push(pid)[0]);
    assert forall|i: int| 0 <= i < branch.len() implies v.processes.contains_key(
        #[trigger] branch[i],
    ) by {
        if i < branch.len() - 1 {
            assert(v.processes.contains_key(branch[i]));
        }
    }
    lemma_path_len(v.processes, branch);
}

/// Every list of siblings is drawn one sibling after the other.
pub proof fn lemma_render_children_unfold(
    v: ForestView,
    kids: Seq<u32>,
    i: int,
    prefix: Seq<char>,
    o: RenderOptions,
    depth: nat,
)
    requires
        0 <= i < kids.len(),
    ensures
        render_children(v, kids, i, prefix, o, depth) == render_node(
            v,
            kids[i],
            prefix,
            i + 1 == kids.len(),
            o,
            depth,
        ) + render_children(v, kids, i + 1, prefix, o, depth),
{
    if depth >= v.processes.dom().len() {
        assert(render_node(v, kids[i], prefix, i + 1 == kids.len(), o, depth) =~= Seq::empty());
        assert(render_children(v, kids, i + 1, prefix, o, depth) =~= Seq::empty());
    }
}

/// Draws process `pid` and everything below it, after `prefix`; `above` is
/// the branch of processes drawn above it, from the top, and following the
/// children from the top of that branch never comes back to a process.
/// Nothing is drawn for a PID that is not a process of the forest.
fn render_process(
    output: &mut String,
    forest: &ProcessForest,
    pid: u32,
    prefix: &str,
    is_last: bool,
    options: RenderOptions,
    Ghost(above): Ghost<Seq<u32>>,
)
    requires
        descends(forest@, above.push(pid)),
        acyclic_below(forest@, above.push(pid)[0]),
    ensures
        final(output)@ == old(output)@ + render_node(
            forest@,
            pid,
            prefix@,
            is_last,
            options,
            above.len(),
        ),
    decreases forest.processes@.dom().len() - above.len(),
{
    let ghost m = forest.processes@;
    let ghost v = forest@;
    let ghost branch = above.push(pid);
    let ghost depth = above.len();
    let process = match forest.processes.get(&pid) {
        Some(process) => process,
        None => {
            return;
        },
    };
    proof {
        lemma_render_node_uncut(v, pid, prefix@, is_last, options, above);
    }
    let ghost start = output@;
    let mut head = String::from_str(prefix);
    if is_last {
        head.append("└── ");
    } else {
        head.append("├── ");
    }
    output.append(paint(head.as_str(), Tone::Dimmed, options.color).as_str());
    output.append(process.name.as_str());
    if options.show_pid {
        let mut label = String::from_str(" pid=");
        append_decimal(&mut label, process.pid as u64);
        output.append(paint(label.as_str(), Tone::Dimmed, options.color).as_str());
    }
    output.append("\n");
    let ghost line = node_line(process.name@, process.pid, prefix@, is_last, options);
    assert(output@ =~= start + line);
    let mut next_prefix = String::from_str(prefix);
    if is_last {
        next_prefix.append("    ");
    } else {
        next_prefix.append("│   ");
    }
    assert(next_prefix@ == prefix@ + indent_text(is_last));
    match forest.children.get(&pid) {
        Some(kids) => {
            let ghost base = output@;
            let ghost below = render_children(v, kids@, 0, next_prefix@, options, depth + 1);
            let mut i: usize = 0;
            while i < kids.len()
                invariant
                    v == forest@,
                    m == forest.processes@,
                    branch == above.push(pid),
                    depth == above.len(),
                    descends(v, branch),
                    acyclic_below(v, branch[0]),
                    m.contains_key(pid),
                    depth < m.dom().len(),
                    forest.children@.contains_key(pid),
                    *kids == forest.children@[pid],
                    0 <= i <= kids@.len(),
                    output@ + render_children(v, kids@, i as int, next_prefix@, options, depth + 1)
                        == base + below,
                decreases kids@.len() - i,
            {
                let kid = kids[i];
                let ghost next = branch.push(kid);
                proof {
                    assert(v.children[pid].contains(kid));
                    assert(next[0] == branch[0]);
                    assert forall|j: int| 0 <= j < next.len() - 1 implies v.processes.contains_key(
                        #[trigger] next[j],
                    ) && v.children.contains_key(next[j]) && v.children[next[j]].contains(
                        next[j + 1],
                    ) by {
                        if j < next.len() - 2 {
                            assert(next[j] == branch[j] && next[j + 1] == branch[j + 1]);
                        }
                    }
                    assert(descends(v, next));
                }
                let ghost before = output@;
                render_process(
                    output,
                    forest,
                    kid,
                    next_prefix.as_str(),
                    i + 1 == kids.len(),
                    options,
                    Ghost(branch),
                );
                proof {
                    lemma_render_children_unfold(v, kids@, i as int, next_prefix@, options, depth + 1);
                }
                assert(output@ + render_children(v, kids@, i + 1, next_prefix@, options, depth + 1)
                    =~= before + render_children(v, kids@, i as int, next_prefix@, options, depth + 1));
                i = i + 1;
            }
            assert(output@ =~= base + below);
        },
        None => {
            assert(output@ =~= start + line + Seq::<char>::empty());
        },
    }
}

/// The forest drawn under a header naming `target`: one line per process,
/// each root and its descendants in increasing PID order, with tree
/// branches, the name and, where `options.show_pid`, ` pid=<PID>`; ANSI
/// styles only where `options.color`.
pub fn render_forest(target: &TargetUser, forest: &ProcessForest, options: RenderOptions) -> (r:
    String)
    requires
        roots_acyclic(forest@),
    ensures
        r@ == forest_text(forest@, label_text(target.name@, target.uid), options),
{
    let ghost v = forest@;
    let label = target.label();
    let mut output = paint(label.as_str(), Tone::Bold, options.color);
    output.append("\n");
    let ghost base = output@;
    let ghost below = render_children(v, v.roots, 0, Seq::empty(), options, 0);
    let empty = String::new();
    let mut i: usize = 0;
    while i < forest.roots.len()
        invariant
            roots_acyclic(forest@),
            v == forest@,
            empty@ == Seq::<char>::empty(),
            0 <= i <= v.roots.len(),
            output@ + render_children(v, v.roots, i as int, Seq::empty(), options, 0) == base + below,
        decreases v.roots.len() - i,
    {
        let pid = forest.roots[i];
        proof {
            let branch = Seq::<u32>::empty().push(pid);
            assert(acyclic_below(v, v.roots[i as int]));
            assert(branch[0] == pid);
            assert(descends(v, branch));
        }
        let ghost before = output@;
        render_process(
            &mut output,
            forest,
            pid,
            empty.as_str(),
            i + 1 == forest.roots.len(),
            options,
            Ghost(Seq::empty()),
        );
        assert(output@ + render_children(v, v.roots, i + 1, Seq::empty(), options, 0) =~= before
            + render_children(v, v.roots, i as int, Seq::empty(), options, 0));
        i = i + 1;
    }
    assert(output@ =~= base + below);
    output
}

/// `<roots> roots · <processes> processes`, dimmed where colour is on.
pub fn render_summary(forest: &ProcessForest, options: RenderOptions) -> (r: String)
    ensures
        r@ == summary_text(forest@, options),
{
    let mut text = String::new();
    append_decimal(&mut text, forest.roots.len() as u64);
    text.append(" roots · ");
    append_decimal(&mut text, forest.processes.len() as u64);
    text.append(" processes");
    paint(text.as_str(), Tone::Dimmed, options.color)
}

/// The note that some status files could not be read, dimmed where colour
/// is on.
pub fn render_unreadable_note(options: RenderOptions) -> (r: String)
    ensures
        r@ == unreadable_note_text(options),
{
    paint(
        "note: some processes were not readable; try sudo for a complete tree",
        Tone::Dimmed,
        options.color,
    )
}

/// The footer of the live view with its refresh interval, dimmed where
/// colour is on.
pub fn render_live_footer(interval_seconds: u64, options: RenderOptions) -> (r: String)
    ensures
        r@ == live_footer_text(interval_seconds, options),
{
    let mut text = String::from_str("live mode · refresh ");
    append_decimal(&mut text, interval_seconds);
    text.append("s · press Ctrl+C to quit");
    paint(text.as_str(), Tone::Dimmed, options.color)
}

/// Whether `s` holds no escape character, with which every ANSI sequence
/// begins.
pub open spec fn escape_free(s: Seq<char>) -> bool {
    forall|i: int| 0 <= i < s.len() ==> s[i] != '\u{1b}'
}

proof fn lemma_escape_free_concat(a: Seq<char>, b: Seq<char>)
    requires
        escape_free(a),
        escape_free(b),
    ensures
        escape_free(a + b),
{
    assert forall|i: int| 0 <= i < (a + b).len() implies (a + b)[i] != '\u{1b}' by {
        if i >= a.len() {
            assert((a + b)[i] == b[i - a.len()]);
        }
    }
}

proof fn lemma_decimal_escape_free(n: nat)
    ensures
        escape_free(decimal(n)),
    decreases n,
{
    if n >= 10 {
        lemma_decimal_escape_free(n / 10);
        assert(escape_free(seq![digit_char(n % 10)]));
        lemma_escape_free_concat(decimal(n / 10), seq![digit_char(n % 10)]);
        assert(decimal(n / 10) + seq![digit_char(n % 10)] =~= decimal(n));
    }
}

proof fn lemma_plain_pieces()
    ensures
        escape_free("└── "@),
        escape_free("├── "@),
        escape_free("    "@),
        escape_free("│   "@),
        escape_free(" pid="@),
        escape_free("\n"@),
        escape_free(Seq::<char>::empty()),
{
    reveal_strlit("└── ");
    reveal_strlit("├── ");
    reveal_strlit("    ");
    reveal_strlit("│   ");
    reveal_strlit(" pid=");
    reveal_strlit("\n");
}

/// Whether every process name of `v` is free of escape characters.
pub open spec fn names_escape_free(v: ForestView) -> bool {
    forall|k: u32| #[trigger] v.processes.contains_key(k) ==> escape_free(v.processes[k].name@)
}

proof fn lemma_node_plain(
    v: ForestView,
    pid: u32,
    prefix: Seq<char>,
    last: bool,
    o: RenderOptions,
    depth: nat,
)
    requires
        !o.color,
        names_escape_free(v),
        escape_free(prefix),
    ensures
        escape_free(render_node(v, pid, prefix, last, o, depth)),
    decreases v.processes.dom().len() - depth, 0int,
{
    lemma_plain_pieces();
    if depth < v.processes.dom().len() && v.processes.contains_key(pid) {
        let p = v.processes[pid];
        lemma_escape_free_concat(prefix, branch_text(last));
        lemma_escape_free_concat(prefix + branch_text(last), p.name@);
        lemma_decimal_escape_free(p.pid as nat);
        lemma_escape_free_concat(" pid="@, decimal(p.pid as nat));
        let tail = if o.show_pid {
            painted(pid_text(p.pid), Tone::Dimmed, o.color)
        } else {
            Seq::empty()
        };
        lemma_escape_free_concat(prefix + branch_text(last) + p.name@, tail);
        lemma_escape_free_concat(prefix + branch_text(last) + p.name@ + tail, "\n"@);
        let line = node_line(p.name@, p.pid, prefix, last, o);
        assert(line == prefix + branch_text(last) + p.name@ + tail + "\n"@);
        if v.children.contains_key(pid) {
            lemma_escape_free_concat(prefix, indent_text(last));
            lemma_children_plain(v, v.children[pid], 0, prefix + indent_text(last), o, depth + 1);
            lemma_escape_free_concat(
                line,
                render_children(v, v.children[pid], 0, prefix + indent_text(last), o, depth + 1),
            );
        } else {
            lemma_escape_free_concat(line, Seq::empty());
        }
    }
}

proof fn lemma_children_plain(
    v: ForestView,
    kids: Seq<u32>,
    i: int,
    prefix: Seq<char>,
    o: RenderOptions,
    depth: nat,
)
    requires
        !o.color,
        names_escape_free(v),
        escape_free(prefix),
    ensures
        escape_free(render_children(v, kids, i, prefix, o, depth)),
    decreases v.processes.dom().len() - depth, kids.len() - i + 1,
{
    lemma_plain_pieces();
    if 0 <= i < kids.len() && depth < v.processes.dom().len() {
        lemma_node_plain(v, kids[i], prefix, i + 1 == kids.len(), o, depth);
        lemma_children_plain(v, kids, i + 1, prefix, o, depth);
        lemma_escape_free_concat(
            render_node(v, kids[i], prefix, i + 1 == kids.len(), o, depth),
            render_children(v, kids, i + 1, prefix, o, depth),
        );
    }
}

/// With colour off, the drawn forest holds no escape character, unless the
/// header or a process name brings one.
pub proof fn lemma_plain_forest_text(v: ForestView, label: Seq<char>, o: RenderOptions)
    requires
        !o.color,
        escape_free(label),
        names_escape_free(v),
    ensures
        escape_free(forest_text(v, label, o)),
{
    lemma_plain_pieces();
    lemma_children_plain(v, v.roots, 0, Seq::empty(), o, 0);
    lemma_escape_free_concat(label, "\n"@);
    lemma_escape_free_concat(label + "\n"@, render_children(v, v.roots, 0, Seq::empty(), o, 0));
}

} // verus!
