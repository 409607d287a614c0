use vstd::prelude::*;

use crate::build_graph::{Edge, Node};
use crate::graph::Graph;
use crate::index::{EdgeIndex, NodeIndex};
use crate::opts::append_chars;
use crate::res::{str_chars, string_from_chars, FilePath};

verus! {

/// The decimal digit `d`.
pub open spec fn digit(d: nat) -> char {
    ((48 + d) as u32) as char
}

/// `n` in decimal.
pub open spec fn decimal(n: nat) -> Seq<char>
    decreases n,
{
    if n < 10 {
        seq![digit(n)]
    } else {
        decimal(n / 10).push(digit(n % 10))
    }
}

/// What `char::escape_default` yields for a character.
pub uninterp spec fn escape_default(c: char) -> Seq<char>;

/// What `{:?}` writes for the path `s`: the path quoted, with its special
/// characters escaped.
pub uninterp spec fn debug_text(s: Seq<char>) -> Seq<char>;

/// Each character of `s` escaped with `char::escape_default`.
pub open spec fn escaped(s: Seq<char>) -> Seq<char>
    decreases s.len(),
{
    if s.len() == 0 {
        Seq::empty()
    } else {
        escaped(s.drop_last()) + escape_default(s.last())
    }
}

/// The line that labels resource node `i`: its path, quoted.
pub open spec fn resource_line(i: nat, path: Seq<char>) -> Seq<char> {
    "        N"@ + decimal(i) + " [label="@ + debug_text(path) + "];"@
}

/// The line that labels task node `i`: its command, escaped and quoted.
pub open spec fn task_line(i: nat, task: Seq<char>) -> Seq<char> {
    "        N"@ + decimal(i) + " [label=\""@ + escaped(task) + "\"];"@
}

/// The line of an edge from node `a` to node `b`: solid when explicit,
/// dashed when implicit.
pub open spec fn edge_line(a: nat, b: nat, w: Edge) -> Seq<char> {
    "    N"@ + decimal(a) + " -> N"@ + decimal(b) + " [style="@ + (if w == Edge::Explicit { "solid"@ } else { "dashed"@ }) + "];"@
}

/// The lines of the resource nodes among the first `k`, in index order.
pub open spec fn resource_lines(nodes: Seq<Node<FilePath, String>>, k: nat) -> Seq<Seq<char>>
    decreases k,
{
    if k == 0 {
        Seq::empty()
    } else {
        let rest = resource_lines(nodes, (k - 1) as nat);
        match nodes[k - 1] {
            Node::Resource(p) => rest.push(resource_line((k - 1) as nat, p.spec_path())),
            Node::Task(_) => rest,
        }
    }
}

/// The lines of the task nodes among the first `k`, in index order.
pub open spec fn task_lines(nodes: Seq<Node<FilePath, String>>, k: nat) -> Seq<Seq<char>>
    decreases k,
{
    if k == 0 {
        Seq::empty()
    } else {
        let rest = task_lines(nodes, (k - 1) as nat);
        match nodes[k - 1] {
            Node::Resource(_) => rest,
            Node::Task(t) => rest.push(task_line((k - 1) as nat, t@)),
        }
    }
}

/// The lines of the first `k` edges, in index order.
pub open spec fn edge_lines(edges: Seq<(NodeIndex, NodeIndex)>, weights: Seq<Edge>, k: nat) -> Seq<Seq<char>>
    decreases k,
{
    if k == 0 {
        Seq::empty()
    } else {
        edge_lines(edges, weights, (k - 1) as nat).push(
            edge_line(edges[k - 1].0.0 as nat, edges[k - 1].1.0 as nat, weights[k - 1]),
        )
    }
}

/// The GraphViz (DOT) text of a build graph, line by line: the resources,
/// as ellipses, in one subgraph; the tasks, as boxes, in another; then the
/// edges.
pub open spec fn dot_lines(g: &Graph<Node<FilePath, String>, Edge>) -> Seq<Seq<char>> {
    let nodes = g.spec_nodes();
    seq!["digraph G {"@, "    subgraph {"@, "        node [ shape=ellipse, fillcolor=lightskyblue2, style=filled];"@]
        + resource_lines(nodes, nodes.len())
        + seq!["    }"@, "    subgraph {"@, "        node [shape=box, fillcolor=gray91, style=filled];"@]
        + task_lines(nodes, nodes.len())
        + seq!["    }"@]
        + edge_lines(g.spec_edges(), g.spec_weights(), g.spec_edges().len())
        + seq!["}"@]
}

/// The views of a sequence of strings.
pub open spec fn string_views(v: Seq<String>) -> Seq<Seq<char>> {
    v.map_values(|s: String| s@)
}

/// Calls `char::escape_default` and collects what it yields. Printable
/// ASCII characters other than `\`, `'` and `"` stay as they are; those
/// three, tab, carriage return and line feed get a backslash.
#[verifier::external_body]
fn char_escape_default(c: char) -> (r: Vec<char>)
    ensures
        r@ == escape_default(c),
        ' ' <= c <= '~' && c != '\\' && c != '\'' && c != '"' ==> r@ == seq![c],
        c == '\\' ==> r@ == seq!['\\', '\\'],
        c == '\'' ==> r@ == seq!['\\', '\''],
        c == '"' ==> r@ == seq!['\\', '"'],
        c == '\t' ==> r@ == seq!['\\', 't'],
        c == '\r' ==> r@ == seq!['\\', 'r'],
        c == '\n' ==> r@ == seq!['\\', 'n'],
{
    c.escape_default().collect()
}

/// Formats a path with `{:?}` (`Debug` of `std::path::Path`): it comes out
/// between double quotes.
#[verifier::external_body]
fn path_debug(s: &str) -> (r: Vec<char>)
    ensures
        r@ == debug_text(s@),
        r@.len() >= 2,
        r@[0] == '"',
        r@.last() == '"',
{
    format!("{:?}", std::path::Path::new(s)).chars().collect()
}

/// Appends `n` in decimal.
fn push_decimal(out: &mut Vec<char>, n: usize)
    ensures
        final(out)@ == old(out)@ + decimal(n as nat),
    decreases n,
{
    if n >= 10 {
        push_decimal(out, n / 10);
    }
    let d: u8 = (n % 10) as u8;
    let c = (48u8 + d) as char;
    let ghost mid = out@;
    out.push(c);
    proof {
        assert(c == digit((n % 10) as nat));
        if n >= 10 {
            assert(out@ =~= old(out)@ + decimal((n / 10) as nat).push(digit((n % 10) as nat)));
        } else {
            assert(out@ =~= old(out)@ + seq![digit(n as nat)]);
        }
    }
}

/// Appends the characters of a string.
fn push_text(out: &mut Vec<char>, s: &str)
    ensures
        final(out)@ == old(out)@ + s@,
{
    let chars = str_chars(s);
    append_chars(out, &chars);
}

/// The characters of `s`, each escaped with `char::escape_default`.
fn escape_chars(s: &Vec<char>) -> (r: Vec<char>)
    ensures
        r@ == escaped(s@),
{
    let mut out: Vec<char> = Vec::new();
    let mut i: usize = 0;
    proof {
        assert(s@.subrange(0, 0) =~= Seq::<char>::empty());
    }
    while i < s.len()
        invariant
            i <= s@.len(),
            out@ == escaped(s@.subrange(0, i as int)),
        decreases s@.len() - i,
    {
        let e = char_escape_default(s[i]);
        append_chars(&mut out, &e);
        proof {
            assert(s@.subrange(0, i + 1).drop_last() =~= s@.subrange(0, i as int));
            assert(s@.subrange(0, i + 1).last() == s@[i as int]);
        }
        i = i + 1;
    }
    proof {
        assert(s@.subrange(0, s@.len() as int) =~= s@);
    }
    out
}

/// Adds a line of the given characters.
fn push_line(lines: &mut Vec<String>, line: &Vec<char>)
    ensures
        string_views(final(lines)@) == string_views(old(lines)@).push(line@),
{
    let s = string_from_chars(line);
    lines.push(s);
    proof {
        assert(string_views(lines@) =~= string_views(old(lines)@).push(line@));
    }
}

/// Adds a line of fixed text.
fn push_text_line(lines: &mut Vec<String>, text: &str)
    ensures
        string_views(final(lines)@) == string_views(old(lines)@).push(text@),
{
    let chars = str_chars(text);
    push_line(lines, &chars);
}

/// The GraphViz (DOT) text of a build graph, line by line: resources in
/// one subgraph and tasks in another, labelled and in index order, then the
/// edges, solid when explicit and dashed when implicit.
pub fn graphviz_lines(g: &Graph<Node<FilePath, String>, Edge>) -> (r: Vec<String>)
    requires
        g.wf(),
    ensures
        string_views(r@) == dot_lines(g),
{
    let ghost nodes = g.spec_nodes();
    let n = g.node_count();
    let m = g.edge_count();
    let mut lines: Vec<String> = Vec::new();
    push_text_line(&mut lines, "digraph G {");
    push_text_line(&mut lines, "    subgraph {");
    push_text_line(&mut lines, "        node [ shape=ellipse, fillcolor=lightskyblue2, style=filled];");
    let ghost head = string_views(lines@);
    let mut i: usize = 0;
    while i < n
        invariant
            g.wf(),
            nodes == g.spec_nodes(),
            n == nodes.len(),
            i <= n,
            string_views(lines@) == head + resource_lines(nodes, i as nat),
        decreases n - i,
    {
        match g.node_from_index(NodeIndex(i)) {
            Node::Resource(p) => {
                let mut line: Vec<char> = Vec::new();
                push_text(&mut line, "        N");
                push_decimal(&mut line, i);
                push_text(&mut line, " [label=");
                let quoted = path_debug(p.as_str());
                append_chars(&mut line, &quoted);
                push_text(&mut line, "];");
                push_line(&mut lines, &line);
                proof {
                    assert(line@ =~= resource_line(i as nat, p.spec_path()));
                }
            },
            Node::Task(_) => {},
        }
        proof {
            assert(string_views(lines@) =~= head + resource_lines(nodes, (i + 1) as nat));
        }
        i = i + 1;
    }
    push_text_line(&mut lines, "    }");
    push_text_line(&mut lines, "    subgraph {");
    push_text_line(&mut lines, "        node [shape=box, fillcolor=gray91, style=filled];");
    let ghost mid = string_views(lines@);
    let mut i: usize = 0;
    while i < n
        invariant
            g.wf(),
            nodes == g.spec_nodes(),
            n == nodes.len(),
            i <= n,
            string_views(lines@) == mid + task_lines(nodes, i as nat),
        decreases n - i,
    {
        match g.node_from_index(NodeIndex(i)) {
            Node::Resource(_) => {},
            Node::Task(t) => {
                let mut line: Vec<char> = Vec::new();
                push_text(&mut line, "        N");
                push_decimal(&mut line, i);
                push_text(&mut line, " [label=\"");
                let text = str_chars(t.as_str());
                let esc = escape_chars(&text);
                append_chars(&mut line, &esc);
                push_text(&mut line, "\"];");
                push_line(&mut lines, &line);
                proof {
                    assert(line@ =~= task_line(i as nat, t@));
                }
            },
        }
        proof {
            assert(string_views(lines@) =~= mid + task_lines(nodes, (i + 1) as nat));
        }
        i = i + 1;
    }
    push_text_line(&mut lines, "    }");
    let ghost tail = string_views(lines@);
    let mut e: usize = 0;
    while e < m
        invariant
            g.wf(),
            m == g.spec_edges().len(),
            e <= m,
            string_views(lines@) == tail + edge_lines(g.spec_edges(), g.spec_weights(), e as nat),
        decreases m - e,
    {
        let ((a, b), w) = g.edge_from_index(EdgeIndex(e));
        let mut line: Vec<char> = Vec::new();
        push_text(&mut line, "    N");
        push_decimal(&mut line, a.0);
        push_text(&mut line, " -> N");
        push_decimal(&mut line, b.0);
        push_text(&mut line, " [style=");
        match w {
            Edge::Explicit => push_text(&mut line, "solid"),
            Edge::Implicit => push_text(&mut line, "dashed"),
        }
        push_text(&mut line, "];");
        push_line(&mut lines, &line);
        proof {
            assert(line@ =~= edge_line(a.0 as nat, b.0 as nat, *w));
            assert(string_views(lines@) =~= tail + edge_lines(g.spec_edges(), g.spec_weights(), (e + 1) as nat));
        }
        e = e + 1;
    }
    push_text_line(&mut lines, "}");
    lines
}

/// A task label escapes each character on its own, with
/// `char::escape_default`: the label of a single character is exactly what
/// `escape_default` yields for it, a backslash or a quote included.
pub proof fn lemma_escaped_char(c: char)
    ensures
        escaped(seq![c]) == escape_default(c),
{
    let s = seq![c];
    assert(s.drop_last() =~= Seq::<char>::empty());
    assert(escaped(s.drop_last()) =~= Seq::<char>::empty());
    assert(Seq::<char>::empty() + escape_default(c) =~= escape_default(c));
}

/// Escaping a label works piece by piece: the label of two texts put
/// together is the two labels put together.
pub proof fn lemma_escaped_concat(a: Seq<char>, b: Seq<char>)
    ensures
        escaped(a + b) == escaped(a) + escaped(b),
    decreases b.len(),
{
    if b.len() == 0 {
        assert(a + b =~= a);
        assert(escaped(b) =~= Seq::<char>::empty());
        assert(escaped(a) + escaped(b) =~= escaped(a));
    } else {
        lemma_escaped_concat(a, b.drop_last());
        assert((a + b).drop_last() =~= a + b.drop_last());
        assert((a + b).last() == b.last());
        assert(escaped(a) + escaped(b) =~= escaped(a) + escaped(b.drop_last()) + escape_default(b.last()));
    }
}

/// The label of a task line is its command with every character, wherever
/// it stands, replaced by what `char::escape_default` yields for it: the
/// label of `pre`, then that of the character, then that of `post`.
pub proof fn lemma_task_label_escapes_each_char(i: nat, pre: Seq<char>, c: char, post: Seq<char>)
    ensures
        task_line(i, pre.push(c) + post) == "        N"@ + decimal(i) + " [label=\""@
            + escaped(pre) + escape_default(c) + escaped(post) + "\"];"@,
{
    lemma_escaped_concat(pre.push(c), post);
    lemma_escaped_concat(pre, seq![c]);
    lemma_escaped_char(c);
    assert(pre.push(c) =~= pre + seq![c]);
    assert(escaped(pre.push(c) + post) =~= escaped(pre) + escape_default(c) + escaped(post));
}

/// The number that a sequence of decimal digits stands for, read from the
/// left.
pub open spec fn digits_value(s: Seq<char>) -> int
    decreases s.len(),
{
    if s.len() == 0 {
        0
    } else {
        digits_value(s.drop_last()) * 10 + ((s.last() as u32) - 48)
    }
}

/// Node numbers are written in plain decimal: only the digits `0` to `9`,
/// at least one, no leading zero but for zero itself, and read back they
/// give the number.
pub proof fn lemma_decimal_reads_back(n: nat)
    ensures
        decimal(n).len() > 0,
        forall|i: int| 0 <= i < decimal(n).len() ==> '0' <= #[trigger] decimal(n)[i] <= '9',
        decimal(n)[0] == '0' ==> n == 0,
        digits_value(decimal(n)) == n,
    decreases n,
{
    if n < 10 {
        assert(digits_value(decimal(n)) == digits_value(decimal(n).drop_last()) * 10 + ((digit(n) as u32) - 48));
        assert(decimal(n).drop_last() =~= Seq::<char>::empty());
    } else {
        let q = n / 10;
        let r = n % 10;
        lemma_decimal_reads_back(q);
        let d = decimal(n);
        assert(d == decimal(q).push(digit(r)));
        assert(d.drop_last() =~= decimal(q));
        assert(d[0] == decimal(q)[0]);
        assert(q > 0);
        assert(digits_value(d) == digits_value(decimal(q)) * 10 + r);
        assert(q * 10 + r == n) by (nonlinear_arith)
            requires
                q == n / 10,
                r == n % 10,
        ;
        assert forall|i: int| 0 <= i < d.len() implies '0' <= #[trigger] d[i] <= '9' by {
            if i < d.len() - 1 {
                assert(d[i] == decimal(q)[i]);
            }
        }
    }
}

} // verus!
